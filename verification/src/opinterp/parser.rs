//! The simple parser with its second pass: the commands of a source and the
//! table that gives each bracket the index of its partner.

use vstd::prelude::*;
use vstd::string::StringSliceAdditionalSpecFns;
use crate::brackets::{
    balanced, check_brackets, deltas, depth, first_offender, is_pair, lemma_balanced_no_offender,
    lemma_deltas_unit, lemma_first_close_offends, lemma_outer_open_offends, lemma_pair_unique,
    lemma_partner_of_close, nests, offender, resolves, unmatched_at_pc, unmatched_open,
};
use crate::error::{parse_error_at, unmatched_close_at_pc, unmatched_open_at_pc, BfError};
use crate::source::{tokenize, tokens, OpCode};

verus! {

#[derive(Debug, PartialEq, Eq, Clone, Copy, Structural)]
pub enum Instruction {
    IncPtr,
    DecPtr,
    IncData,
    DecData,
    Read,
    Write,
    JumpIfZero,
    JumpIfNotZero,
}

#[derive(Debug, PartialEq, Eq)]
pub struct Program {
    pub instructions: Vec<Instruction>,
    pub jump_table: Vec<usize>,
}

impl Instruction {
    /// The command that the instruction carries out.
    pub open spec fn opcode(self) -> OpCode {
        match self {
            Instruction::IncPtr => OpCode::IncPtr,
            Instruction::DecPtr => OpCode::DecPtr,
            Instruction::IncData => OpCode::IncData,
            Instruction::DecData => OpCode::DecData,
            Instruction::Read => OpCode::Read,
            Instruction::Write => OpCode::Write,
            Instruction::JumpIfZero => OpCode::JumpIfZero,
            Instruction::JumpIfNotZero => OpCode::JumpIfNotZero,
        }
    }

    /// The instruction that carries out a command.
    pub open spec fn of(op: OpCode) -> Instruction {
        match op {
            OpCode::IncPtr => Instruction::IncPtr,
            OpCode::DecPtr => Instruction::DecPtr,
            OpCode::IncData => Instruction::IncData,
            OpCode::DecData => Instruction::DecData,
            OpCode::Read => Instruction::Read,
            OpCode::Write => Instruction::Write,
            OpCode::JumpIfZero => Instruction::JumpIfZero,
            OpCode::JumpIfNotZero => Instruction::JumpIfNotZero,
        }
    }

    /// The instruction that carries out a command.
    pub fn from_opcode(op: OpCode) -> (i: Instruction)
        ensures
            i == Instruction::of(op),
            i.opcode() == op,
    {
        match op {
            OpCode::IncPtr => Instruction::IncPtr,
            OpCode::DecPtr => Instruction::DecPtr,
            OpCode::IncData => Instruction::IncData,
            OpCode::DecData => Instruction::DecData,
            OpCode::Read => Instruction::Read,
            OpCode::Write => Instruction::Write,
            OpCode::JumpIfZero => Instruction::JumpIfZero,
            OpCode::JumpIfNotZero => Instruction::JumpIfNotZero,
        }
    }
}

/// The commands that a list of instructions carries out.
pub open spec fn opcodes(instructions: Seq<Instruction>) -> Seq<OpCode> {
    instructions.map_values(|i: Instruction| i.opcode())
}

/// The entries of a jump table as mathematical integers.
pub open spec fn targets(jump_table: Seq<usize>) -> Seq<int> {
    jump_table.map_values(|t: usize| t as int)
}

/// Whether `jump_table` is the jump table of `instructions`: the index of
/// its partner for each bracket, and zero for every other instruction.
pub open spec fn is_jump_table(instructions: Seq<Instruction>, jump_table: Seq<usize>) -> bool {
    let d = deltas(opcodes(instructions));
    &&& resolves(d, targets(jump_table))
    &&& forall|k: int| 0 <= k < d.len() && d[k] == 0 ==> #[trigger] jump_table[k] == 0
}

impl Program {
    /// The brackets are balanced and the jump table is theirs.
    pub open spec fn wf(&self) -> bool {
        &&& balanced(deltas(opcodes(self.instructions@)))
        &&& is_jump_table(self.instructions@, self.jump_table@)
    }
}

/// Parses a source: one instruction for each command byte, and the jump
/// table of the brackets. Fails with `Parse` where a bracket has no partner,
/// naming the first such bracket by its source index.
pub fn parse(source_code: &str) -> (r: Result<Program, BfError>)
    ensures
        r is Ok <==> balanced(deltas(tokens(source_code.spec_bytes()))),
        r matches Ok(program) ==> {
            &&& program.instructions@ == tokens(source_code.spec_bytes()).map_values(
                |op: OpCode| Instruction::of(op),
            )
            &&& opcodes(program.instructions@) == tokens(source_code.spec_bytes())
            &&& program.wf()
        },
        r matches Err(e) ==> exists|k: int|
            first_offender(deltas(tokens(source_code.spec_bytes())), k) && e.is_parse(
                unmatched_at_pc(source_code.spec_bytes(), k),
            ),
{
    let scanned = tokenize(source_code);
    match check_brackets(&scanned) {
        Some(e) => {
            return Err(e);
        },
        None => {},
    }
    let mut instructions: Vec<Instruction> = Vec::new();
    let mut i: usize = 0;
    while i < scanned.opcodes.len()
        invariant
            0 <= i <= scanned.opcodes@.len(),
            instructions@ == scanned.opcodes@.take(i as int).map_values(
                |op: OpCode| Instruction::of(op),
            ),
        decreases scanned.opcodes@.len() - i,
    {
        instructions.push(Instruction::from_opcode(scanned.opcodes[i]));
        proof {
            assert(instructions@ =~= scanned.opcodes@.take(i + 1).map_values(
                |op: OpCode| Instruction::of(op),
            ));
        }
        i += 1;
    }
    proof {
        assert(scanned.opcodes@.take(i as int) =~= scanned.opcodes@);
        assert(opcodes(instructions@) =~= scanned.opcodes@);
    }
    match create_jump_table(&instructions) {
        Ok(jump_table) => Ok(Program { instructions, jump_table }),
        Err(e) => Err(e),
    }
}

/// The message `unmatched '[' at pc=N` or `unmatched ']' at pc=N` for the
/// bracket that is instruction `k`, with `k` itself for `N`.
pub open spec fn unmatched_instruction(instructions: Seq<Instruction>, k: int) -> Seq<char> {
    if deltas(opcodes(instructions))[k] == 1 {
        unmatched_open_at_pc(k as nat)
    } else {
        unmatched_close_at_pc(k as nat)
    }
}

/// The first bracket without a partner, found in one pass with a nesting
/// counter; `None` where the brackets are balanced.
fn first_unmatched(instructions: &Vec<Instruction>) -> (r: Option<usize>)
    ensures
        r is None <==> balanced(deltas(opcodes(instructions@))),
        r matches Some(k) ==> first_offender(deltas(opcodes(instructions@)), k as int),
{
    let ghost d = deltas(opcodes(instructions@));
    let mut bracket_nesting: usize = 0;
    let mut outer: usize = 0;
    let mut pc: usize = 0;
    while pc < instructions.len()
        invariant
            d == deltas(opcodes(instructions@)),
            0 <= pc <= instructions@.len(),
            bracket_nesting as int == depth(d, pc as int),
            bracket_nesting <= pc,
            forall|k: int| 0 <= k <= pc ==> #[trigger] depth(d, k) >= 0,
            bracket_nesting > 0 ==> outer < pc && d[outer as int] == 1 && depth(d, outer as int)
                == 0 && forall|k: int| outer < k <= pc ==> #[trigger] depth(d, k) > 0,
        decreases instructions@.len() - pc,
    {
        assert(depth(d, pc + 1) == depth(d, pc as int) + d[pc as int]);
        match instructions[pc] {
            Instruction::JumpIfZero => {
                if bracket_nesting == 0 {
                    outer = pc;
                }
                bracket_nesting += 1;
            },
            Instruction::JumpIfNotZero => {
                if bracket_nesting == 0 {
                    proof {
                        lemma_first_close_offends(d, pc as int);
                        assert(!nests(d)) by {
                            assert(depth(d, pc + 1) < 0);
                        }
                    }
                    return Some(pc);
                }
                bracket_nesting -= 1;
            },
            _ => {},
        }
        pc += 1;
    }
    if bracket_nesting > 0 {
        proof {
            assert(nests(d));
            lemma_outer_open_offends(d, outer as int);
        }
        Some(outer)
    } else {
        None
    }
}

/// Builds the jump table of a list of instructions: for each opening
/// bracket, a walk forward with a nesting counter finds the closing bracket,
/// and each of the two gets the index of the other. Fails with `Parse` where
/// a bracket has no partner, naming the first such bracket by its index in
/// the list.
pub fn create_jump_table(instructions: &Vec<Instruction>) -> (r: Result<Vec<usize>, BfError>)
    ensures
        r is Ok <==> balanced(deltas(opcodes(instructions@))),
        r matches Ok(jump_table) ==> is_jump_table(instructions@, jump_table@),
        r matches Err(e) ==> exists|k: int|
            first_offender(deltas(opcodes(instructions@)), k) && e.is_parse(
                unmatched_instruction(instructions@, k),
            ),
{
    let ghost d = deltas(opcodes(instructions@));
    match first_unmatched(instructions) {
        Some(k) => {
            let e = match instructions[k] {
                Instruction::JumpIfZero => parse_error_at("unmatched '[' at pc=", k, ""),
                _ => parse_error_at("unmatched ']' at pc=", k, ""),
            };
            proof {
                reveal_strlit("");
                assert(d[k as int] == 1 || d[k as int] == -1);
                assert(unmatched_open_at_pc(k as nat) + ""@ =~= unmatched_open_at_pc(k as nat));
                assert(unmatched_close_at_pc(k as nat) + ""@ =~= unmatched_close_at_pc(k as nat));
                assert(first_offender(d, k as int) && e.is_parse(
                    unmatched_instruction(instructions@, k as int),
                ));
            }
            return Err(e);
        },
        None => {},
    }
    let len = instructions.len();
    let mut pc: usize = 0;
    let mut jump_table: Vec<usize> = vec![0usize; len];
    while pc < len
        invariant
            d == deltas(opcodes(instructions@)),
            balanced(d),
            len == instructions@.len(),
            d.len() == len,
            0 <= pc <= len,
            jump_table@.len() == len,
            forall|k: int| 0 <= k < len && d[k] == 0 ==> #[trigger] jump_table@[k] == 0,
            forall|i: int|
                0 <= i < pc && d[i] == 1 ==> is_pair(d, i, #[trigger] jump_table@[i] as int)
                    && jump_table@[jump_table@[i] as int] == i,
        decreases len - pc,
    {
        if instructions[pc] == Instruction::JumpIfZero {
            let mut bracket_nesting: usize = 1;
            let mut seek: usize = pc;
            assert(depth(d, pc + 1) == depth(d, pc as int) + d[pc as int]);
            while bracket_nesting != 0 && seek + 1 < len
                invariant
                    d == deltas(opcodes(instructions@)),
                    len == instructions@.len(),
                    d.len() == len,
                    0 <= pc <= seek < len,
                    d[pc as int] == 1,
                    bracket_nesting as int == depth(d, seek + 1) - depth(d, pc as int),
                    bracket_nesting <= seek - pc + 1,
                    forall|k: int| pc < k <= seek ==> #[trigger] depth(d, k) > depth(d, pc as int),
                    bracket_nesting == 0 ==> seek > pc,
                decreases len - seek,
            {
                seek += 1;
                assert(depth(d, seek + 1) == depth(d, seek as int) + d[seek as int]);
                if instructions[seek] == Instruction::JumpIfNotZero {
                    bracket_nesting -= 1;
                } else if instructions[seek] == Instruction::JumpIfZero {
                    bracket_nesting += 1;
                }
            }
            proof {
                if bracket_nesting != 0 {
                    assert(unmatched_open(d, pc as int));
                    assert(offender(d, pc as int));
                    lemma_balanced_no_offender(d);
                }
                assert(depth(d, seek + 1) == depth(d, seek as int) + d[seek as int]);
                assert(is_pair(d, pc as int, seek as int));
                assert forall|i: int| 0 <= i < pc && d[i] == 1 implies jump_table@[i] != seek by {
                    if jump_table@[i] == seek {
                        lemma_pair_unique(d, i, seek as int, pc as int, seek as int);
                    }
                }
            }
            jump_table[pc] = seek;
            jump_table[seek] = pc;
        }
        pc += 1;
    }
    proof {
        let t = targets(jump_table@);
        lemma_deltas_unit(opcodes(instructions@));
        assert forall|j: int| 0 <= j < d.len() && d[j] == -1 implies is_pair(
            d,
            #[trigger] t[j],
            j,
        ) by {
            let i = lemma_partner_of_close(d, j);
            assert(is_pair(d, i, jump_table@[i] as int));
            lemma_pair_unique(d, i, j, i, jump_table@[i] as int);
        }
        assert forall|i: int| 0 <= i < d.len() && d[i] == 1 implies is_pair(
            d,
            i,
            #[trigger] t[i],
        ) by {
            assert(is_pair(d, i, jump_table@[i] as int));
        }
    }
    Ok(jump_table)
}

} // verus!
