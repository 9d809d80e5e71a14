//! The parser of the fourth engine: the optimized instruction stream, with
//! the destination of every jump resolved.

use vstd::prelude::*;
use vstd::string::StringSliceAdditionalSpecFns;
use crate::brackets::{
    balanced, deltas, first_offender, indices, lemma_resolves_unique, match_brackets, nesting,
    resolves, unmatched_at_index,
};
use crate::error::{narrowing_text, BfResult};
use crate::opjit::parser::{
    is_ast_of, jdeltas, lemma_is_ast_of_unique, lemma_lower_balanced, lower, optimize_all, Tree,
    MAX_COMMANDS,
};
use crate::source::tokens;

verus! {

#[derive(Debug, PartialEq, Eq, Clone, Copy, Structural)]
pub enum Instruction {
    IncPtr { count: usize },
    DecPtr { count: usize },
    IncData { count: usize },
    DecData { count: usize },
    Read { count: usize },
    Write { count: usize },
    JumpBegin { destination: usize },
    JumpEnd { destination: usize },
    SetDataToZero,
    MovePtrUntilZero { count: usize, forward: bool, amount: usize },
    MoveData { count: usize, forward: bool, amount: usize },
}

#[derive(Debug, PartialEq, Eq)]
pub struct Program {
    pub instructions: Vec<Instruction>,
}

impl Instruction {
    /// By how much the instruction changes the nesting level.
    pub open spec fn delta(self) -> int {
        match self {
            Instruction::JumpBegin { .. } => 1,
            Instruction::JumpEnd { .. } => -1,
            _ => 0,
        }
    }

    /// The destination of a jump, and zero for any other instruction.
    pub open spec fn destination(self) -> int {
        match self {
            Instruction::JumpBegin { destination } => destination as int,
            Instruction::JumpEnd { destination } => destination as int,
            _ => 0,
        }
    }

    /// The instruction of this engine for an instruction of the optimized
    /// stream, with `destination` for the destination of a jump.
    pub open spec fn of(j: crate::opjit::parser::Instruction, destination: usize) -> Instruction {
        match j {
            crate::opjit::parser::Instruction::IncPtr { count } => Instruction::IncPtr {
                count: count as usize,
            },
            crate::opjit::parser::Instruction::DecPtr { count } => Instruction::DecPtr {
                count: count as usize,
            },
            crate::opjit::parser::Instruction::IncData { count } => Instruction::IncData {
                count: count as usize,
            },
            crate::opjit::parser::Instruction::DecData { count } => Instruction::DecData {
                count: count as usize,
            },
            crate::opjit::parser::Instruction::Read { count } => Instruction::Read {
                count: count as usize,
            },
            crate::opjit::parser::Instruction::Write { count } => Instruction::Write {
                count: count as usize,
            },
            crate::opjit::parser::Instruction::JumpBegin => Instruction::JumpBegin { destination },
            crate::opjit::parser::Instruction::JumpEnd => Instruction::JumpEnd { destination },
            crate::opjit::parser::Instruction::SetDataToZero => Instruction::SetDataToZero,
            crate::opjit::parser::Instruction::MovePtrUntilZero {
                count,
                forward,
                amount,
            } => Instruction::MovePtrUntilZero {
                count: count as usize,
                forward,
                amount: amount as usize,
            },
            crate::opjit::parser::Instruction::MoveData {
                count,
                forward,
                amount,
            } => Instruction::MoveData { count: count as usize, forward, amount: amount as usize },
        }
    }

    /// The instruction of this engine for an instruction of the optimized
    /// stream.
    pub fn from_optimized(j: crate::opjit::parser::Instruction, destination: usize) -> (r:
        Instruction)
        ensures
            r == Instruction::of(j, destination),
            r.delta() == j.delta(),
    {
        match j {
            crate::opjit::parser::Instruction::IncPtr { count } => Instruction::IncPtr {
                count: count as usize,
            },
            crate::opjit::parser::Instruction::DecPtr { count } => Instruction::DecPtr {
                count: count as usize,
            },
            crate::opjit::parser::Instruction::IncData { count } => Instruction::IncData {
                count: count as usize,
            },
            crate::opjit::parser::Instruction::DecData { count } => Instruction::DecData {
                count: count as usize,
            },
            crate::opjit::parser::Instruction::Read { count } => Instruction::Read {
                count: count as usize,
            },
            crate::opjit::parser::Instruction::Write { count } => Instruction::Write {
                count: count as usize,
            },
            crate::opjit::parser::Instruction::JumpBegin => Instruction::JumpBegin { destination },
            crate::opjit::parser::Instruction::JumpEnd => Instruction::JumpEnd { destination },
            crate::opjit::parser::Instruction::SetDataToZero => Instruction::SetDataToZero,
            crate::opjit::parser::Instruction::MovePtrUntilZero {
                count,
                forward,
                amount,
            } => Instruction::MovePtrUntilZero {
                count: count as usize,
                forward,
                amount: amount as usize,
            },
            crate::opjit::parser::Instruction::MoveData {
                count,
                forward,
                amount,
            } => Instruction::MoveData { count: count as usize, forward, amount: amount as usize },
        }
    }
}

/// The nesting changes of a list of instructions.
pub open spec fn ideltas(ins: Seq<Instruction>) -> Seq<int> {
    ins.map_values(|i: Instruction| i.delta())
}

/// The destinations of a list of instructions.
pub open spec fn destinations(ins: Seq<Instruction>) -> Seq<int> {
    ins.map_values(|i: Instruction| i.destination())
}

/// Whether `ins` is the optimized stream `stream` with a destination on
/// every jump.
pub open spec fn resolved_from(
    ins: Seq<Instruction>,
    stream: Seq<crate::opjit::parser::Instruction>,
) -> bool {
    &&& ins.len() == stream.len()
    &&& forall|i: int|
        0 <= i < ins.len() ==> #[trigger] ins[i] == Instruction::of(
            stream[i],
            ins[i].destination() as usize,
        )
}

impl Program {
    /// The destination of every jump is the index of its partner.
    pub open spec fn wf(&self) -> bool {
        resolves(ideltas(self.instructions@), destinations(self.instructions@))
    }
}

/// Whether `ins` is the resolved optimized stream of the source `src`.
pub open spec fn optimized_form(src: Seq<u8>, ins: Seq<Instruction>) -> bool {
    &&& exists|ast: Seq<Tree>| #[trigger]
        is_ast_of(src, ast) && resolved_from(ins, lower(optimize_all(ast)))
    &&& resolves(ideltas(ins), destinations(ins))
}

/// A source has one resolved optimized stream only.
pub proof fn lemma_optimized_form_unique(src: Seq<u8>, a: Seq<Instruction>, b: Seq<Instruction>)
    requires
        optimized_form(src, a),
        optimized_form(src, b),
    ensures
        a == b,
{
    let ta = choose|ast: Seq<Tree>| #[trigger]
        is_ast_of(src, ast) && resolved_from(a, lower(optimize_all(ast)));
    let tb = choose|ast: Seq<Tree>| #[trigger]
        is_ast_of(src, ast) && resolved_from(b, lower(optimize_all(ast)));
    lemma_is_ast_of_unique(src, ta, tb);
    let stream = lower(optimize_all(ta));
    assert(ideltas(a) =~= ideltas(b)) by {
        assert forall|i: int| 0 <= i < a.len() implies ideltas(a)[i] == ideltas(b)[i] by {
            assert(a[i] == Instruction::of(stream[i], a[i].destination() as usize));
            assert(b[i] == Instruction::of(stream[i], b[i].destination() as usize));
        }
    }
    assert forall|i: int| 0 <= i < a.len() implies a[i] == b[i] by {
        assert(a[i] == Instruction::of(stream[i], a[i].destination() as usize));
        assert(b[i] == Instruction::of(stream[i], b[i].destination() as usize));
        if a[i].delta() != 0 {
            lemma_resolves_unique(ideltas(a), destinations(a), destinations(b), i);
            assert(destinations(a)[i] == a[i].destination());
            assert(destinations(b)[i] == b[i].destination());
        }
    }
    assert(a =~= b);
}

/// Gives every jump of an optimized stream the index of its partner.
pub fn resolve(stream: &Vec<crate::opjit::parser::Instruction>) -> (r: Vec<Instruction>)
    requires
        balanced(jdeltas(stream@)),
    ensures
        resolved_from(r@, stream@),
        resolves(ideltas(r@), destinations(r@)),
{
    let len = stream.len();
    let mut changes: Vec<i8> = Vec::new();
    let mut i: usize = 0;
    while i < len
        invariant
            len == stream@.len(),
            0 <= i <= len,
            changes@.len() == i,
            forall|k: int| 0 <= k < i ==> #[trigger] changes@[k] as int == stream@[k].delta(),
        decreases len - i,
    {
        let change: i8 = match stream[i] {
            crate::opjit::parser::Instruction::JumpBegin => 1,
            crate::opjit::parser::Instruction::JumpEnd => -1,
            _ => 0,
        };
        changes.push(change);
        i += 1;
    }
    proof {
        assert(nesting(changes@) =~= jdeltas(stream@));
    }
    let table = match_brackets(&changes);
    let mut instructions: Vec<Instruction> = Vec::new();
    let mut i: usize = 0;
    while i < len
        invariant
            len == stream@.len(),
            table@.len() == len,
            0 <= i <= len,
            instructions@.len() == i,
            forall|k: int|
                0 <= k < i ==> #[trigger] instructions@[k] == Instruction::of(
                    stream@[k],
                    table@[k],
                ),
        decreases len - i,
    {
        instructions.push(Instruction::from_optimized(stream[i], table[i]));
        i += 1;
    }
    proof {
        let ins = instructions@;
        assert(ideltas(ins) =~= jdeltas(stream@));
        assert forall|k: int| 0 <= k < len implies #[trigger] destinations(ins)[k] == (if jdeltas(
            stream@,
        )[k] != 0 {
            indices(table@)[k]
        } else {
            0
        }) by {
            assert(ins[k] == Instruction::of(stream@[k], table@[k]));
        }
        assert forall|k: int| 0 <= k < len implies #[trigger] ins[k] == Instruction::of(
            stream@[k],
            ins[k].destination() as usize,
        ) by {
            assert(ins[k] == Instruction::of(stream@[k], table@[k]));
        }
        let d = jdeltas(stream@);
        let dest = destinations(ins);
        let t = indices(table@);
        assert forall|a: int| 0 <= a < d.len() && d[a] == 1 implies crate::brackets::is_pair(
            d,
            a,
            #[trigger] dest[a],
        ) by {
            assert(dest[a] == t[a]);
        }
        assert forall|b: int| 0 <= b < d.len() && d[b] == -1 implies crate::brackets::is_pair(
            d,
            #[trigger] dest[b],
            b,
        ) by {
            assert(dest[b] == t[b]);
        }
    }
    instructions
}

/// Parses a source into its optimized instruction stream and resolves the
/// jumps.
///
/// Fails with `Parse` where a bracket has no partner, naming the first such
/// bracket by its source index, and with `Numeric` where a balanced source
/// holds more commands than a count can tell.
pub fn parse(source_code: &str) -> (r: BfResult<Program>)
    ensures
        ({
            let src = source_code.spec_bytes();
            let ops = tokens(src);
            &&& r is Ok <==> balanced(deltas(ops)) && ops.len() <= MAX_COMMANDS
            &&& r matches Ok(program) ==> optimized_form(src, program.instructions@)
            &&& r matches Err(e) ==> if balanced(deltas(ops)) {
                e.is_numeric(narrowing_text())
            } else {
                exists|k: int|
                    first_offender(deltas(ops), k) && e.is_parse(unmatched_at_index(src, k))
            }
        }),
{
    let optimized = match crate::opjit::parser::parse(source_code) {
        Ok(program) => program,
        Err(e) => {
            return Err(e);
        },
    };
    proof {
        let src = source_code.spec_bytes();
        let ast = choose|ast: Seq<Tree>| #[trigger]
            is_ast_of(src, ast) && optimized.instructions@ == lower(optimize_all(ast));
        lemma_lower_balanced(optimize_all(ast), optimize_all(ast).len());
    }
    let instructions = resolve(&optimized.instructions);
    Ok(Program { instructions })
}

} // verus!
