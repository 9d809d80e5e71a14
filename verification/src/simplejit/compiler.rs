//! The code emitter of the simple JIT: the operations of one command for
//! each instruction of the simple form.

use vstd::prelude::*;
use crate::assembly::{
    call_read, call_read_ops, call_write, call_write_ops, complete, emitted, epilogue,
    epilogue_ops, fails_with, jump_begin, jump_end, lemma_begin_loop, lemma_complete,
    lemma_end_loop, lemma_pieces_label_free, lemma_start_well_labelled, lemma_with_label_free,
    prologue, prologue_ops, well_labelled, Abi, Addresses, Assembler, Emitted, Failure, LabelPair,
    Op, Role,
};
use crate::brackets::{balanced, deltas, depth};
use crate::error::{parse_error, BfResult};
use crate::simpleinterp::parser::{opcodes, Instruction, Program};

verus! {

/// The operations that move the tape pointer by one cell.
pub open spec fn step_ptr_ops(abi: Abi, forward: bool) -> Seq<Op> {
    if abi.is_arm() {
        seq![
            if forward {
                Op::AddImm { dst: Role::TapePtr, src: Role::TapePtr, value: 1 }
            } else {
                Op::SubImm { dst: Role::TapePtr, src: Role::TapePtr, value: 1 }
            },
        ]
    } else {
        seq![
            if forward {
                Op::Inc(Role::TapePtr)
            } else {
                Op::Dec(Role::TapePtr)
            },
        ]
    }
}

/// The operations that raise or lower the cell by one.
pub open spec fn step_data_ops(abi: Abi, raise: bool) -> Seq<Op> {
    if abi.is_arm() {
        seq![
            Op::LoadByte { dst: Role::Temp, base: Role::TapePtr },
            if raise {
                Op::AddImm { dst: Role::Temp, src: Role::Temp, value: 1 }
            } else {
                Op::SubImm { dst: Role::Temp, src: Role::Temp, value: 1 }
            },
            Op::StoreByte { src: Role::Temp, base: Role::TapePtr },
        ]
    } else {
        seq![
            if raise {
                Op::AddByte(1)
            } else {
                Op::SubByte(1)
            },
        ]
    }
}

/// What is emitted for the instruction at `index`.
pub open spec fn emit_one(
    abi: Abi,
    addresses: Addresses,
    e: Emitted,
    instruction: Instruction,
    index: nat,
) -> Result<Emitted, Failure> {
    match instruction {
        Instruction::IncPtr => Ok(e.with(step_ptr_ops(abi, true))),
        Instruction::DecPtr => Ok(e.with(step_ptr_ops(abi, false))),
        Instruction::IncData => Ok(e.with(step_data_ops(abi, true))),
        Instruction::DecData => Ok(e.with(step_data_ops(abi, false))),
        Instruction::Read => Ok(e.with(call_read_ops(abi, addresses))),
        Instruction::Write => Ok(e.with(call_write_ops(abi, addresses))),
        Instruction::JumpIfZero => e.begin_loop(abi),
        Instruction::JumpIfNotZero => e.end_loop(abi, index),
    }
}

/// What is emitted for the first `n` instructions, behind `start`.
pub open spec fn emit_upto(
    abi: Abi,
    addresses: Addresses,
    start: Emitted,
    ins: Seq<Instruction>,
    n: nat,
) -> Result<Emitted, Failure>
    decreases n,
{
    if n == 0 || n > ins.len() {
        Ok(start)
    } else {
        match emit_upto(abi, addresses, start, ins, (n - 1) as nat) {
            Ok(e) => emit_one(abi, addresses, e, ins[n - 1], (n - 1) as nat),
            Err(f) => Err(f),
        }
    }
}

/// The listing of a program: the entry, the operations of every
/// instruction, and the exit; or why there is none.
pub open spec fn compile_spec(abi: Abi, addresses: Addresses, ins: Seq<Instruction>) -> Result<
    Seq<Op>,
    Failure,
> {
    let start = Emitted {
        ops: prologue_ops(abi, addresses.memory),
        labels: 0,
        stack: Seq::empty(),
    };
    match emit_upto(abi, addresses, start, ins, ins.len()) {
        Ok(e) => if e.stack.len() > 0 {
            Err(Failure::UnmatchedOpen)
        } else {
            Ok(e.ops + epilogue_ops(abi))
        },
        Err(f) => Err(f),
    }
}

/// Once an instruction has failed, the program has.
pub proof fn lemma_failure_stays(
    abi: Abi,
    addresses: Addresses,
    start: Emitted,
    ins: Seq<Instruction>,
    n: nat,
    m: nat,
)
    requires
        n <= m <= ins.len(),
        emit_upto(abi, addresses, start, ins, n) is Err,
    ensures
        emit_upto(abi, addresses, start, ins, m) == emit_upto(abi, addresses, start, ins, n),
    decreases m,
{
    if m > n {
        lemma_failure_stays(abi, addresses, start, ins, n, (m - 1) as nat);
    }
}

/// Every label that has been handed out while the first `n` instructions
/// were emitted has been placed exactly once, but for the ends of the loops
/// that are still open.
pub proof fn lemma_emit_well_labelled(
    abi: Abi,
    addresses: Addresses,
    start: Emitted,
    ins: Seq<Instruction>,
    n: nat,
)
    requires
        well_labelled(start),
        n <= ins.len(),
    ensures
        emit_upto(abi, addresses, start, ins, n) matches Ok(e) ==> well_labelled(e),
    decreases n,
{
    if n > 0 {
        lemma_emit_well_labelled(abi, addresses, start, ins, (n - 1) as nat);
        match emit_upto(abi, addresses, start, ins, (n - 1) as nat) {
            Ok(e) => {
                lemma_pieces_label_free(abi, addresses, Role::Temp);
                match ins[n - 1] {
                    Instruction::IncPtr => {
                        lemma_with_label_free(e, step_ptr_ops(abi, true));
                    },
                    Instruction::DecPtr => {
                        lemma_with_label_free(e, step_ptr_ops(abi, false));
                    },
                    Instruction::IncData => {
                        lemma_with_label_free(e, step_data_ops(abi, true));
                    },
                    Instruction::DecData => {
                        lemma_with_label_free(e, step_data_ops(abi, false));
                    },
                    Instruction::Read => {
                        lemma_with_label_free(e, call_read_ops(abi, addresses));
                    },
                    Instruction::Write => {
                        lemma_with_label_free(e, call_write_ops(abi, addresses));
                    },
                    Instruction::JumpIfZero => {
                        if e.begin_loop(abi) is Ok {
                            lemma_begin_loop(e, abi);
                        }
                    },
                    Instruction::JumpIfNotZero => {
                        if e.end_loop(abi, (n - 1) as nat) is Ok {
                            lemma_end_loop(e, abi, (n - 1) as nat);
                        }
                    },
                }
            },
            Err(f) => {},
        }
    }
}

/// How many labels the listing of a program has.
pub open spec fn labels_spec(abi: Abi, addresses: Addresses, ins: Seq<Instruction>) -> nat {
    let start = Emitted {
        ops: prologue_ops(abi, addresses.memory),
        labels: 0,
        stack: Seq::empty(),
    };
    match emit_upto(abi, addresses, start, ins, ins.len()) {
        Ok(e) => e.labels,
        Err(f) => 0,
    }
}

/// The listing of a program places every label that it jumps to, and each
/// of its labels exactly once.
pub proof fn lemma_listing_complete(abi: Abi, addresses: Addresses, ins: Seq<Instruction>)
    ensures
        compile_spec(abi, addresses, ins) matches Ok(ops) ==> complete(
            ops,
            labels_spec(abi, addresses, ins),
        ),
{
    let start = Emitted {
        ops: prologue_ops(abi, addresses.memory),
        labels: 0,
        stack: Seq::empty(),
    };
    lemma_pieces_label_free(abi, addresses, Role::Temp);
    lemma_start_well_labelled(start.ops);
    lemma_emit_well_labelled(abi, addresses, start, ins, ins.len());
    match emit_upto(abi, addresses, start, ins, ins.len()) {
        Ok(e) => {
            if e.stack.len() == 0 {
                lemma_complete(e, epilogue_ops(abi));
                assert(complete(e.ops + epilogue_ops(abi), e.labels));
            }
        },
        Err(f) => {},
    }
}

/// While the brackets nest, as many loops are open in the listing as in the
/// program, and nothing but a lack of labels makes an instruction fail.
pub proof fn lemma_emit_follows_nesting(
    abi: Abi,
    addresses: Addresses,
    start: Emitted,
    ins: Seq<Instruction>,
    n: nat,
)
    requires
        n <= ins.len(),
        start.stack.len() == 0,
        forall|k: int| 0 <= k <= n ==> #[trigger] depth(deltas(opcodes(ins)), k) >= 0,
    ensures
        match emit_upto(abi, addresses, start, ins, n) {
            Ok(e) => e.stack.len() == depth(deltas(opcodes(ins)), n as int),
            Err(f) => f == Failure::OutOfLabels,
        },
    decreases n,
{
    if n > 0 {
        let d = deltas(opcodes(ins));
        lemma_emit_follows_nesting(abi, addresses, start, ins, (n - 1) as nat);
        assert(depth(d, n as int) == depth(d, n - 1) + d[n - 1]);
        assert(depth(d, n as int) >= 0);
    }
}

/// A program with balanced brackets has a listing, unless the labels run
/// out.
pub proof fn lemma_balanced_compiles(abi: Abi, addresses: Addresses, ins: Seq<Instruction>)
    requires
        balanced(deltas(opcodes(ins))),
    ensures
        compile_spec(abi, addresses, ins) is Ok || compile_spec(abi, addresses, ins) == Err::<
            Seq<Op>,
            Failure,
        >(Failure::OutOfLabels),
{
    let start = Emitted {
        ops: prologue_ops(abi, addresses.memory),
        labels: 0,
        stack: Seq::empty(),
    };
    lemma_emit_follows_nesting(abi, addresses, start, ins, ins.len());
}

/// Emits the operations of the instruction at `index`.
pub fn emit_instruction(
    assembler: &mut Assembler,
    open_bracket_stack: &mut Vec<LabelPair>,
    addresses: &Addresses,
    instruction: Instruction,
    index: usize,
) -> (r: BfResult<()>)
    ensures
        final(assembler).abi == old(assembler).abi,
        match emit_one(
            old(assembler).abi,
            *addresses,
            emitted(*old(assembler), old(open_bracket_stack)@),
            instruction,
            index as nat,
        ) {
            Ok(e) => r is Ok && emitted(*final(assembler), final(open_bracket_stack)@) == e,
            Err(f) => r is Err && fails_with(r->Err_0, f),
        },
{
    let arm = assembler.abi.arm();
    match instruction {
        Instruction::IncPtr => {
            if arm {
                assembler.emit(Op::AddImm { dst: Role::TapePtr, src: Role::TapePtr, value: 1 });
            } else {
                assembler.emit(Op::Inc(Role::TapePtr));
            }
            proof {
                assert(assembler.ops@ =~= old(assembler).ops@ + step_ptr_ops(
                    old(assembler).abi,
                    true,
                ));
            }
            Ok(())
        },
        Instruction::DecPtr => {
            if arm {
                assembler.emit(Op::SubImm { dst: Role::TapePtr, src: Role::TapePtr, value: 1 });
            } else {
                assembler.emit(Op::Dec(Role::TapePtr));
            }
            proof {
                assert(assembler.ops@ =~= old(assembler).ops@ + step_ptr_ops(
                    old(assembler).abi,
                    false,
                ));
            }
            Ok(())
        },
        Instruction::IncData => {
            if arm {
                assembler.emit(Op::LoadByte { dst: Role::Temp, base: Role::TapePtr });
                assembler.emit(Op::AddImm { dst: Role::Temp, src: Role::Temp, value: 1 });
                assembler.emit(Op::StoreByte { src: Role::Temp, base: Role::TapePtr });
            } else {
                assembler.emit(Op::AddByte(1));
            }
            proof {
                assert(assembler.ops@ =~= old(assembler).ops@ + step_data_ops(
                    old(assembler).abi,
                    true,
                ));
            }
            Ok(())
        },
        Instruction::DecData => {
            if arm {
                assembler.emit(Op::LoadByte { dst: Role::Temp, base: Role::TapePtr });
                assembler.emit(Op::SubImm { dst: Role::Temp, src: Role::Temp, value: 1 });
                assembler.emit(Op::StoreByte { src: Role::Temp, base: Role::TapePtr });
            } else {
                assembler.emit(Op::SubByte(1));
            }
            proof {
                assert(assembler.ops@ =~= old(assembler).ops@ + step_data_ops(
                    old(assembler).abi,
                    false,
                ));
            }
            Ok(())
        },
        Instruction::Read => {
            call_read(assembler, addresses);
            Ok(())
        },
        Instruction::Write => {
            call_write(assembler, addresses);
            Ok(())
        },
        Instruction::JumpIfZero => jump_begin(assembler, open_bracket_stack),
        Instruction::JumpIfNotZero => jump_end(assembler, open_bracket_stack, index),
    }
}

/// Compiles a program to a listing for an ABI, with the addresses of the
/// tape, of the runtime and of its two callbacks written into the code.
///
/// Fails with `Parse` where the program closes a loop that is not open or
/// ends inside one, and with `Assembler` where the labels run out.
pub fn compile(program: Program, abi: Abi, addresses: &Addresses) -> (r: BfResult<Assembler>)
    ensures
        match compile_spec(abi, *addresses, program.instructions@) {
            Ok(ops) => r is Ok && r->Ok_0.ops@ == ops && r->Ok_0.abi == abi,
            Err(f) => r is Err && fails_with(r->Err_0, f),
        },
        r matches Ok(listing) ==> listing.labels == labels_spec(
            abi,
            *addresses,
            program.instructions@,
        ) && complete(listing.ops@, listing.labels as nat),
{
    let mut assembler = Assembler::new(abi);
    prologue(&mut assembler, addresses.memory);
    let mut open_bracket_stack: Vec<LabelPair> = Vec::new();
    let ghost start = emitted(assembler, open_bracket_stack@);
    let ghost ins = program.instructions@;
    proof {
        assert(start.ops =~= prologue_ops(abi, addresses.memory));
        assert(start.stack =~= Seq::<LabelPair>::empty());
    }
    let len = program.instructions.len();
    let mut i: usize = 0;
    while i < len
        invariant
            0 <= i <= len,
            len == ins.len(),
            ins == program.instructions@,
            assembler.abi == abi,
            start == (Emitted {
                ops: prologue_ops(abi, addresses.memory),
                labels: 0,
                stack: Seq::empty(),
            }),
            emit_upto(abi, *addresses, start, ins, i as nat) == Ok::<Emitted, Failure>(
                emitted(assembler, open_bracket_stack@),
            ),
        decreases len - i,
    {
        let ghost before = emitted(assembler, open_bracket_stack@);
        match emit_instruction(
            &mut assembler,
            &mut open_bracket_stack,
            addresses,
            program.instructions[i],
            i,
        ) {
            Ok(()) => {},
            Err(e) => {
                proof {
                    let next = emit_upto(abi, *addresses, start, ins, (i + 1) as nat);
                    assert(next == emit_one(abi, *addresses, before, ins[i as int], i as nat));
                    lemma_failure_stays(abi, *addresses, start, ins, (i + 1) as nat, len as nat);
                }
                return Err(e);
            },
        }
        i += 1;
    }
    if open_bracket_stack.len() != 0 {
        return Err(parse_error("unmatched '['"));
    }
    proof {
        lemma_pieces_label_free(abi, *addresses, Role::Temp);
        lemma_start_well_labelled(start.ops);
        lemma_emit_well_labelled(abi, *addresses, start, ins, len as nat);
        lemma_complete(emitted(assembler, open_bracket_stack@), epilogue_ops(abi));
    }
    epilogue(&mut assembler);
    Ok(assembler)
}

} // verus!
