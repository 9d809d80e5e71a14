//! The interpreter loop of the first engine.

use vstd::prelude::*;
use crate::brackets::{
    balanced, deltas, depth, is_pair, lemma_balanced_no_offender, lemma_partner, offender,
    unmatched_close, unmatched_open,
};
use crate::error::BfResult;
use crate::runtime::{reports, tells, Runtime, Step};
use crate::semantics::{run_ops, step_op};
use crate::simpleinterp::parser::{opcodes, Instruction, Program};

verus! {

/// Where the condition of the bracket at the program counter holds, moves
/// the program counter to its partner, found by walking over the
/// instructions with a nesting counter; leaves it alone otherwise, whatever
/// the program. Only a jump that is taken asks for balanced brackets.
///
/// `eq_zero` is true for an opening bracket, which jumps where the current
/// cell is zero, and false for a closing bracket, which jumps where it is
/// not.
pub fn jump(eq_zero: bool, program: &Program, runtime: &mut Runtime)
    requires
        old(runtime).wf(),
        (old(runtime)@.cell() == 0) == eq_zero ==> {
            &&& balanced(deltas(opcodes(program.instructions@)))
            &&& old(runtime).pc < program.instructions@.len()
            &&& program.instructions@[old(runtime).pc as int] == if eq_zero {
                Instruction::JumpIfZero
            } else {
                Instruction::JumpIfNotZero
            }
        },
    ensures
        final(runtime).wf(),
        final(runtime)@ == old(runtime)@.at(
            if (old(runtime)@.cell() == 0) == eq_zero {
                crate::brackets::partner(
                    deltas(opcodes(program.instructions@)),
                    old(runtime).pc as int,
                )
            } else {
                old(runtime).pc as int
            },
        ),
        (old(runtime)@.cell() == 0) == eq_zero ==> final(runtime).pc
            < program.instructions@.len(),
{
    let ghost d = deltas(opcodes(program.instructions@));
    let ghost start = runtime.pc as int;
    if (runtime.cell() == 0) == eq_zero {
        let len = program.instructions.len();
        let mut bracket_nesting: usize = 1;
        let mut seek: usize = runtime.pc;
        if eq_zero {
            assert(depth(d, start + 1) == depth(d, start) + d[start]);
            while bracket_nesting != 0 && seek + 1 < len
                invariant
                    d == deltas(opcodes(program.instructions@)),
                    len == program.instructions@.len(),
                    d.len() == len,
                    0 <= start <= seek < len,
                    d[start] == 1,
                    bracket_nesting as int == depth(d, seek + 1) - depth(d, start),
                    bracket_nesting <= seek - start + 1,
                    forall|k: int| start < k <= seek ==> #[trigger] depth(d, k) > depth(d, start),
                    bracket_nesting == 0 ==> seek > start,
                decreases len - seek,
            {
                seek += 1;
                assert(depth(d, seek + 1) == depth(d, seek as int) + d[seek as int]);
                match program.instructions[seek] {
                    Instruction::JumpIfNotZero => {
                        bracket_nesting -= 1;
                    },
                    Instruction::JumpIfZero => {
                        bracket_nesting += 1;
                    },
                    _ => {},
                }
            }
            proof {
                if bracket_nesting != 0 {
                    assert(unmatched_open(d, start));
                    assert(offender(d, start));
                    lemma_balanced_no_offender(d);
                }
                assert(depth(d, seek + 1) == depth(d, seek as int) + d[seek as int]);
                assert(is_pair(d, start, seek as int));
                lemma_partner(d, start, seek as int);
            }
        } else {
            assert(depth(d, start + 1) == depth(d, start) + d[start]);
            while bracket_nesting != 0 && seek > 0
                invariant
                    d == deltas(opcodes(program.instructions@)),
                    len == program.instructions@.len(),
                    d.len() == len,
                    0 <= seek <= start < len,
                    d[start] == -1,
                    bracket_nesting as int == depth(d, seek as int) - depth(d, start + 1),
                    bracket_nesting <= start - seek + 1,
                    forall|k: int|
                        seek < k <= start ==> #[trigger] depth(d, k) > depth(d, start + 1),
                    bracket_nesting == 0 ==> seek < start,
                decreases seek,
            {
                seek -= 1;
                assert(depth(d, seek + 1) == depth(d, seek as int) + d[seek as int]);
                match program.instructions[seek] {
                    Instruction::JumpIfZero => {
                        bracket_nesting -= 1;
                    },
                    Instruction::JumpIfNotZero => {
                        bracket_nesting += 1;
                    },
                    _ => {},
                }
            }
            proof {
                if bracket_nesting != 0 {
                    assert(seek == 0);
                    assert(unmatched_close(d, start));
                    assert(offender(d, start));
                    lemma_balanced_no_offender(d);
                }
                assert(depth(d, seek + 1) == depth(d, seek as int) + d[seek as int]);
                assert(depth(d, seek + 1) > depth(d, start + 1));
                assert(is_pair(d, seek as int, start));
                lemma_partner(d, seek as int, start);
            }
        }
        runtime.pc = seek;
    }
}

/// Carries out the instruction at the program counter and moves on.
pub fn step(program: &Program, runtime: &mut Runtime) -> (r: BfResult<()>)
    requires
        old(runtime).wf(),
        balanced(deltas(opcodes(program.instructions@))),
        old(runtime).pc < program.instructions@.len(),
    ensures
        final(runtime).wf(),
        match step_op(opcodes(program.instructions@), old(runtime)@) {
            Step::Next(s) => r is Ok && final(runtime)@ == s,
            Step::Fault(f) => r is Err && reports(r->Err_0, f) && final(runtime)@ == old(runtime)@,
        },
{
    let len = program.instructions.len();
    let r = match program.instructions[runtime.pc] {
        Instruction::IncPtr => runtime.move_ptr(true, 1),
        Instruction::DecPtr => runtime.move_ptr(false, 1),
        Instruction::IncData => {
            runtime.inc_data(1);
            Ok(())
        },
        Instruction::DecData => {
            runtime.dec_data(1);
            Ok(())
        },
        Instruction::Read => runtime.read_many(1),
        Instruction::Write => {
            runtime.write_many(1);
            Ok(())
        },
        Instruction::JumpIfZero => {
            jump(true, program, runtime);
            Ok(())
        },
        Instruction::JumpIfNotZero => {
            jump(false, program, runtime);
            Ok(())
        },
    };
    match r {
        Ok(()) => {
            assert(runtime.pc < len);
            runtime.pc += 1;
            Ok(())
        },
        Err(e) => Err(e),
    }
}

/// Runs the program from where the runtime stands, for at most `max_steps`
/// instructions: `Ok(true)` where it ended, `Ok(false)` where the steps ran
/// out first, and the error of the instruction that failed otherwise.
pub fn run(program: &Program, runtime: &mut Runtime, max_steps: u64) -> (r: BfResult<bool>)
    requires
        old(runtime).wf(),
        balanced(deltas(opcodes(program.instructions@))),
    ensures
        final(runtime).wf(),
        ({
            let (s, status) = run_ops(
                opcodes(program.instructions@),
                old(runtime)@,
                max_steps as nat,
            );
            &&& tells(r, status)
            &&& final(runtime)@ == s
        }),
{
    let ghost ops = opcodes(program.instructions@);
    let mut steps: u64 = 0;
    while runtime.pc < program.instructions.len()
        invariant
            runtime.wf(),
            ops == opcodes(program.instructions@),
            balanced(deltas(ops)),
            steps <= max_steps,
            run_ops(ops, old(runtime)@, max_steps as nat) == run_ops(
                ops,
                runtime@,
                (max_steps - steps) as nat,
            ),
        decreases max_steps - steps,
    {
        if steps >= max_steps {
            return Ok(false);
        }
        match step(program, runtime) {
            Ok(()) => {},
            Err(e) => {
                return Err(e);
            },
        }
        steps += 1;
    }
    Ok(true)
}

/// How many bytes of input the next instruction asks for: one where it is a
/// read, none otherwise or where the program has ended.
pub fn reads_next(program: &Program, runtime: &Runtime) -> (n: usize)
    ensures
        n == if runtime.pc < program.instructions@.len() && program.instructions@[runtime.pc as int]
            == Instruction::Read {
            1usize
        } else {
            0usize
        },
{
    if runtime.pc < program.instructions.len() {
        match program.instructions[runtime.pc] {
            Instruction::Read => 1,
            _ => 0,
        }
    } else {
        0
    }
}

} // verus!
