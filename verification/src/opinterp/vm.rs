//! The interpreter loop of the second engine.

use vstd::prelude::*;
use crate::brackets::{deltas, lemma_partner, partner};
use crate::error::BfResult;
use crate::opinterp::parser::{opcodes, targets, Instruction, Program};
use crate::runtime::{reports, tells, Runtime, Step};
use crate::semantics::{run_ops, step_op};

verus! {

/// The program counter after the bracket at `pc`, before the advance that
/// follows every instruction: the entry of the jump table where the
/// condition of the bracket holds, `pc` itself otherwise.
///
/// `eq_zero` is true for an opening bracket, which jumps where the current
/// cell is zero, and false for a closing bracket, which jumps where it is
/// not.
pub fn jump(eq_zero: bool, program: &Program, runtime: &Runtime) -> (next: usize)
    requires
        runtime.wf(),
        program.wf(),
        runtime.pc < program.instructions@.len(),
        program.instructions@[runtime.pc as int] == if eq_zero {
            Instruction::JumpIfZero
        } else {
            Instruction::JumpIfNotZero
        },
    ensures
        next < program.instructions@.len(),
        next as int == if (runtime@.cell() == 0) == eq_zero {
            partner(deltas(opcodes(program.instructions@)), runtime.pc as int)
        } else {
            runtime.pc as int
        },
{
    proof {
        let d = deltas(opcodes(program.instructions@));
        let t = targets(program.jump_table@);
        let pc = runtime.pc as int;
        if eq_zero {
            assert(d[pc] == 1);
            lemma_partner(d, pc, t[pc]);
        } else {
            assert(d[pc] == -1);
            lemma_partner(d, t[pc], pc);
        }
    }
    if (runtime.cell() == 0) == eq_zero {
        program.jump_table[runtime.pc]
    } else {
        runtime.pc
    }
}

/// Carries out the instruction at the program counter and moves on.
pub fn step(program: &Program, runtime: &mut Runtime) -> (r: BfResult<()>)
    requires
        old(runtime).wf(),
        program.wf(),
        old(runtime).pc < program.instructions@.len(),
    ensures
        final(runtime).wf(),
        match step_op(opcodes(program.instructions@), old(runtime)@) {
            Step::Next(s) => r is Ok && final(runtime)@ == s,
            Step::Fault(f) => r is Err && reports(r->Err_0, f) && final(runtime)@ == old(runtime)@,
        },
{
    let len = program.instructions.len();
    let r = match program.instructions[runtime.pc] {
        Instruction::IncPtr => runtime.move_ptr(true, 1),
        Instruction::DecPtr => runtime.move_ptr(false, 1),
        Instruction::IncData => {
            runtime.inc_data(1);
            Ok(())
        },
        Instruction::DecData => {
            runtime.dec_data(1);
            Ok(())
        },
        Instruction::Read => runtime.read_many(1),
        Instruction::Write => {
            runtime.write_many(1);
            Ok(())
        },
        Instruction::JumpIfZero => {
            runtime.pc = jump(true, program, runtime);
            Ok(())
        },
        Instruction::JumpIfNotZero => {
            runtime.pc = jump(false, program, runtime);
            Ok(())
        },
    };
    match r {
        Ok(()) => {
            assert(runtime.pc < len);
            runtime.pc += 1;
            Ok(())
        },
        Err(e) => Err(e),
    }
}

/// Runs the program from where the runtime stands, for at most `max_steps`
/// instructions: `Ok(true)` where it ended, `Ok(false)` where the steps ran
/// out first, and the error of the instruction that failed otherwise.
pub fn run(program: &Program, runtime: &mut Runtime, max_steps: u64) -> (r: BfResult<bool>)
    requires
        old(runtime).wf(),
        program.wf(),
    ensures
        final(runtime).wf(),
        ({
            let (s, status) = run_ops(
                opcodes(program.instructions@),
                old(runtime)@,
                max_steps as nat,
            );
            &&& tells(r, status)
            &&& final(runtime)@ == s
        }),
{
    let ghost ops = opcodes(program.instructions@);
    let mut steps: u64 = 0;
    while runtime.pc < program.instructions.len()
        invariant
            runtime.wf(),
            program.wf(),
            ops == opcodes(program.instructions@),
            steps <= max_steps,
            run_ops(ops, old(runtime)@, max_steps as nat) == run_ops(
                ops,
                runtime@,
                (max_steps - steps) as nat,
            ),
        decreases max_steps - steps,
    {
        if steps >= max_steps {
            return Ok(false);
        }
        match step(program, runtime) {
            Ok(()) => {},
            Err(e) => {
                return Err(e);
            },
        }
        steps += 1;
    }
    Ok(true)
}

/// How many bytes of input the next instruction asks for: one where it is a
/// read, none otherwise or where the program has ended.
pub fn reads_next(program: &Program, runtime: &Runtime) -> (n: usize)
    ensures
        n == if runtime.pc < program.instructions@.len() && program.instructions@[runtime.pc as int]
            == Instruction::Read {
            1usize
        } else {
            0usize
        },
{
    if runtime.pc < program.instructions.len() {
        match program.instructions[runtime.pc] {
            Instruction::Read => 1,
            _ => 0,
        }
    } else {
        0
    }
}

} // verus!
