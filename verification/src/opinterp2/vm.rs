//! The interpreter loop of the third engine.

use vstd::prelude::*;
use crate::brackets::is_pair;
use crate::error::BfResult;
use crate::opinterp2::parser::{destinations, ideltas, Instruction, Program};
use crate::runtime::{reports, tells, Runtime, State, Status, Step};

verus! {

/// The effect of the instruction at the program counter of `s`.
pub open spec fn step_spec(ins: Seq<Instruction>, s: State) -> Step {
    let next = s.pc + 1;
    match ins[s.pc] {
        Instruction::IncPtr { count } => s.move_ptr(count as int).at(next),
        Instruction::DecPtr { count } => s.move_ptr(-(count as int)).at(next),
        Instruction::IncData { count } => Step::Next(s.inc_data(count as nat).at(next)),
        Instruction::DecData { count } => Step::Next(s.dec_data(count as nat).at(next)),
        Instruction::Read { count } => s.read(count as nat).at(next),
        Instruction::Write { count } => Step::Next(s.write(count as nat).at(next)),
        Instruction::JumpIfZero { destination } => Step::Next(
            s.at(
                if s.cell() == 0 {
                    destination + 1
                } else {
                    next
                },
            ),
        ),
        Instruction::JumpIfNotZero { destination } => Step::Next(
            s.at(
                if s.cell() != 0 {
                    destination + 1
                } else {
                    next
                },
            ),
        ),
    }
}

/// What the instruction at the program counter of `s` leaves where it
/// fails: a read has consumed what input there was, and a move of the data
/// pointer has changed nothing.
pub open spec fn left_by_failure(ins: Seq<Instruction>, s: State) -> State {
    match ins[s.pc] {
        Instruction::Read { .. } => s.drained(),
        _ => s,
    }
}

/// The state and the status after at most `budget` instructions from `s`.
pub open spec fn run_spec(ins: Seq<Instruction>, s: State, budget: nat) -> (State, Status)
    decreases budget,
{
    if s.pc >= ins.len() {
        (s, Status::Halted)
    } else if budget == 0 {
        (s, Status::Paused)
    } else {
        match step_spec(ins, s) {
            Step::Next(t) => run_spec(ins, t, (budget - 1) as nat),
            Step::Fault(f) => (s, Status::Faulted(f)),
        }
    }
}

/// The program counter after a bracket at `pc`, before the advance that
/// follows every instruction: `destination` where the condition of the
/// bracket holds, `pc` itself otherwise.
///
/// `eq_zero` is true for an opening bracket, which jumps where the current
/// cell is zero, and false for a closing bracket, which jumps where it is
/// not.
pub fn jump(eq_zero: bool, runtime: &Runtime, destination: usize, pc: usize) -> (next: usize)
    requires
        runtime.wf(),
    ensures
        next == if (runtime@.cell() == 0) == eq_zero {
            destination
        } else {
            pc
        },
{
    if (runtime.cell() == 0) == eq_zero {
        destination
    } else {
        pc
    }
}

/// Carries out the instruction at the program counter and moves on.
pub fn step(program: &Program, runtime: &mut Runtime) -> (r: BfResult<()>)
    requires
        old(runtime).wf(),
        program.wf(),
        old(runtime).pc < program.instructions@.len(),
    ensures
        final(runtime).wf(),
        match step_spec(program.instructions@, old(runtime)@) {
            Step::Next(s) => r is Ok && final(runtime)@ == s,
            Step::Fault(f) => r is Err && reports(r->Err_0, f) && final(runtime)@ == left_by_failure(
                program.instructions@,
                old(runtime)@,
            ),
        },
{
    let len = program.instructions.len();
    let pc = runtime.pc;
    proof {
        let d = ideltas(program.instructions@);
        let t = destinations(program.instructions@);
        if d[pc as int] == 1 {
            assert(is_pair(d, pc as int, t[pc as int]));
        }
        if d[pc as int] == -1 {
            assert(is_pair(d, t[pc as int], pc as int));
        }
    }
    let r = match program.instructions[pc] {
        Instruction::IncPtr { count } => runtime.move_ptr(true, count),
        Instruction::DecPtr { count } => runtime.move_ptr(false, count),
        Instruction::IncData { count } => {
            runtime.inc_data(count);
            Ok(())
        },
        Instruction::DecData { count } => {
            runtime.dec_data(count);
            Ok(())
        },
        Instruction::Read { count } => runtime.read_many(count),
        Instruction::Write { count } => {
            runtime.write_many(count);
            Ok(())
        },
        Instruction::JumpIfZero { destination } => {
            runtime.pc = jump(true, runtime, destination, pc);
            Ok(())
        },
        Instruction::JumpIfNotZero { destination } => {
            runtime.pc = jump(false, runtime, destination, pc);
            Ok(())
        },
    };
    match r {
        Ok(()) => {
            assert(runtime.pc < len);
            runtime.pc += 1;
            Ok(())
        },
        Err(e) => Err(e),
    }
}

/// Runs the program from where the runtime stands, for at most `max_steps`
/// instructions: `Ok(true)` where it ended, `Ok(false)` where the steps ran
/// out first, and the error of the instruction that failed otherwise.
pub fn run(program: &Program, runtime: &mut Runtime, max_steps: u64) -> (r: BfResult<bool>)
    requires
        old(runtime).wf(),
        program.wf(),
    ensures
        final(runtime).wf(),
        ({
            let (s, status) = run_spec(program.instructions@, old(runtime)@, max_steps as nat);
            &&& tells(r, status)
            &&& final(runtime)@ == if status is Faulted {
                left_by_failure(program.instructions@, s)
            } else {
                s
            }
        }),
{
    let ghost ins = program.instructions@;
    let mut steps: u64 = 0;
    while runtime.pc < program.instructions.len()
        invariant
            runtime.wf(),
            program.wf(),
            ins == program.instructions@,
            steps <= max_steps,
            run_spec(ins, old(runtime)@, max_steps as nat) == run_spec(
                ins,
                runtime@,
                (max_steps - steps) as nat,
            ),
        decreases max_steps - steps,
    {
        if steps >= max_steps {
            return Ok(false);
        }
        match step(program, runtime) {
            Ok(()) => {},
            Err(e) => {
                return Err(e);
            },
        }
        steps += 1;
    }
    Ok(true)
}

/// How many bytes of input the next instruction asks for: its count where
/// it is a read, none otherwise or where the program has ended.
pub fn reads_next(program: &Program, runtime: &Runtime) -> (n: usize)
    ensures
        n == if runtime.pc < program.instructions@.len() {
            match program.instructions@[runtime.pc as int] {
                Instruction::Read { count } => count,
                _ => 0usize,
            }
        } else {
            0usize
        },
{
    if runtime.pc < program.instructions.len() {
        match program.instructions[runtime.pc] {
            Instruction::Read { count } => count,
            _ => 0,
        }
    } else {
        0
    }
}

} // verus!
