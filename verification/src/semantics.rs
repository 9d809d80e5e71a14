//! What a program in the simple form does: one command per instruction, the
//! partner of a bracket found by matching.

use vstd::prelude::*;
use crate::brackets::{deltas, partner};
use crate::runtime::{State, Status, Step};
use crate::source::OpCode;

verus! {

/// The effect of the command at the program counter of `s`.
pub open spec fn step_op(ops: Seq<OpCode>, s: State) -> Step {
    let next = s.pc + 1;
    match ops[s.pc] {
        OpCode::IncPtr => s.move_ptr(1).at(next),
        OpCode::DecPtr => s.move_ptr(-1).at(next),
        OpCode::IncData => Step::Next(s.inc_data(1).at(next)),
        OpCode::DecData => Step::Next(s.dec_data(1).at(next)),
        OpCode::Read => s.read(1).at(next),
        OpCode::Write => Step::Next(s.write(1).at(next)),
        OpCode::JumpIfZero => Step::Next(
            s.at(
                if s.cell() == 0 {
                    partner(deltas(ops), s.pc) + 1
                } else {
                    next
                },
            ),
        ),
        OpCode::JumpIfNotZero => Step::Next(
            s.at(
                if s.cell() != 0 {
                    partner(deltas(ops), s.pc) + 1
                } else {
                    next
                },
            ),
        ),
    }
}

/// The state and the status after at most `budget` commands from `s`.
pub open spec fn run_ops(ops: Seq<OpCode>, s: State, budget: nat) -> (State, Status)
    decreases budget,
{
    if s.pc >= ops.len() {
        (s, Status::Halted)
    } else if budget == 0 {
        (s, Status::Paused)
    } else {
        match step_op(ops, s) {
            Step::Next(t) => run_ops(ops, t, (budget - 1) as nat),
            Step::Fault(f) => (s, Status::Faulted(f)),
        }
    }
}

} // verus!
