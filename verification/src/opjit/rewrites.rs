//! Why the three loop rewrites are sound: a loop of one of the three shapes,
//! run round by round until the current cell is zero, ends in the state that
//! the node written for it leads to.

use vstd::prelude::*;
use crate::math::{lemma_wrap_add_step, wrap_add, wrap_sub};
use crate::opjit::parser::{all_are, is_move_data, is_move_ptr, is_set_zero, ptr_op, Tree};
use crate::runtime::{State, Step, MEMORY_SIZE};
use crate::source::OpCode;

verus! {

/// The effect of one command that is no bracket.
pub open spec fn apply(op: OpCode, s: State) -> Step {
    match op {
        OpCode::IncPtr => s.move_ptr(1),
        OpCode::DecPtr => s.move_ptr(-1),
        OpCode::IncData => Step::Next(s.inc_data(1)),
        OpCode::DecData => Step::Next(s.dec_data(1)),
        OpCode::Read => s.read(1),
        OpCode::Write => Step::Next(s.write(1)),
        _ => Step::Next(s),
    }
}

/// The effect of the commands of a loop body, one after the other.
pub open spec fn apply_all(body: Seq<OpCode>, s: State) -> Step
    decreases body.len(),
{
    if body.len() == 0 {
        Step::Next(s)
    } else {
        match apply(body[0], s) {
            Step::Next(t) => apply_all(body.drop_first(), t),
            Step::Fault(f) => Step::Fault(f),
        }
    }
}

/// The loop around `body`, run from `s`: what it ends in, or `None` where
/// it has not ended after `rounds` rounds.
pub open spec fn iterate(body: Seq<OpCode>, s: State, rounds: nat) -> Option<Step>
    decreases rounds,
{
    if s.cell() == 0 {
        Some(Step::Next(s))
    } else if rounds == 0 {
        None
    } else {
        match apply_all(body, s) {
            Step::Next(t) => iterate(body, t, (rounds - 1) as nat),
            Step::Fault(f) => Some(Step::Fault(f)),
        }
    }
}

/// The commands of a body that holds commands alone.
pub open spec fn commands(body: Seq<Tree>) -> Seq<OpCode> {
    Seq::new(body.len(), |i: int| body[i]->Scalar_0)
}

/// The same command `n` times.
pub open spec fn repeat(op: OpCode, n: nat) -> Seq<OpCode> {
    Seq::new(n, |i: int| op)
}

/// The signed distance of `amount` cells in a direction.
pub open spec fn signed(forward: bool, amount: nat) -> int {
    if forward {
        amount as int
    } else {
        -(amount as int)
    }
}

/// Two runs of commands, one after the other, have the effect of the
/// second on what the first leads to.
pub proof fn lemma_apply_concat(a: Seq<OpCode>, b: Seq<OpCode>, s: State)
    ensures
        apply_all(a + b, s) == match apply_all(a, s) {
            Step::Next(t) => apply_all(b, t),
            Step::Fault(f) => Step::Fault(f),
        },
    decreases a.len(),
{
    if a.len() == 0 {
        assert(a + b =~= b);
    } else {
        assert((a + b).drop_first() =~= a.drop_first() + b);
        assert((a + b)[0] == a[0]);
        match apply(a[0], s) {
            Step::Next(t) => {
                lemma_apply_concat(a.drop_first(), b, t);
            },
            Step::Fault(f) => {},
        }
    }
}

/// `n` times `+` raise the current cell `n` times, and `n` times `-` lower
/// it `n` times.
pub proof fn lemma_apply_data(increase: bool, n: nat, s: State)
    requires
        s.wf(),
    ensures
        increase ==> apply_all(repeat(OpCode::IncData, n), s) == Step::Next(s.inc_data(n)),
        !increase ==> apply_all(repeat(OpCode::DecData, n), s) == Step::Next(s.dec_data(n)),
    decreases n,
{
    let op = if increase {
        OpCode::IncData
    } else {
        OpCode::DecData
    };
    if n == 0 {
        assert(s.inc_data(0).tape =~= s.tape);
        assert(s.dec_data(0).tape =~= s.tape);
    } else {
        let t = if increase {
            s.inc_data(1)
        } else {
            s.dec_data(1)
        };
        assert(repeat(op, n).drop_first() =~= repeat(op, (n - 1) as nat));
        lemma_apply_data(increase, (n - 1) as nat, t);
        if increase {
            assert(t.inc_data((n - 1) as nat).tape =~= s.inc_data(n).tape);
        } else {
            assert(t.dec_data((n - 1) as nat).tape =~= s.dec_data(n).tape);
        }
    }
}

/// `n` steps of the data pointer in one direction are one move by `n`
/// cells: they leave the tape if and only if the move does.
pub proof fn lemma_apply_ptr(forward: bool, n: nat, s: State)
    requires
        s.wf(),
    ensures
        apply_all(repeat(ptr_op(forward), n), s) == s.move_ptr(signed(forward, n)),
    decreases n,
{
    let op = ptr_op(forward);
    if n > 0 {
        assert(repeat(op, n).drop_first() =~= repeat(op, (n - 1) as nat));
        match apply(op, s) {
            Step::Next(t) => {
                lemma_apply_ptr(forward, (n - 1) as nat, t);
            },
            Step::Fault(f) => {},
        }
    }
}

/// A loop that holds only `+`, or only `-`, and that ends, ends with the
/// current cell cleared and nothing else changed: in the state that
/// `SetDataToZero` leads to.
pub proof fn lemma_set_zero_sound(body: Seq<Tree>, s: State, rounds: nat)
    requires
        s.wf(),
        is_set_zero(body),
        iterate(commands(body), s, rounds) is Some,
    ensures
        iterate(commands(body), s, rounds) == Some(Step::Next(s.set_zero())),
    decreases rounds,
{
    let cmds = commands(body);
    if s.cell() == 0 {
        assert(s.set_zero().tape =~= s.tape);
    } else {
        let increase = all_are(body, OpCode::IncData);
        if increase {
            assert(cmds =~= repeat(OpCode::IncData, body.len()));
        } else {
            assert(cmds =~= repeat(OpCode::DecData, body.len()));
        }
        lemma_apply_data(increase, body.len(), s);
        let t = if increase {
            s.inc_data(body.len())
        } else {
            s.dec_data(body.len())
        };
        lemma_set_zero_sound(body, t, (rounds - 1) as nat);
        assert(t.set_zero().tape =~= s.set_zero().tape);
    }
}

/// A loop that holds only `>`, or only `<`, and that ends, ends where the
/// scan with the length of its body for the stride ends, or leaves the tape
/// as that scan does: it does what `MovePtrUntilZero` does.
pub proof fn lemma_move_ptr_sound(body: Seq<Tree>, forward: bool, s: State, rounds: nat)
    requires
        s.wf(),
        is_move_ptr(body, forward),
        iterate(commands(body), s, rounds) is Some,
    ensures
        iterate(commands(body), s, rounds) == Some(s.scan(signed(forward, body.len()))),
    decreases rounds,
{
    let cmds = commands(body);
    let stride = signed(forward, body.len());
    if s.cell() != 0 {
        assert(cmds =~= repeat(ptr_op(forward), body.len()));
        lemma_apply_ptr(forward, body.len(), s);
        match s.move_ptr(stride) {
            Step::Next(t) => {
                lemma_move_ptr_sound(body, forward, t, (rounds - 1) as nat);
            },
            Step::Fault(f) => {},
        }
    }
}

/// One round of a loop of the shape `-`, `k` steps away, `+`, `k` steps
/// back: the current cell is one less and the cell `k` away one more,
/// unless that cell is off the tape.
pub proof fn lemma_move_data_round(body: Seq<Tree>, forward: bool, s: State)
    requires
        s.wf(),
        is_move_data(body, forward),
    ensures
        ({
            let k = ((body.len() - 2) / 2) as nat;
            let target = s.dp + signed(forward, k);
            apply_all(commands(body), s) == if 0 <= target < MEMORY_SIZE {
                Step::Next(
                    State {
                        tape: s.tape.update(s.dp, wrap_sub(s.cell(), 1)).update(
                            target,
                            wrap_add(s.tape[target], 1),
                        ),
                        ..s
                    },
                )
            } else {
                Step::Fault(crate::runtime::Fault::Pointer)
            }
        }),
{
    let k = ((body.len() - 2) / 2) as nat;
    let away = repeat(ptr_op(forward), k);
    let back = repeat(ptr_op(!forward), k);
    let dec = seq![OpCode::DecData];
    let inc = seq![OpCode::IncData];
    let cmds = commands(body);
    assert(cmds =~= dec + (away + (inc + back))) by {
        assert forall|i: int| 0 <= i < cmds.len() implies cmds[i] == (dec + (away + (inc
            + back)))[i] by {
            if i == 0 {
            } else if i <= k {
                assert(body[i] == Tree::Scalar(ptr_op(forward)));
            } else if i == k + 1 {
            } else {
                assert(body[i] == Tree::Scalar(ptr_op(!forward)));
            }
        }
    }
    let s1 = s.dec_data(1);
    reveal_with_fuel(apply_all, 2);
    lemma_apply_concat(dec, away + (inc + back), s);
    assert(dec.drop_first() =~= Seq::<OpCode>::empty());
    assert(apply_all(dec, s) == Step::Next(s1));
    lemma_apply_concat(away, inc + back, s1);
    lemma_apply_ptr(forward, k, s1);
    match s1.move_ptr(signed(forward, k)) {
        Step::Next(s2) => {
            let s3 = s2.inc_data(1);
            lemma_apply_concat(inc, back, s2);
            assert(inc.drop_first() =~= Seq::<OpCode>::empty());
            assert(apply_all(inc, s2) == Step::Next(s3));
            lemma_apply_ptr(!forward, k, s3);
        },
        Step::Fault(f) => {},
    }
}

/// A loop of the shape `-`, `k` steps away, `+`, `k` steps back, that ends
/// without leaving the tape, ends with the current cell added to the cell
/// `k` away and cleared: in the state that `MoveData` leads to.
pub proof fn lemma_move_data_sound(
    body: Seq<Tree>,
    forward: bool,
    s: State,
    rounds: nat,
    t: State,
)
    requires
        s.wf(),
        is_move_data(body, forward),
        iterate(commands(body), s, rounds) == Some(Step::Next(t)),
    ensures
        s.move_data(signed(forward, ((body.len() - 2) / 2) as nat)) == Step::Next(t),
    decreases rounds,
{
    let k = ((body.len() - 2) / 2) as nat;
    let offset = signed(forward, k);
    if s.cell() != 0 {
        lemma_move_data_round(body, forward, s);
        let target = s.dp + offset;
        let s1 = State {
            tape: s.tape.update(s.dp, wrap_sub(s.cell(), 1)).update(
                target,
                wrap_add(s.tape[target], 1),
            ),
            ..s
        };
        lemma_move_data_sound(body, forward, s1, (rounds - 1) as nat, t);
        lemma_wrap_add_step(s.tape[target], (s.cell() - 1) as nat);
        if s1.cell() == 0 {
            assert(t.tape =~= s.tape.update(target, wrap_add(s.tape[target], s.cell() as nat)).update(
                s.dp,
                0u8,
            ));
        } else {
            assert(wrap_add(wrap_add(s.tape[target], 1), s1.cell() as nat) == wrap_add(
                s.tape[target],
                s.cell() as nat,
            ));
            assert(t.tape =~= s.tape.update(target, wrap_add(s.tape[target], s.cell() as nat)).update(
                s.dp,
                0u8,
            ));
        }
    }
}

/// A loop of the shape `-`, `k` steps away, `+`, `k` steps back leaves the
/// tape exactly where `MoveData` does: on a cell that is not zero, with the
/// cell `k` away off the tape.
pub proof fn lemma_move_data_fault(body: Seq<Tree>, forward: bool, s: State, rounds: nat)
    requires
        s.wf(),
        is_move_data(body, forward),
        rounds > 0,
    ensures
        iterate(commands(body), s, rounds) is Some && iterate(commands(body), s, rounds)->Some_0
            is Fault <==> s.move_data(signed(forward, ((body.len() - 2) / 2) as nat)) is Fault,
    decreases rounds,
{
    if s.cell() != 0 {
        lemma_move_data_round(body, forward, s);
        let k = ((body.len() - 2) / 2) as nat;
        let target = s.dp + signed(forward, k);
        if 0 <= target < MEMORY_SIZE {
            let s1 = State {
                tape: s.tape.update(s.dp, wrap_sub(s.cell(), 1)).update(
                    target,
                    wrap_add(s.tape[target], 1),
                ),
                ..s
            };
            if rounds > 1 {
                lemma_move_data_fault(body, forward, s1, (rounds - 1) as nat);
            }
        }
    }
}

/// A node written for one loop is carried out once: one scan, or one move
/// of the cell, and no more.
pub proof fn lemma_once(s: State, stride: int, offset: int)
    requires
        s.wf(),
        stride != 0,
    ensures
        s.scans(1, stride) == s.scan(stride),
        s.move_datas(1, offset) == s.move_data(offset),
{
    reveal_with_fuel(State::scans, 2);
    reveal_with_fuel(State::move_datas, 2);
}

/// Loops of one shape in a row do what the first of them does: behind it
/// the current cell is zero, and the others find nothing to do.
pub proof fn lemma_repeats(s: State, count: nat, stride: int, offset: int)
    requires
        s.wf(),
        stride != 0,
        count >= 1,
    ensures
        s.scans(count, stride) == s.scan(stride),
        s.move_datas(count, offset) == s.move_data(offset),
    decreases count,
{
    lemma_once(s, stride, offset);
    if count > 1 {
        lemma_scan_ends_on_zero(s, stride);
        match s.scan(stride) {
            Step::Next(t) => {
                lemma_idle(t, (count - 1) as nat, stride, offset);
            },
            Step::Fault(f) => {},
        }
        match s.move_data(offset) {
            Step::Next(t) => {
                lemma_idle(t, (count - 1) as nat, stride, offset);
            },
            Step::Fault(f) => {},
        }
    }
}

/// A scan that ends, ends on a zero cell, with a state that is well formed.
pub proof fn lemma_scan_ends_on_zero(s: State, stride: int)
    requires
        s.wf(),
        stride != 0,
    ensures
        s.scan(stride) matches Step::Next(t) ==> t.wf() && t.cell() == 0,
    decreases s.room(stride),
{
    if s.cell() != 0 {
        match s.move_ptr(stride) {
            Step::Next(t) => {
                lemma_scan_ends_on_zero(t, stride);
            },
            Step::Fault(f) => {},
        }
    }
}

/// On a zero cell, scans and moves of the cell change nothing.
pub proof fn lemma_idle(s: State, count: nat, stride: int, offset: int)
    requires
        s.wf(),
        stride != 0,
        s.cell() == 0,
    ensures
        s.scans(count, stride) == Step::Next(s),
        s.move_datas(count, offset) == Step::Next(s),
    decreases count,
{
    if count > 0 {
        lemma_idle(s, (count - 1) as nat, stride, offset);
    }
}

} // verus!
