//! Why the run-length form does what the simple form does: an instruction
//! with a count does what as many commands do, one after the other, and a
//! jump goes where the bracket that it stands for goes.

use vstd::prelude::*;
use crate::brackets::{
    bracket_delta, deltas, depth, is_pair, lemma_partner, partner, resolves,
};
use crate::opinterp2::parser::{destinations, expand, ideltas, maximal, Instruction};
use crate::opinterp2::vm::{run_spec, step_spec};
use crate::runtime::{Fault, State, Status, Step};
use crate::semantics::{run_ops, step_op};
use crate::source::OpCode;

verus! {

/// How many commands the first `k` instructions stand for: where, among the
/// commands, instruction `k` begins.
pub open spec fn start(ins: Seq<Instruction>, k: int) -> int
    decreases k,
{
    if k <= 0 {
        0
    } else {
        start(ins, k - 1) + ins[k - 1].count()
    }
}

/// Where an instruction begins depends on the instructions in front of it
/// alone.
pub proof fn lemma_start_prefix(a: Seq<Instruction>, b: Seq<Instruction>, k: int)
    requires
        0 <= k <= a.len(),
        k <= b.len(),
        forall|i: int| 0 <= i < k ==> a[i] == b[i],
    ensures
        start(a, k) == start(b, k),
    decreases k,
{
    if k > 0 {
        lemma_start_prefix(a, b, k - 1);
    }
}

/// Instructions begin one behind the other.
pub proof fn lemma_start_monotone(ins: Seq<Instruction>, j: int, k: int)
    requires
        0 <= j <= k,
    ensures
        0 <= start(ins, j) <= start(ins, k),
    decreases k,
{
    if k > 0 {
        if j < k {
            lemma_start_monotone(ins, j, k - 1);
        } else {
            lemma_start_monotone(ins, j - 1, k - 1);
        }
    }
}

/// The commands that a list of instructions stands for are, from where
/// instruction `k` begins, as many copies of its command as its count says.
pub proof fn lemma_expand_at(ins: Seq<Instruction>, k: int, i: int)
    requires
        0 <= k < ins.len(),
        0 <= i < ins[k].count(),
    ensures
        expand(ins).len() == start(ins, ins.len() as int),
        0 <= start(ins, k) + i < expand(ins).len(),
        expand(ins)[start(ins, k) + i] == ins[k].opcode(),
    decreases ins.len(),
{
    let front = ins.drop_last();
    let n = ins.len() as int;
    lemma_expand_len(ins);
    lemma_start_monotone(ins, k, n - 1);
    lemma_start_monotone(ins, 0, k);
    if k < n - 1 {
        lemma_expand_at(front, k, i);
        lemma_start_prefix(ins, front, k);
        lemma_start_prefix(ins, front, k + 1);
        lemma_start_prefix(ins, front, n - 1);
        lemma_start_monotone(front, k + 1, n - 1);
        assert(expand(ins)[start(ins, k) + i] == expand(front)[start(front, k) + i]);
    } else {
        lemma_expand_len(front);
        lemma_start_prefix(ins, front, n - 1);
    }
}

/// A list of instructions stands for as many commands as the counts add
/// up to.
pub proof fn lemma_expand_len(ins: Seq<Instruction>)
    ensures
        expand(ins).len() == start(ins, ins.len() as int),
    decreases ins.len(),
{
    if ins.len() > 0 {
        let front = ins.drop_last();
        lemma_expand_len(front);
        lemma_start_prefix(ins, front, ins.len() - 1);
    }
}

/// The nesting level among the commands follows the nesting level among
/// the instructions: in front of the commands of instruction `k` it is the
/// level in front of the instruction, and behind any of them the level
/// behind the instruction.
pub proof fn lemma_depth_at(ins: Seq<Instruction>, k: int, m: int)
    requires
        0 <= k < ins.len(),
        start(ins, k) <= m <= start(ins, k + 1),
    ensures
        depth(deltas(expand(ins)), m) == if m == start(ins, k) {
            depth(ideltas(ins), k)
        } else {
            depth(ideltas(ins), k + 1)
        },
    decreases k, m - start(ins, k),
{
    let d = deltas(expand(ins));
    let di = ideltas(ins);
    lemma_start_monotone(ins, 0, k);
    assert(depth(di, k + 1) == depth(di, k) + di[k]);
    if m == start(ins, k) {
        if k > 0 {
            lemma_depth_at(ins, k - 1, m);
            if m == start(ins, k - 1) {
                // The instruction in front stands for no command at all.
                assert(ins[k - 1].count() == 0);
                assert(!ins[k - 1].is_jump());
                assert(depth(di, k) == depth(di, k - 1) + di[k - 1]);
            }
        }
    } else {
        lemma_depth_at(ins, k, m - 1);
        lemma_expand_at(ins, k, m - 1 - start(ins, k));
        assert(depth(d, m) == depth(d, m - 1) + d[m - 1]);
        assert(d[m - 1] == bracket_delta(ins[k].opcode()));
    }
}

/// Every command belongs to an instruction.
pub proof fn lemma_locate(ins: Seq<Instruction>, m: int) -> (k: int)
    requires
        0 < m <= start(ins, ins.len() as int),
    ensures
        0 <= k < ins.len(),
        start(ins, k) < m <= start(ins, k + 1),
    decreases ins.len(),
{
    let n = ins.len() as int;
    if n == 0 {
        0
    } else if m > start(ins, n - 1) {
        n - 1
    } else {
        let front = ins.drop_last();
        lemma_start_prefix(ins, front, n - 1);
        let k = lemma_locate(front, m);
        lemma_start_prefix(ins, front, k);
        lemma_start_prefix(ins, front, k + 1);
        k
    }
}

/// Two jumps that are a pair stand for two brackets that are one.
pub proof fn lemma_pair_at(ins: Seq<Instruction>, i: int, j: int)
    requires
        is_pair(ideltas(ins), i, j),
    ensures
        is_pair(deltas(expand(ins)), start(ins, i), start(ins, j)),
        partner(deltas(expand(ins)), start(ins, i)) == start(ins, j),
        partner(deltas(expand(ins)), start(ins, j)) == start(ins, i),
{
    let d = deltas(expand(ins));
    let di = ideltas(ins);
    let a = start(ins, i);
    let b = start(ins, j);
    assert(ins[i].count() == 1 && ins[j].count() == 1);
    lemma_expand_at(ins, i, 0);
    lemma_expand_at(ins, j, 0);
    lemma_start_monotone(ins, i + 1, j);
    lemma_depth_at(ins, i, a);
    lemma_depth_at(ins, j, b + 1);
    assert forall|m: int| a < m <= b implies #[trigger] depth(d, m) > depth(d, a) by {
        lemma_start_monotone(ins, j, ins.len() as int);
        let k = lemma_locate(ins, m);
        lemma_depth_at(ins, k, m);
        if k < i {
            lemma_start_monotone(ins, k + 1, i);
        }
        if k >= j {
            lemma_start_monotone(ins, j, k);
            lemma_depth_at(ins, j, m);
        }
        if m == start(ins, k) {
        } else {
            assert(depth(di, k + 1) > depth(di, i));
        }
    }
    lemma_partner(d, a, b);
}

/// A budget can be spent in two parts: what the first part leaves
/// running, the second part goes on with.
pub proof fn lemma_run_split(ops: Seq<OpCode>, s: State, a: nat, b: nat)
    ensures
        run_ops(ops, s, a + b) == if run_ops(ops, s, a).1 is Paused {
            run_ops(ops, run_ops(ops, s, a).0, b)
        } else {
            run_ops(ops, s, a)
        },
    decreases a,
{
    if s.pc < ops.len() && a > 0 {
        match step_op(ops, s) {
            Step::Next(t) => {
                lemma_run_split(ops, t, (a - 1) as nat, b);
            },
            Step::Fault(f) => {},
        }
    }
}

/// What `count` copies of a command that is no bracket do to a state, the
/// program counter aside.
pub open spec fn effect(op: OpCode, count: nat, s: State) -> Step {
    match op {
        OpCode::IncPtr => s.move_ptr(count as int),
        OpCode::DecPtr => s.move_ptr(-(count as int)),
        OpCode::IncData => Step::Next(s.inc_data(count)),
        OpCode::DecData => Step::Next(s.dec_data(count)),
        OpCode::Read => s.read(count),
        OpCode::Write => Step::Next(s.write(count)),
        _ => Step::Next(s),
    }
}

/// One copy of a command and then `count - 1` more do what `count` copies
/// do.
pub proof fn lemma_effect_step(op: OpCode, count: nat, s: State)
    requires
        s.wf(),
        count >= 1,
        bracket_delta(op) == 0,
    ensures
        match effect(op, 1, s) {
            Step::Next(t) => t.wf() && effect(op, (count - 1) as nat, t) == effect(op, count, s),
            Step::Fault(f) => effect(op, count, s) == Step::Fault(f),
        },
{
    match effect(op, 1, s) {
        Step::Next(t) => {
            let rest = (count - 1) as nat;
            match op {
                OpCode::IncData => {
                    assert(t.inc_data(rest).tape =~= s.inc_data(count).tape);
                },
                OpCode::DecData => {
                    assert(t.dec_data(rest).tape =~= s.dec_data(count).tape);
                },
                OpCode::Read => {
                    if rest > 0 && t.input.len() >= rest {
                        let u = t.read(rest)->Next_0;
                        let v = s.read(count)->Next_0;
                        assert(u.tape =~= v.tape);
                        assert(u.input =~= v.input);
                    }
                    if rest == 0 {
                        assert(t.input =~= s.input.skip(1));
                    }
                },
                OpCode::Write => {
                    assert(t.write(rest).output =~= s.write(count).output);
                },
                _ => {},
            }
        },
        Step::Fault(f) => {},
    }
}

/// No copy of a command does nothing.
pub proof fn lemma_effect_none(op: OpCode, s: State)
    requires
        s.wf(),
    ensures
        effect(op, 0, s) == Step::Next(s),
{
    assert(s.inc_data(0).tape =~= s.tape);
    assert(s.dec_data(0).tape =~= s.tape);
    assert(s.write(0).output =~= s.output);
}

/// `count` commands of one kind in a row, carried out one by one, do what
/// one instruction with that count does: they lead to the same state, or
/// fail with the same fault and the same output.
pub proof fn lemma_run_same(ops: Seq<OpCode>, t: State, op: OpCode, count: nat)
    requires
        t.wf(),
        bracket_delta(op) == 0,
        t.pc + count <= ops.len(),
        forall|m: int| t.pc <= m < t.pc + count ==> #[trigger] ops[m] == op,
    ensures
        match effect(op, count, t) {
            Step::Next(u) => run_ops(ops, t, count) == run_ops(ops, u.at(t.pc + count), 0),
            Step::Fault(f) => run_ops(ops, t, count).1 == Status::Faulted(f) && run_ops(
                ops,
                t,
                count,
            ).0.output == t.output,
        },
    decreases count,
{
    if count == 0 {
        lemma_effect_none(op, t);
        assert(t.at(t.pc) == t);
    } else {
        assert(ops[t.pc] == op);
        lemma_effect_step(op, count, t);
        assert(step_op(ops, t) == effect(op, 1, t).at(t.pc + 1));
        match effect(op, 1, t) {
            Step::Next(t1) => {
                let t2 = t1.at(t.pc + 1);
                lemma_run_same(ops, t2, op, (count - 1) as nat);
                assert(effect(op, (count - 1) as nat, t2) == effect(
                    op,
                    (count - 1) as nat,
                    t1,
                ).at(t.pc + 1));
            },
            Step::Fault(f) => {},
        }
    }
}

/// Whether a list of instructions is the run-length form of the commands
/// `ops`.
pub open spec fn stands_for(ins: Seq<Instruction>, ops: Seq<OpCode>) -> bool {
    &&& expand(ins) == ops
    &&& maximal(ins)
    &&& resolves(ideltas(ins), destinations(ins))
}

/// The state of the simple form that belongs to a state of the run-length
/// form: the same, at the command where the instruction begins.
pub open spec fn image(ins: Seq<Instruction>, s: State) -> State {
    s.at(start(ins, s.pc))
}

/// One instruction does what the commands that it stands for do: as many
/// steps of the simple form as its count says lead to the image of its
/// state, or fail with its fault and the same output.
pub proof fn lemma_step_simulates(ins: Seq<Instruction>, ops: Seq<OpCode>, s: State)
    requires
        stands_for(ins, ops),
        s.wf(),
        0 <= s.pc < ins.len(),
    ensures
        match step_spec(ins, s) {
            Step::Next(s2) => s2.wf() && 0 <= s2.pc <= ins.len() && run_ops(
                ops,
                image(ins, s),
                ins[s.pc].count(),
            ) == run_ops(ops, image(ins, s2), 0),
            Step::Fault(f) => run_ops(ops, image(ins, s), ins[s.pc].count()).1
                == Status::Faulted(f) && run_ops(ops, image(ins, s), ins[s.pc].count()).0.output
                == s.output,
        },
{
    let pc = s.pc;
    let x = ins[pc];
    let t = image(ins, s);
    let count = x.count();
    let d = deltas(ops);
    let di = ideltas(ins);
    lemma_expand_len(ins);
    lemma_start_monotone(ins, 0, pc);
    lemma_start_monotone(ins, pc + 1, ins.len() as int);
    assert(start(ins, pc + 1) == start(ins, pc) + count);
    if x.is_jump() {
        lemma_expand_at(ins, pc, 0);
        let dest = x.destination();
        assert(destinations(ins)[pc] == dest);
        if di[pc] == 1 {
            assert(is_pair(di, pc, dest));
            lemma_pair_at(ins, pc, dest);
        } else {
            assert(di[pc] == -1);
            assert(is_pair(di, dest, pc));
            lemma_pair_at(ins, dest, pc);
        }
        assert(ins[dest].count() == 1);
        assert(start(ins, dest + 1) == start(ins, dest) + 1);
        let s2 = step_spec(ins, s)->Next_0;
        assert(step_op(ops, t) == Step::Next(image(ins, s2)));
        reveal_with_fuel(run_ops, 2);
    } else {
        assert forall|m: int| t.pc <= m < t.pc + count implies #[trigger] ops[m]
            == x.opcode() by {
            lemma_expand_at(ins, pc, m - t.pc);
        }
        lemma_run_same(ops, t, x.opcode(), count);
        assert(step_spec(ins, s) == effect(x.opcode(), count, s).at(pc + 1));
        assert(effect(x.opcode(), count, t) == effect(x.opcode(), count, s).at(t.pc));
    }
}

/// How many commands the simple form carries out while the run-length form
/// carries out `budget` instructions from `s`.
pub open spec fn cost(ins: Seq<Instruction>, s: State, budget: nat) -> nat
    decreases budget,
{
    if s.pc >= ins.len() || budget == 0 {
        0
    } else {
        match step_spec(ins, s) {
            Step::Next(t) => ins[s.pc].count() + cost(ins, t, (budget - 1) as nat),
            Step::Fault(f) => ins[s.pc].count(),
        }
    }
}

/// The run-length form does what the simple form does: a run of `budget`
/// instructions ends as the run of the commands that they stand for ends:
/// with the same status and the same output, and, unless it failed, in the
/// image of its state.
pub proof fn lemma_run_simulates(ins: Seq<Instruction>, ops: Seq<OpCode>, s: State, budget: nat)
    requires
        stands_for(ins, ops),
        s.wf(),
        0 <= s.pc <= ins.len(),
    ensures
        ({
            let (s2, status) = run_spec(ins, s, budget);
            let (t2, simple) = run_ops(ops, image(ins, s), cost(ins, s, budget));
            &&& simple == status
            &&& t2.output == s2.output
            &&& !(status is Faulted) ==> t2 == image(ins, s2)
        }),
    decreases budget,
{
    let t = image(ins, s);
    lemma_expand_len(ins);
    lemma_start_monotone(ins, s.pc, ins.len() as int);
    if s.pc >= ins.len() {
    } else {
        assert(ins[s.pc].count() >= 1);
        assert(start(ins, s.pc + 1) == start(ins, s.pc) + ins[s.pc].count());
        lemma_start_monotone(ins, s.pc + 1, ins.len() as int);
        if budget == 0 {
        } else {
            lemma_step_simulates(ins, ops, s);
            let count = ins[s.pc].count();
            match step_spec(ins, s) {
                Step::Next(s1) => {
                    let rest = cost(ins, s1, (budget - 1) as nat);
                    lemma_run_simulates(ins, ops, s1, (budget - 1) as nat);
                    lemma_run_split(ops, t, count, rest);
                    lemma_run_split(ops, image(ins, s1), 0, rest);
                },
                Step::Fault(f) => {},
            }
        }
    }
}

/// The simple form carries out one command at least for every instruction
/// of the run-length form: a program that one of them never ends, the other
/// never ends either.
pub proof fn lemma_cost_grows(ins: Seq<Instruction>, s: State, budget: nat)
    requires
        maximal(ins),
        0 <= s.pc,
        run_spec(ins, s, budget).1 is Paused,
    ensures
        cost(ins, s, budget) >= budget,
    decreases budget,
{
    if s.pc < ins.len() && budget > 0 {
        assert(ins[s.pc].count() >= 1);
        match step_spec(ins, s) {
            Step::Next(t) => {
                lemma_cost_grows(ins, t, (budget - 1) as nat);
            },
            Step::Fault(f) => {},
        }
    }
}

} // verus!
