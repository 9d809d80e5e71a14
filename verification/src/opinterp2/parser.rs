//! The run-length parser: one instruction for each maximal run of the same
//! command, and for each bracket the index of its partner, resolved while
//! the source is scanned.

use vstd::prelude::*;
use vstd::string::StringSliceAdditionalSpecFns;
use crate::brackets::{
    balanced, bracket_delta, deltas, depth, first_offender, is_pair, lemma_balanced_no_offender,
    lemma_depth_push, lemma_first_close_offends, lemma_outer_open_offends, lemma_pair_push,
    lemma_pair_unique, lemma_partner_of_open, nests, resolves, unit_steps, unmatched_at_pc,
};
use crate::error::{parse_error_at, unmatched_close_at_pc, unmatched_open_at_pc, BfResult};
use crate::source::{positions, tokenize, tokens, OpCode};

verus! {

#[derive(Debug, PartialEq, Eq, Clone, Copy, Structural)]
pub enum Instruction {
    IncPtr { count: usize },
    DecPtr { count: usize },
    IncData { count: usize },
    DecData { count: usize },
    Read { count: usize },
    Write { count: usize },
    JumpIfZero { destination: usize },
    JumpIfNotZero { destination: usize },
}

#[derive(Debug, PartialEq, Eq)]
pub struct Program {
    pub instructions: Vec<Instruction>,
}

impl Instruction {
    /// The command that the instruction repeats.
    pub open spec fn opcode(self) -> OpCode {
        match self {
            Instruction::IncPtr { .. } => OpCode::IncPtr,
            Instruction::DecPtr { .. } => OpCode::DecPtr,
            Instruction::IncData { .. } => OpCode::IncData,
            Instruction::DecData { .. } => OpCode::DecData,
            Instruction::Read { .. } => OpCode::Read,
            Instruction::Write { .. } => OpCode::Write,
            Instruction::JumpIfZero { .. } => OpCode::JumpIfZero,
            Instruction::JumpIfNotZero { .. } => OpCode::JumpIfNotZero,
        }
    }

    /// How many commands the instruction stands for: its count, and one for
    /// a bracket.
    pub open spec fn count(self) -> nat {
        match self {
            Instruction::IncPtr { count } => count as nat,
            Instruction::DecPtr { count } => count as nat,
            Instruction::IncData { count } => count as nat,
            Instruction::DecData { count } => count as nat,
            Instruction::Read { count } => count as nat,
            Instruction::Write { count } => count as nat,
            Instruction::JumpIfZero { .. } => 1,
            Instruction::JumpIfNotZero { .. } => 1,
        }
    }

    /// The destination of a bracket, and zero for any other instruction.
    pub open spec fn destination(self) -> int {
        match self {
            Instruction::JumpIfZero { destination } => destination as int,
            Instruction::JumpIfNotZero { destination } => destination as int,
            _ => 0,
        }
    }

    /// Whether the instruction is a bracket.
    pub open spec fn is_jump(self) -> bool {
        self is JumpIfZero || self is JumpIfNotZero
    }

    /// The commands that the instruction stands for.
    pub open spec fn unit(self) -> Seq<OpCode> {
        Seq::new(self.count(), |i: int| self.opcode())
    }

    /// Gives a bracket its destination.
    pub fn set_destination(&mut self, value: usize)
        requires
            old(self).is_jump(),
        ensures
            final(self).opcode() == old(self).opcode(),
            final(self).destination() == value,
            final(self).is_jump(),
    {
        match *self {
            Instruction::JumpIfZero { .. } => {
                *self = Instruction::JumpIfZero { destination: value };
            },
            _ => {
                *self = Instruction::JumpIfNotZero { destination: value };
            },
        }
    }
}

/// The commands that a list of instructions stands for.
pub open spec fn expand(ins: Seq<Instruction>) -> Seq<OpCode>
    decreases ins.len(),
{
    if ins.len() == 0 {
        Seq::empty()
    } else {
        expand(ins.drop_last()) + ins.last().unit()
    }
}

/// Every instruction stands for at least one command, and no instruction
/// repeats the command of the one before it: the runs are as long as they
/// can be.
pub open spec fn maximal(ins: Seq<Instruction>) -> bool {
    &&& forall|i: int| 0 <= i < ins.len() ==> (#[trigger] ins[i]).count() >= 1
    &&& forall|i: int, j: int|
        0 <= i && j == i + 1 && j < ins.len() && !(#[trigger] ins[j]).is_jump() ==> (
        #[trigger] ins[i]).opcode() != ins[j].opcode()
}

/// The nesting changes of a list of instructions.
pub open spec fn ideltas(ins: Seq<Instruction>) -> Seq<int> {
    ins.map_values(|i: Instruction| bracket_delta(i.opcode()))
}

/// The destinations of a list of instructions.
pub open spec fn destinations(ins: Seq<Instruction>) -> Seq<int> {
    ins.map_values(|i: Instruction| i.destination())
}

impl Program {
    /// The destination of every bracket is the index of its partner.
    pub open spec fn wf(&self) -> bool {
        resolves(ideltas(self.instructions@), destinations(self.instructions@))
    }
}

/// The bracket at `q` opens at level `t` and nothing closes it up to `n`.
spec fn open_at(di: Seq<int>, q: int, t: int, n: int) -> bool {
    &&& 0 <= q < n
    &&& di[q] == 1
    &&& depth(di, q) == t
    &&& forall|m: int| q < m <= n ==> #[trigger] depth(di, m) > t
}

/// The closing bracket at `j` and its destination point at each other, and
/// are a pair.
spec fn closed_at(ins: Seq<Instruction>, j: int) -> bool {
    let i = ins[j].destination();
    &&& is_pair(ideltas(ins), i, j)
    &&& ins[i].destination() == j
}

/// What holds of the instructions emitted so far and the stack of the
/// brackets that are still open.
#[verifier::opaque]
spec fn resolving(ins: Seq<Instruction>, stack: Seq<usize>) -> bool {
    let di = ideltas(ins);
    &&& stack.len() == depth(di, ins.len() as int)
    &&& forall|k: int| 0 <= k <= ins.len() ==> #[trigger] depth(di, k) >= 0
    &&& forall|t: int| 0 <= t < stack.len() ==> open_at(di, #[trigger] stack[t] as int, t, ins.len() as int)
    &&& forall|j: int| 0 <= j < ins.len() && di[j] == -1 ==> #[trigger] closed_at(ins, j)
}

proof fn lemma_resolving_run(ins: Seq<Instruction>, stack: Seq<usize>, x: Instruction)
    requires
        resolving(ins, stack),
        !x.is_jump(),
    ensures
        resolving(ins.push(x), stack),
{
    reveal(resolving);
    let di = ideltas(ins);
    let ins2 = ins.push(x);
    let di2 = ideltas(ins2);
    assert(di2 =~= di.push(0));
    lemma_depth_push(di, 0);
    assert forall|t: int| 0 <= t < stack.len() implies open_at(
        di2,
        #[trigger] stack[t] as int,
        t,
        ins2.len() as int,
    ) by {
        assert(open_at(di, stack[t] as int, t, ins.len() as int));
    }
    assert forall|j: int| 0 <= j < ins2.len() && di2[j] == -1 implies #[trigger] closed_at(
        ins2,
        j,
    ) by {
        assert(closed_at(ins, j));
        lemma_pair_push(di, 0, ins[j].destination(), j);
    }
}

proof fn lemma_resolving_open(ins: Seq<Instruction>, stack: Seq<usize>, x: Instruction)
    requires
        resolving(ins, stack),
        x is JumpIfZero,
        ins.len() <= usize::MAX,
    ensures
        resolving(ins.push(x), stack.push(ins.len() as usize)),
{
    reveal(resolving);
    let di = ideltas(ins);
    let ins2 = ins.push(x);
    let di2 = ideltas(ins2);
    let stack2 = stack.push(ins.len() as usize);
    assert(di2 =~= di.push(1));
    lemma_depth_push(di, 1);
    assert forall|t: int| 0 <= t < stack2.len() implies open_at(
        di2,
        #[trigger] stack2[t] as int,
        t,
        ins2.len() as int,
    ) by {
        if t < stack.len() {
            assert(open_at(di, stack[t] as int, t, ins.len() as int));
        }
    }
    assert forall|j: int| 0 <= j < ins2.len() && di2[j] == -1 implies #[trigger] closed_at(
        ins2,
        j,
    ) by {
        assert(closed_at(ins, j));
        lemma_pair_push(di, 1, ins[j].destination(), j);
    }
}

proof fn lemma_resolving_close(
    ins: Seq<Instruction>,
    stack: Seq<usize>,
    patched: Instruction,
    x: Instruction,
)
    requires
        resolving(ins, stack),
        stack.len() > 0,
        patched == (Instruction::JumpIfZero { destination: ins.len() as usize }),
        x == (Instruction::JumpIfNotZero { destination: stack.last() }),
        ins.len() <= usize::MAX,
    ensures
        resolving(ins.update(stack.last() as int, patched).push(x), stack.drop_last()),
{
    reveal(resolving);
    let di = ideltas(ins);
    let q = stack.last() as int;
    let top = stack.len() - 1;
    assert(open_at(di, stack[top] as int, top, ins.len() as int));
    let ins1 = ins.update(q, patched);
    assert(ideltas(ins1) =~= di);
    let ins2 = ins1.push(x);
    let di2 = ideltas(ins2);
    let n = ins.len() as int;
    assert(di2 =~= di.push(-1));
    lemma_depth_push(di, -1);
    let stack2 = stack.drop_last();
    assert forall|t: int| 0 <= t < stack2.len() implies open_at(
        di2,
        #[trigger] stack2[t] as int,
        t,
        ins2.len() as int,
    ) by {
        assert(open_at(di, stack[t] as int, t, n));
    }
    assert forall|j: int| 0 <= j < ins2.len() && di2[j] == -1 implies #[trigger] closed_at(
        ins2,
        j,
    ) by {
        if j < n {
            assert(closed_at(ins, j));
            let i = ins[j].destination();
            lemma_pair_push(di, -1, i, j);
            if i == q {
                assert(depth(di, j + 1) > top);
            }
        } else {
            assert(is_pair(di2, q, n));
        }
    }
}

proof fn lemma_resolving_done(ins: Seq<Instruction>, stack: Seq<usize>)
    requires
        resolving(ins, stack),
        stack.len() == 0,
    ensures
        resolves(ideltas(ins), destinations(ins)),
        balanced(ideltas(ins)),
{
    reveal(resolving);
    let di = ideltas(ins);
    let dest = destinations(ins);
    assert(unit_steps(di));
    assert forall|j: int| 0 <= j < di.len() && di[j] == -1 implies is_pair(
        di,
        #[trigger] dest[j],
        j,
    ) by {
        assert(closed_at(ins, j));
    }
    assert forall|i: int| 0 <= i < di.len() && di[i] == 1 implies is_pair(
        di,
        i,
        #[trigger] dest[i],
    ) by {
        let j = lemma_partner_of_open(di, i);
        assert(closed_at(ins, j));
        lemma_pair_unique(di, i, j, ins[j].destination(), j);
    }
}

/// Adding an instruction adds the commands that it stands for.
pub proof fn lemma_expand_push(ins: Seq<Instruction>, x: Instruction)
    ensures
        expand(ins.push(x)) == expand(ins) + x.unit(),
{
    assert(ins.push(x).drop_last() =~= ins);
}

/// Changing the destination of a bracket changes no command.
pub proof fn lemma_expand_update(ins: Seq<Instruction>, q: int, y: Instruction)
    requires
        0 <= q < ins.len(),
        y.opcode() == ins[q].opcode(),
        y.count() == ins[q].count(),
    ensures
        expand(ins.update(q, y)) == expand(ins),
    decreases ins.len(),
{
    let upd = ins.update(q, y);
    if q == ins.len() - 1 {
        assert(upd.drop_last() =~= ins.drop_last());
        assert(y.unit() =~= ins[q].unit());
    } else {
        lemma_expand_update(ins.drop_last(), q, y);
        assert(upd.drop_last() =~= ins.drop_last().update(q, y));
    }
}

/// The commands of a list of instructions end with the command of the last
/// instruction, where that one stands for a command at all.
pub proof fn lemma_expand_last(ins: Seq<Instruction>)
    requires
        ins.len() > 0,
        ins.last().count() >= 1,
    ensures
        expand(ins).len() >= ins.last().count(),
        expand(ins).last() == ins.last().opcode(),
        expand(ins).take(expand(ins).len() - ins.last().count()) == expand(ins.drop_last()),
{
    let front = expand(ins.drop_last());
    let unit = ins.last().unit();
    assert(expand(ins) == front + unit);
    assert(expand(ins).take(expand(ins).len() - ins.last().count()) =~= front);
}

/// A list of instructions that stands for no command is empty, where every
/// instruction stands for one at least.
pub proof fn lemma_expand_empty(ins: Seq<Instruction>)
    requires
        maximal(ins),
        expand(ins).len() == 0,
    ensures
        ins.len() == 0,
{
    if ins.len() > 0 {
        lemma_expand_last(ins);
    }
}

/// The front of a maximal list is maximal.
pub proof fn lemma_maximal_front(ins: Seq<Instruction>)
    requires
        maximal(ins),
        ins.len() > 0,
    ensures
        maximal(ins.drop_last()),
{
    let front = ins.drop_last();
    assert forall|i: int| 0 <= i < front.len() implies (#[trigger] front[i]).count() >= 1 by {
        assert(front[i] == ins[i]);
    }
    assert forall|i: int, j: int|
        0 <= i && j == i + 1 && j < front.len() && !(#[trigger] front[j]).is_jump() implies (
    #[trigger] front[i]).opcode() != front[j].opcode() by {
        assert(front[i] == ins[i]);
        assert(front[j] == ins[j]);
    }
}

/// The run-length form is unique: two maximal lists that stand for the same
/// commands have the same instructions, destinations aside.
pub proof fn lemma_maximal_unique(a: Seq<Instruction>, b: Seq<Instruction>)
    requires
        maximal(a),
        maximal(b),
        expand(a) == expand(b),
    ensures
        a.len() == b.len(),
        forall|i: int|
            0 <= i < a.len() ==> (#[trigger] a[i]).opcode() == b[i].opcode() && a[i].count()
                == b[i].count(),
    decreases a.len(),
{
    if a.len() == 0 {
        lemma_expand_empty(b);
    } else {
        lemma_expand_last(a);
        if b.len() == 0 {
            assert(expand(b).len() == 0);
        }
        lemma_expand_last(b);
        let la = a.last();
        let lb = b.last();
        let all = expand(a);
        let n = all.len();
        assert(la.opcode() == lb.opcode());
        let fa = expand(a.drop_last());
        let fb = expand(b.drop_last());
        if la.count() < lb.count() {
            // The commands in front of the last instruction of `a` end with
            // its own command: the run of `a` could have been longer.
            let k = n - la.count();
            assert(fa == all.take(k));
            assert(all == fb + lb.unit());
            assert(fa.len() > 0);
            assert(fa.last() == all[k - 1]);
            assert(all[k - 1] == lb.unit()[k - 1 - fb.len()]);
            lemma_maximal_front(a);
            if a.drop_last().len() == 0 {
                assert(fa.len() == 0);
            }
            lemma_expand_last(a.drop_last());
            assert(a[a.len() - 2].opcode() == la.opcode());
            assert(!la.is_jump());
            assert(false);
        }
        if lb.count() < la.count() {
            let k = n - lb.count();
            assert(fb == all.take(k));
            assert(all == fa + la.unit());
            assert(fb.len() > 0);
            assert(fb.last() == all[k - 1]);
            assert(all[k - 1] == la.unit()[k - 1 - fa.len()]);
            lemma_maximal_front(b);
            if b.drop_last().len() == 0 {
                assert(fb.len() == 0);
            }
            lemma_expand_last(b.drop_last());
            assert(b[b.len() - 2].opcode() == lb.opcode());
            assert(!lb.is_jump());
            assert(false);
        }
        lemma_maximal_front(a);
        lemma_maximal_front(b);
        lemma_maximal_unique(a.drop_last(), b.drop_last());
        assert forall|i: int| 0 <= i < a.len() implies (#[trigger] a[i]).opcode() == b[i].opcode()
            && a[i].count() == b[i].count() by {
            if i < a.len() - 1 {
                assert(a.drop_last()[i] == a[i]);
                assert(b.drop_last()[i] == b[i]);
            }
        }
    }
}

/// The instructions `ins` stand for the first `pc` commands, in runs that
/// are as long as they can be.
#[verifier::opaque]
spec fn shaped(ops: Seq<OpCode>, ins: Seq<Instruction>, pc: int) -> bool {
    &&& 0 <= pc <= ops.len()
    &&& ins.len() <= pc
    &&& expand(ins) == ops.take(pc)
    &&& maximal(ins)
    &&& ins.len() > 0 ==> pc > 0 && ins.last().opcode() == ops[pc - 1]
    &&& ins.len() > 0 && pc < ops.len() && !ins.last().is_jump() ==> ops[pc] != ins.last().opcode()
}

/// In front of command `pc`, `open` brackets are open, none was closed that
/// had not been opened, and `outer` opened the outermost of those still
/// open.
#[verifier::opaque]
spec fn levelled(d: Seq<int>, open: nat, pc: int, outer: int) -> bool {
    &&& 0 <= pc <= d.len()
    &&& open == depth(d, pc)
    &&& forall|k: int| 0 <= k <= pc ==> #[trigger] depth(d, k) >= 0
    &&& open > 0 ==> 0 <= outer < pc && d[outer] == 1 && depth(d, outer) == 0 && forall|m: int|
        outer < m <= pc ==> #[trigger] depth(d, m) > 0
}

/// What holds when the first `pc` commands have been turned into the
/// instructions `ins`, with `stack` the brackets still open and `outer` the
/// command that opened the outermost of them.
spec fn scanned(
    ops: Seq<OpCode>,
    ins: Seq<Instruction>,
    stack: Seq<usize>,
    pc: int,
    outer: int,
) -> bool {
    &&& shaped(ops, ins, pc)
    &&& resolving(ins, stack)
    &&& levelled(deltas(ops), stack.len(), pc, outer)
}

proof fn lemma_scanned_start(ops: Seq<OpCode>)
    ensures
        scanned(ops, Seq::empty(), Seq::empty(), 0, 0),
{
    reveal(shaped);
    reveal(resolving);
    reveal(levelled);
    assert(ops.take(0) =~= expand(Seq::<Instruction>::empty()));
}

proof fn lemma_shaped_bracket(ops: Seq<OpCode>, ins: Seq<Instruction>, pc: int, x: Instruction)
    requires
        shaped(ops, ins, pc),
        0 <= pc < ops.len(),
        x.is_jump(),
        x.opcode() == ops[pc],
    ensures
        shaped(ops, ins.push(x), pc + 1),
{
    reveal(shaped);
    lemma_expand_push(ins, x);
    assert(x.unit() =~= seq![ops[pc]]);
    assert(ops.take(pc + 1) =~= ops.take(pc) + seq![ops[pc]]);
    let ins2 = ins.push(x);
    assert forall|i: int, j: int|
        0 <= i && j == i + 1 && j < ins2.len() && !(#[trigger] ins2[j]).is_jump() implies (
    #[trigger] ins2[i]).opcode() != ins2[j].opcode() by {
        assert(ins[j] == ins2[j]);
    }
}

proof fn lemma_shaped_patch(
    ops: Seq<OpCode>,
    ins: Seq<Instruction>,
    pc: int,
    q: int,
    patched: Instruction,
)
    requires
        shaped(ops, ins, pc),
        0 <= q < ins.len(),
        patched.opcode() == ins[q].opcode(),
        patched.count() == ins[q].count(),
        patched.is_jump() == ins[q].is_jump(),
    ensures
        shaped(ops, ins.update(q, patched), pc),
{
    reveal(shaped);
    lemma_expand_update(ins, q, patched);
    let ins2 = ins.update(q, patched);
    assert forall|i: int, j: int|
        0 <= i && j == i + 1 && j < ins2.len() && !(#[trigger] ins2[j]).is_jump() implies (
    #[trigger] ins2[i]).opcode() != ins2[j].opcode() by {
        assert(ins2[j].opcode() == ins[j].opcode());
        assert(ins2[i].opcode() == ins[i].opcode());
        assert(!ins[j].is_jump());
    }
    assert forall|i: int| 0 <= i < ins2.len() implies (#[trigger] ins2[i]).count() >= 1 by {
        assert(ins2[i].count() == ins[i].count());
    }
}

proof fn lemma_shaped_run(
    ops: Seq<OpCode>,
    ins: Seq<Instruction>,
    start: int,
    pc: int,
    x: Instruction,
)
    requires
        shaped(ops, ins, start),
        0 <= start < pc <= ops.len(),
        !x.is_jump(),
        x.count() == pc - start,
        forall|m: int| start <= m < pc ==> ops[m] == x.opcode(),
        pc < ops.len() ==> ops[pc] != x.opcode(),
    ensures
        shaped(ops, ins.push(x), pc),
{
    reveal(shaped);
    lemma_expand_push(ins, x);
    assert(ops.take(pc) =~= ops.take(start) + x.unit());
    let ins2 = ins.push(x);
    assert(ops[start] == x.opcode());
    assert(ops[pc - 1] == x.opcode());
    assert forall|i: int, j: int|
        0 <= i && j == i + 1 && j < ins2.len() && !(#[trigger] ins2[j]).is_jump() implies (
    #[trigger] ins2[i]).opcode() != ins2[j].opcode() by {
        if j < ins.len() {
            assert(ins[j] == ins2[j]);
        }
    }
}

proof fn lemma_shaped_end(ops: Seq<OpCode>, ins: Seq<Instruction>)
    requires
        shaped(ops, ins, ops.len() as int),
    ensures
        expand(ins) == ops,
        maximal(ins),
{
    reveal(shaped);
    assert(ops.take(ops.len() as int) =~= ops);
}

proof fn lemma_levelled_step(d: Seq<int>, open: nat, pc: int, outer: int) -> (outer2: int)
    requires
        levelled(d, open, pc, outer),
        0 <= pc < d.len(),
        open + d[pc] >= 0,
        -1 <= d[pc] <= 1,
    ensures
        levelled(d, (open + d[pc]) as nat, pc + 1, outer2),
        outer2 == if open == 0 {
            pc
        } else {
            outer
        },
{
    reveal(levelled);
    let outer2 = if open == 0 {
        pc
    } else {
        outer
    };
    assert(depth(d, pc + 1) == depth(d, pc) + d[pc]);
    outer2
}

proof fn lemma_depth_flat(d: Seq<int>, a: int, b: int)
    requires
        0 <= a <= b <= d.len(),
        forall|m: int| a <= m < b ==> d[m] == 0,
    ensures
        forall|k: int| a <= k <= b ==> #[trigger] depth(d, k) == depth(d, a),
    decreases b - a,
{
    if a < b {
        lemma_depth_flat(d, a, b - 1);
        assert(depth(d, b) == depth(d, b - 1) + d[b - 1]);
    }
}

proof fn lemma_levelled_run(d: Seq<int>, open: nat, start: int, pc: int, outer: int)
    requires
        levelled(d, open, start, outer),
        0 <= start <= pc <= d.len(),
        forall|m: int| start <= m < pc ==> d[m] == 0,
    ensures
        levelled(d, open, pc, outer),
{
    reveal(levelled);
    lemma_depth_flat(d, start, pc);
    assert forall|k: int| 0 <= k <= pc implies #[trigger] depth(d, k) >= 0 by {
        if k > start {
            assert(depth(d, k) == depth(d, start));
        }
    }
    if open > 0 {
        assert forall|m: int| outer < m <= pc implies #[trigger] depth(d, m) > 0 by {
            if m > start {
                assert(depth(d, m) == depth(d, start));
            }
        }
    }
}

proof fn lemma_levelled_stray_close(d: Seq<int>, pc: int, outer: int)
    requires
        levelled(d, 0, pc, outer),
        0 <= pc < d.len(),
        d[pc] == -1,
    ensures
        first_offender(d, pc),
        !balanced(d),
{
    reveal(levelled);
    lemma_first_close_offends(d, pc);
    if balanced(d) {
        lemma_balanced_no_offender(d);
    }
}

proof fn lemma_levelled_end(d: Seq<int>, open: nat, outer: int)
    requires
        levelled(d, open, d.len() as int, outer),
    ensures
        open > 0 ==> first_offender(d, outer) && d[outer] == 1 && !balanced(d),
        open == 0 ==> balanced(d),
{
    reveal(levelled);
    assert(nests(d));
    if open > 0 {
        lemma_outer_open_offends(d, outer);
        if balanced(d) {
            lemma_balanced_no_offender(d);
        }
    }
}

proof fn lemma_scanned_open(
    ops: Seq<OpCode>,
    ins: Seq<Instruction>,
    stack: Seq<usize>,
    pc: int,
    outer: int,
    x: Instruction,
) -> (outer2: int)
    requires
        scanned(ops, ins, stack, pc, outer),
        0 <= pc < ops.len(),
        ops[pc] == OpCode::JumpIfZero,
        x is JumpIfZero,
        ins.len() <= usize::MAX,
    ensures
        scanned(ops, ins.push(x), stack.push(ins.len() as usize), pc + 1, outer2),
        outer2 == if stack.len() == 0 {
            pc
        } else {
            outer
        },
{
    lemma_shaped_bracket(ops, ins, pc, x);
    lemma_resolving_open(ins, stack, x);
    lemma_levelled_step(deltas(ops), stack.len(), pc, outer)
}

proof fn lemma_scanned_top(ins: Seq<Instruction>, stack: Seq<usize>)
    requires
        resolving(ins, stack),
        stack.len() > 0,
    ensures
        stack.last() < ins.len(),
        ins[stack.last() as int] is JumpIfZero,
{
    reveal(resolving);
    let top = stack.len() - 1;
    assert(open_at(ideltas(ins), stack[top] as int, top, ins.len() as int));
}

proof fn lemma_scanned_close(
    ops: Seq<OpCode>,
    ins: Seq<Instruction>,
    stack: Seq<usize>,
    pc: int,
    outer: int,
    patched: Instruction,
    x: Instruction,
)
    requires
        scanned(ops, ins, stack, pc, outer),
        0 <= pc < ops.len(),
        ops[pc] == OpCode::JumpIfNotZero,
        stack.len() > 0,
        patched == (Instruction::JumpIfZero { destination: ins.len() as usize }),
        x == (Instruction::JumpIfNotZero { destination: stack.last() }),
        ins.len() <= usize::MAX,
    ensures
        scanned(
            ops,
            ins.update(stack.last() as int, patched).push(x),
            stack.drop_last(),
            pc + 1,
            outer,
        ),
{
    let q = stack.last() as int;
    lemma_scanned_top(ins, stack);
    lemma_shaped_patch(ops, ins, pc, q, patched);
    lemma_shaped_bracket(ops, ins.update(q, patched), pc, x);
    lemma_resolving_close(ins, stack, patched, x);
    let outer2 = lemma_levelled_step(deltas(ops), stack.len(), pc, outer);
}

proof fn lemma_scanned_run(
    ops: Seq<OpCode>,
    ins: Seq<Instruction>,
    stack: Seq<usize>,
    start: int,
    pc: int,
    outer: int,
    x: Instruction,
)
    requires
        scanned(ops, ins, stack, start, outer),
        0 <= start < pc <= ops.len(),
        !x.is_jump(),
        x.count() == pc - start,
        forall|m: int| start <= m < pc ==> ops[m] == x.opcode(),
        pc < ops.len() ==> ops[pc] != x.opcode(),
    ensures
        scanned(ops, ins.push(x), stack, pc, outer),
{
    let d = deltas(ops);
    assert forall|m: int| start <= m < pc implies d[m] == 0 by {
        assert(ops[m] == x.opcode());
    }
    lemma_shaped_run(ops, ins, start, pc, x);
    lemma_resolving_run(ins, stack, x);
    lemma_levelled_run(d, stack.len(), start, pc, outer);
}

proof fn lemma_scanned_stray_close(
    ops: Seq<OpCode>,
    ins: Seq<Instruction>,
    stack: Seq<usize>,
    pc: int,
    outer: int,
)
    requires
        scanned(ops, ins, stack, pc, outer),
        0 <= pc < ops.len(),
        ops[pc] == OpCode::JumpIfNotZero,
        stack.len() == 0,
    ensures
        first_offender(deltas(ops), pc),
        deltas(ops)[pc] == -1,
        !balanced(deltas(ops)),
{
    lemma_levelled_stray_close(deltas(ops), pc, outer);
}

proof fn lemma_scanned_end(
    ops: Seq<OpCode>,
    ins: Seq<Instruction>,
    stack: Seq<usize>,
    outer: int,
)
    requires
        scanned(ops, ins, stack, ops.len() as int, outer),
    ensures
        stack.len() > 0 ==> first_offender(deltas(ops), outer) && deltas(ops)[outer] == 1
            && !balanced(deltas(ops)),
        stack.len() == 0 ==> balanced(deltas(ops)) && expand(ins) == ops && maximal(ins)
            && resolves(ideltas(ins), destinations(ins)),
{
    lemma_levelled_end(deltas(ops), stack.len(), outer);
    if stack.len() == 0 {
        lemma_shaped_end(ops, ins);
        lemma_resolving_done(ins, stack);
    }
}

/// Parses a source into its run-length form. Fails with `Parse` where a
/// bracket has no partner, naming the first such bracket by its source
/// index: `unmatched ']' at pc=N` for a closing bracket that closes nothing,
/// and `unmatched '[' at pc=N` for the outermost loop that the source ends
/// in.
pub fn parse(source_code: &str) -> (r: BfResult<Program>)
    ensures
        r is Ok <==> balanced(deltas(tokens(source_code.spec_bytes()))),
        r matches Ok(program) ==> {
            &&& expand(program.instructions@) == tokens(source_code.spec_bytes())
            &&& maximal(program.instructions@)
            &&& program.wf()
        },
        r matches Err(e) ==> exists|k: int|
            first_offender(deltas(tokens(source_code.spec_bytes())), k) && e.is_parse(
                unmatched_at_pc(source_code.spec_bytes(), k),
            ),
{
    let scan = tokenize(source_code);
    let ghost src = source_code.spec_bytes();
    let ghost ops = tokens(src);
    let len = scan.opcodes.len();
    let mut instructions: Vec<Instruction> = Vec::new();
    let mut pc: usize = 0;
    let mut open_bracket_stack: Vec<usize> = Vec::new();
    // The command that opened the outermost of the loops that are open.
    let mut outermost: usize = 0;
    let ghost mut outer: int = 0;
    proof {
        lemma_scanned_start(ops);
    }
    while pc < len
        invariant
            src == source_code.spec_bytes(),
            ops == tokens(src),
            scan.opcodes@ == ops,
            scan.positions@.len() == ops.len(),
            forall|k: int|
                0 <= k < scan.positions@.len() ==> scan.positions@[k] as int
                    == #[trigger] positions(src)[k],
            len == ops.len(),
            0 <= pc <= len,
            instructions@.len() <= pc,
            scanned(ops, instructions@, open_bracket_stack@, pc as int, outer),
            open_bracket_stack@.len() > 0 ==> outer == outermost,
        decreases len - pc,
    {
        let ghost ins = instructions@;
        let ghost stack = open_bracket_stack@;
        match scan.opcodes[pc] {
            OpCode::JumpIfZero => {
                let x = Instruction::JumpIfZero { destination: 0 };
                if open_bracket_stack.len() == 0 {
                    outermost = pc;
                }
                proof {
                    outer = lemma_scanned_open(ops, ins, stack, pc as int, outer, x);
                }
                open_bracket_stack.push(instructions.len());
                instructions.push(x);
                pc += 1;
            },
            OpCode::JumpIfNotZero => {
                match open_bracket_stack.pop() {
                    Some(open_bracket_offset) => {
                        let n = instructions.len();
                        let x = Instruction::JumpIfNotZero { destination: open_bracket_offset };
                        proof {
                            lemma_scanned_top(ins, stack);
                        }
                        let mut opening = instructions[open_bracket_offset];
                        opening.set_destination(n);
                        instructions[open_bracket_offset] = opening;
                        instructions.push(x);
                        proof {
                            let patched = Instruction::JumpIfZero { destination: n };
                            assert(opening == patched);
                            lemma_scanned_close(ops, ins, stack, pc as int, outer, patched, x);
                            assert(open_bracket_stack@ =~= stack.drop_last());
                            assert(instructions@ =~= ins.update(
                                open_bracket_offset as int,
                                patched,
                            ).push(x));
                        }
                        pc += 1;
                    },
                    None => {
                        let e = parse_error_at("unmatched ']' at pc=", scan.positions[pc], "");
                        proof {
                            let n = scan.positions@[pc as int] as nat;
                            reveal_strlit("");
                            assert(unmatched_close_at_pc(n) + ""@ =~= unmatched_close_at_pc(n));
                            lemma_scanned_stray_close(ops, ins, stack, pc as int, outer);
                            assert(first_offender(deltas(ops), pc as int) && e.is_parse(
                                unmatched_at_pc(src, pc as int),
                            ));
                        }
                        return Err(e);
                    },
                }
            },
            opcode => {
                let start = pc;
                pc += 1;
                while pc < len && scan.opcodes[pc] == opcode
                    invariant
                        scan.opcodes@ == ops,
                        len == ops.len(),
                        start < pc <= len,
                        forall|m: int| start <= m < pc ==> ops[m] == opcode,
                    decreases len - pc,
                {
                    pc += 1;
                }
                let count = pc - start;
                let instruction = match opcode {
                    OpCode::IncPtr => Instruction::IncPtr { count },
                    OpCode::DecPtr => Instruction::DecPtr { count },
                    OpCode::IncData => Instruction::IncData { count },
                    OpCode::DecData => Instruction::DecData { count },
                    OpCode::Read => Instruction::Read { count },
                    _ => Instruction::Write { count },
                };
                proof {
                    assert(instruction.opcode() == opcode);
                    lemma_scanned_run(ops, ins, stack, start as int, pc as int, outer, instruction);
                }
                instructions.push(instruction);
            },
        }
    }
    proof {
        lemma_scanned_end(ops, instructions@, open_bracket_stack@, outer);
    }
    if open_bracket_stack.len() != 0 {
        let e = parse_error_at("unmatched '[' at pc=", scan.positions[outermost], "");
        proof {
            let n = scan.positions@[outer] as nat;
            reveal_strlit("");
            assert(unmatched_open_at_pc(n) + ""@ =~= unmatched_open_at_pc(n));
            assert(first_offender(deltas(ops), outer) && e.is_parse(unmatched_at_pc(src, outer)));
        }
        return Err(e);
    }
    Ok(Program { instructions })
}

} // verus!
