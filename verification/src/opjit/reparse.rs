//! Writing an instruction stream back as source, and why parsing what was
//! written gives the stream again.

use vstd::prelude::*;
use crate::brackets::{balanced, bracket_delta, deltas};
use crate::opjit::parser::{
    all_are, all_fit, all_plain, fits, flatten, flatten_tree, flatten_upto, instruction_of,
    is_ast_of, is_move_data, is_move_ptr, is_set_zero, lemma_ast_unique, lemma_flatten_balanced,
    lemma_flatten_push, lemma_optimize_loop, lemma_shapes_kept, lower, lower_upto, optimize,
    optimize_all, plain, ptr_op, run_len, Instruction, Program, Tree, MAX_COMMANDS,
};
use crate::source::{
    lemma_tokens_of_commands, spell, tokens, OpCode, DEC_DATA, DEC_PTR, INC_DATA, INC_PTR,
    JUMP_IF_NOT_ZERO, JUMP_IF_ZERO, READ, WRITE,
};

verus! {

/// The command of a tree that is one command.
pub open spec fn scalar_of(t: Tree) -> Option<OpCode> {
    match t {
        Tree::Scalar(op) => Some(op),
        _ => None,
    }
}

/// Whether a body has one of the three shapes that are rewritten.
pub open spec fn shaped(body: Seq<Tree>) -> bool {
    is_set_zero(body) || is_move_ptr(body, true) || is_move_ptr(body, false) || is_move_data(
        body,
        true,
    ) || is_move_data(body, false)
}

/// Two bodies with the same commands in the same places, whatever stands in
/// the other places, have the same shape or none.
pub proof fn lemma_shapes_same(a: Seq<Tree>, b: Seq<Tree>)
    requires
        a.len() == b.len(),
        forall|i: int| 0 <= i < a.len() ==> scalar_of(#[trigger] a[i]) == scalar_of(b[i]),
    ensures
        is_set_zero(a) == is_set_zero(b),
        is_move_ptr(a, true) == is_move_ptr(b, true),
        is_move_ptr(a, false) == is_move_ptr(b, false),
        is_move_data(a, true) == is_move_data(b, true),
        is_move_data(a, false) == is_move_data(b, false),
        shaped(a) == shaped(b),
{
    assert forall|op: OpCode| all_are(a, op) == all_are(b, op) by {
        if all_are(a, op) {
            assert forall|i: int| 0 <= i < b.len() implies #[trigger] b[i] == Tree::Scalar(op) by {
                assert(a[i] == Tree::Scalar(op));
                assert(scalar_of(a[i]) == scalar_of(b[i]));
            }
        }
        if all_are(b, op) {
            assert forall|i: int| 0 <= i < a.len() implies #[trigger] a[i] == Tree::Scalar(op) by {
                assert(b[i] == Tree::Scalar(op));
                assert(scalar_of(a[i]) == scalar_of(b[i]));
            }
        }
    }
    assert forall|forward: bool| is_move_data(a, forward) == is_move_data(b, forward) by {
        let k = (a.len() - 2) / 2;
        if 1 <= k && a.len() == 2 * k + 2 {
            assert(scalar_of(a[0]) == scalar_of(b[0]));
            assert(scalar_of(a[k + 1]) == scalar_of(b[k + 1]));
            if is_move_data(a, forward) {
                assert forall|i: int| 1 <= i <= k implies #[trigger] b[i] == Tree::Scalar(
                    ptr_op(forward),
                ) by {
                    assert(a[i] == Tree::Scalar(ptr_op(forward)));
                    assert(scalar_of(a[i]) == scalar_of(b[i]));
                }
                assert forall|i: int| k + 2 <= i < 2 * k + 2 implies #[trigger] b[i]
                    == Tree::Scalar(ptr_op(!forward)) by {
                    assert(a[i] == Tree::Scalar(ptr_op(!forward)));
                    assert(scalar_of(a[i]) == scalar_of(b[i]));
                }
            }
            if is_move_data(b, forward) {
                assert forall|i: int| 1 <= i <= k implies #[trigger] a[i] == Tree::Scalar(
                    ptr_op(forward),
                ) by {
                    assert(b[i] == Tree::Scalar(ptr_op(forward)));
                    assert(scalar_of(a[i]) == scalar_of(b[i]));
                }
                assert forall|i: int| k + 2 <= i < 2 * k + 2 implies #[trigger] a[i]
                    == Tree::Scalar(ptr_op(!forward)) by {
                    assert(b[i] == Tree::Scalar(ptr_op(!forward)));
                    assert(scalar_of(a[i]) == scalar_of(b[i]));
                }
            }
        }
    }
}

/// No two nodes that clear the cell stand side by side.
pub open spec fn no_twins(ts: Seq<Tree>) -> bool {
    forall|i: int, j: int|
        0 <= i && j == i + 1 && j < ts.len() && #[trigger] ts[i] == Tree::SetDataToZero ==> (
        #[trigger] ts[j]) != Tree::SetDataToZero
}

/// Whether a tree is as the rewrite leaves trees, with no two nodes that
/// clear the cell side by side: its commands are no brackets, its loops have
/// none of the three shapes, and its amounts are at least one and fit their
/// 32 bits.
pub open spec fn strict(t: Tree) -> bool
    decreases t,
{
    match t {
        Tree::Scalar(op) => bracket_delta(op) == 0,
        Tree::Loop(body) => {
            &&& !shaped(body)
            &&& body.len() <= MAX_COMMANDS
            &&& no_twins(body)
            &&& forall|i: int| 0 <= i < body.len() ==> strict(#[trigger] body[i])
        },
        Tree::SetDataToZero => true,
        Tree::MovePtrUntilZero { amount, .. } => 1 <= amount <= MAX_COMMANDS,
        Tree::MoveData { amount, .. } => 1 <= amount <= MAX_COMMANDS,
    }
}

/// Whether a sequence of trees is as the rewrite leaves them, with no two
/// nodes that clear the cell side by side.
pub open spec fn all_strict(ts: Seq<Tree>) -> bool {
    &&& ts.len() <= MAX_COMMANDS
    &&& no_twins(ts)
    &&& forall|i: int| 0 <= i < ts.len() ==> strict(#[trigger] ts[i])
}

/// The body of the loop that a node of the rewrite is written back as:
/// `-` for a node that clears the cell, the steps of a scan, and the
/// commands that move the cell.
pub open spec fn body_of(t: Tree) -> Seq<Tree> {
    match t {
        Tree::MovePtrUntilZero { forward, amount } => Seq::new(
            amount,
            |i: int| Tree::Scalar(ptr_op(forward)),
        ),
        Tree::MoveData { forward, amount } => Seq::new(
            2 * amount + 2,
            |i: int|
                if i == 0 {
                    Tree::Scalar(OpCode::DecData)
                } else if i <= amount {
                    Tree::Scalar(ptr_op(forward))
                } else if i == amount + 1 {
                    Tree::Scalar(OpCode::IncData)
                } else {
                    Tree::Scalar(ptr_op(!forward))
                },
        ),
        _ => seq![Tree::Scalar(OpCode::DecData)],
    }
}

/// The plain tree that a tree is written back as.
pub open spec fn plain_of(t: Tree) -> Tree
    decreases t,
{
    match t {
        Tree::Scalar(op) => t,
        Tree::Loop(body) => Tree::Loop(
            Seq::new(
                body.len(),
                |i: int|
                    if 0 <= i < body.len() {
                        plain_of(body[i])
                    } else {
                        // No index out of range is ever asked for.
                        t
                    },
            ),
        ),
        _ => Tree::Loop(body_of(t)),
    }
}

/// The plain trees that a sequence of trees is written back as.
pub open spec fn plain_all(ts: Seq<Tree>) -> Seq<Tree> {
    Seq::new(ts.len(), |i: int| plain_of(ts[i]))
}

/// A loop is written back as the loop around what its body is written back
/// as.
pub proof fn lemma_plain_of_loop(body: Seq<Tree>)
    ensures
        plain_of(Tree::Loop(body)) == Tree::Loop(plain_all(body)),
{
    assert(plain_of(Tree::Loop(body))->Loop_0 =~= plain_all(body));
}

/// What a tree is written back as is plain, and the rewrite makes the tree
/// of it again.
pub proof fn lemma_plain_of(t: Tree)
    requires
        strict(t),
    ensures
        plain(plain_of(t)),
        optimize(plain_of(t)) == t,
        scalar_of(plain_of(t)) == scalar_of(t),
    decreases t,
{
    match t {
        Tree::Scalar(op) => {},
        Tree::Loop(body) => {
            let written = plain_all(body);
            lemma_plain_of_loop(body);
            assert forall|i: int| 0 <= i < body.len() implies plain(#[trigger] written[i])
                && optimize(written[i]) == body[i] && scalar_of(written[i]) == scalar_of(
                body[i],
            ) by {
                lemma_plain_of(body[i]);
            }
            lemma_shapes_same(written, body);
            lemma_optimize_loop(written);
            assert(optimize_all(written) =~= body);
        },
        Tree::SetDataToZero => {
            let body = body_of(t);
            assert(all_are(body, OpCode::DecData));
            assert forall|i: int| 0 <= i < body.len() implies plain(#[trigger] body[i]) by {}
            assert(plain(Tree::Loop(body)));
        },
        Tree::MovePtrUntilZero { forward, amount } => {
            let body = body_of(t);
            assert(all_are(body, ptr_op(forward)));
            assert(body[0] == Tree::Scalar(ptr_op(forward)));
            assert forall|i: int| 0 <= i < body.len() implies plain(#[trigger] body[i]) by {}
            assert(plain(Tree::Loop(body)));
        },
        Tree::MoveData { forward, amount } => {
            let body = body_of(t);
            assert(body[0] == Tree::Scalar(OpCode::DecData));
            assert(body[1] == Tree::Scalar(ptr_op(forward)));
            assert((body.len() - 2) / 2 == amount);
            assert(is_move_data(body, forward));
            assert forall|i: int| 0 <= i < body.len() implies plain(#[trigger] body[i]) by {}
            assert(plain(Tree::Loop(body)));
        },
    }
}

/// What trees are written back as is plain, and the rewrite makes the
/// trees of it again.
pub proof fn lemma_plain_all(ts: Seq<Tree>)
    requires
        all_strict(ts),
    ensures
        all_plain(plain_all(ts)),
        optimize_all(plain_all(ts)) == ts,
{
    assert forall|i: int| 0 <= i < ts.len() implies plain(#[trigger] plain_all(ts)[i])
        && optimize(plain_all(ts)[i]) == ts[i] by {
        lemma_plain_of(ts[i]);
    }
    assert(optimize_all(plain_all(ts)) =~= ts);
}

/// Whether the tree at `k` clears the cell behind a tree that has cleared
/// it.
pub open spec fn twin(ts: Seq<Tree>, k: int) -> bool {
    1 <= k < ts.len() && ts[k] == Tree::SetDataToZero && ts[k - 1] == Tree::SetDataToZero
}

/// A tree without the twins in its loops.
pub open spec fn tidy(t: Tree) -> Tree
    decreases t, 0nat,
{
    match t {
        Tree::Loop(body) => Tree::Loop(tidy_upto(body, body.len())),
        _ => t,
    }
}

/// The first `n` trees of a sequence without the twins.
pub open spec fn tidy_upto(ts: Seq<Tree>, n: nat) -> Seq<Tree>
    decreases ts, n,
{
    if n == 0 || n > ts.len() {
        Seq::empty()
    } else {
        let front = tidy_upto(ts, (n - 1) as nat);
        if twin(ts, n - 1) {
            front
        } else {
            front.push(tidy(ts[n - 1]))
        }
    }
}

/// A sequence of trees without the twins.
pub open spec fn tidy_all(ts: Seq<Tree>) -> Seq<Tree> {
    tidy_upto(ts, ts.len())
}

/// The stream of the first `n` trees, and the runs among them, depend on
/// these trees alone.
pub proof fn lemma_lower_prefix(a: Seq<Tree>, b: Seq<Tree>, n: nat)
    requires
        n <= a.len(),
        n <= b.len(),
        forall|i: int| 0 <= i < n ==> a[i] == b[i],
    ensures
        lower_upto(a, n) == lower_upto(b, n),
        run_len(a, n as int) == run_len(b, n as int),
    decreases n,
{
    if n > 0 {
        lemma_lower_prefix(a, b, (n - 1) as nat);
        assert(a[n - 1] == b[n - 1]);
        if n >= 2 {
            assert(a[n - 2] == b[n - 2]);
        }
    }
}

/// Behind a tree that is no loop, the stream ends with the instruction of
/// that tree, counted as often as it stands there in a row.
pub proof fn lemma_lower_last(ts: Seq<Tree>, n: nat)
    requires
        0 < n <= ts.len(),
        !(ts[n - 1] is Loop),
    ensures
        lower_upto(ts, n).len() > 0,
        lower_upto(ts, n).last() == instruction_of(ts[n - 1], run_len(ts, n as int)),
        n >= 2 && ts[n - 2] == ts[n - 1] ==> lower_upto(ts, n).drop_last() == lower_upto(
            ts,
            (n - 1) as nat,
        ).drop_last(),
        !(n >= 2 && ts[n - 2] == ts[n - 1]) ==> lower_upto(ts, n).drop_last() == lower_upto(
            ts,
            (n - 1) as nat,
        ),
{
    let front = lower_upto(ts, (n - 1) as nat);
    if n >= 2 && ts[n - 2] == ts[n - 1] {
        let x = instruction_of(ts[n - 1], run_len(ts, n as int));
        assert(front.drop_last().push(x).drop_last() =~= front.drop_last());
    } else {
        let x = instruction_of(ts[n - 1], 1);
        assert(front.push(x).drop_last() =~= front);
    }
}

/// Twins leave no trace in the stream: without them the stream is the
/// same.
pub proof fn lemma_tidy_lower(ts: Seq<Tree>, n: nat)
    requires
        n <= ts.len(),
    ensures
        ({
            let kept = tidy_upto(ts, n);
            &&& kept.len() <= n
            &&& lower(kept) == lower_upto(ts, n)
            &&& n > 0 ==> kept.len() > 0 && kept.last() == tidy(ts[n - 1])
            &&& n > 0 && !(ts[n - 1] is Loop) && ts[n - 1] != Tree::SetDataToZero ==> run_len(
                kept,
                kept.len() as int,
            ) == run_len(ts, n as int)
        }),
    decreases ts, n,
{
    if n > 0 {
        let t = ts[n - 1];
        let front = tidy_upto(ts, (n - 1) as nat);
        let m = front.len();
        let kept = tidy_upto(ts, n);
        lemma_tidy_lower(ts, (n - 1) as nat);
        if twin(ts, n - 1) {
            let low = lower_upto(ts, (n - 1) as nat);
            lemma_lower_last(ts, (n - 1) as nat);
            assert(low.drop_last().push(low.last()) =~= low);
        } else {
            let x = tidy(t);
            assert(kept == front.push(x));
            lemma_lower_prefix(kept, front, m);
            match t {
                Tree::Loop(body) => {
                    lemma_tidy_lower(body, body.len());
                },
                _ => {
                    assert(x == t);
                    if n >= 2 {
                        assert(kept[m - 1] == tidy(ts[n - 2]));
                        assert((kept[m - 1] == t) == (ts[n - 2] == t));
                    }
                },
            }
        }
    } else {
        assert(tidy_upto(ts, n) =~= Seq::<Tree>::empty());
    }
}

/// Whether a tree is as the rewrite leaves trees: as `strict`, but for the
/// twins.
pub open spec fn rewritten(t: Tree) -> bool
    decreases t,
{
    match t {
        Tree::Scalar(op) => bracket_delta(op) == 0,
        Tree::Loop(body) => {
            &&& !shaped(body)
            &&& body.len() <= MAX_COMMANDS
            &&& forall|i: int| 0 <= i < body.len() ==> rewritten(#[trigger] body[i])
        },
        Tree::SetDataToZero => true,
        Tree::MovePtrUntilZero { amount, .. } => 1 <= amount <= MAX_COMMANDS,
        Tree::MoveData { amount, .. } => 1 <= amount <= MAX_COMMANDS,
    }
}

/// The rewrite leaves a plain tree rewritten.
pub proof fn lemma_optimize_rewritten(t: Tree)
    requires
        plain(t),
        fits(t),
    ensures
        rewritten(optimize(t)),
    decreases t,
{
    match t {
        Tree::Loop(body) => {
            if !shaped(body) {
                let opt = optimize_all(body);
                lemma_optimize_loop(body);
                lemma_shapes_kept(body);
                assert forall|i: int| 0 <= i < opt.len() implies rewritten(#[trigger] opt[i]) by {
                    lemma_optimize_rewritten(body[i]);
                }
            }
        },
        _ => {},
    }
}

/// A body with one of the three shapes holds commands alone.
pub proof fn lemma_shaped_scalars(body: Seq<Tree>)
    requires
        shaped(body),
    ensures
        forall|i: int| 0 <= i < body.len() ==> scalar_of(#[trigger] body[i]) is Some,
{
    assert forall|i: int| 0 <= i < body.len() implies scalar_of(#[trigger] body[i]) is Some by {
        if is_set_zero(body) {
            if all_are(body, OpCode::IncData) {
                assert(body[i] == Tree::Scalar(OpCode::IncData));
            } else {
                assert(body[i] == Tree::Scalar(OpCode::DecData));
            }
        } else if is_move_ptr(body, true) {
            assert(body[i] == Tree::Scalar(ptr_op(true)));
        } else if is_move_ptr(body, false) {
            assert(body[i] == Tree::Scalar(ptr_op(false)));
        } else {
            let forward = is_move_data(body, true);
            let k = (body.len() - 2) / 2;
            assert(is_move_data(body, forward));
            if i == 0 {
            } else if i <= k {
                assert(body[i] == Tree::Scalar(ptr_op(forward)));
            } else if i == k + 1 {
            } else {
                assert(body[i] == Tree::Scalar(ptr_op(!forward)));
            }
        }
    }
}

/// Rewritten trees without their twins are strict; and where nothing but
/// commands is left, nothing was taken out.
pub proof fn lemma_tidy_strict(ts: Seq<Tree>, n: nat)
    requires
        n <= ts.len(),
        forall|i: int| 0 <= i < n ==> rewritten(#[trigger] ts[i]),
    ensures
        ({
            let kept = tidy_upto(ts, n);
            &&& kept.len() <= n
            &&& no_twins(kept)
            &&& forall|j: int| 0 <= j < kept.len() ==> strict(#[trigger] kept[j])
            &&& (forall|j: int| 0 <= j < kept.len() ==> scalar_of(#[trigger] kept[j]) is Some)
                ==> kept == ts.take(n as int)
        }),
    decreases ts, n,
{
    let kept = tidy_upto(ts, n);
    if n > 0 {
        let t = ts[n - 1];
        let front = tidy_upto(ts, (n - 1) as nat);
        lemma_tidy_strict(ts, (n - 1) as nat);
        lemma_tidy_lower(ts, (n - 1) as nat);
        lemma_tidy_lower(ts, n);
        if twin(ts, n - 1) {
            // A node that clears the cell is kept in front: not all is
            // commands.
            assert(scalar_of(kept[kept.len() - 1]) is None);
        } else {
            let x = tidy(t);
            assert(kept == front.push(x));
            assert(rewritten(t));
            match t {
                Tree::Loop(body) => {
                    let inner = tidy_upto(body, body.len());
                    lemma_tidy_strict(body, body.len());
                    if shaped(inner) {
                        lemma_shaped_scalars(inner);
                        assert(body.take(body.len() as int) =~= body);
                    }
                    assert(scalar_of(kept[kept.len() - 1]) is None);
                },
                _ => {
                    assert(x == t);
                },
            }
            assert forall|j: int| 0 <= j < kept.len() implies strict(#[trigger] kept[j]) by {
                if j < front.len() {
                    assert(kept[j] == front[j]);
                }
            }
            assert forall|i: int, j: int|
                0 <= i && j == i + 1 && j < kept.len() && #[trigger] kept[i]
                    == Tree::SetDataToZero implies (#[trigger] kept[j]) != Tree::SetDataToZero by {
                if j < front.len() {
                    assert(kept[i] == front[i] && kept[j] == front[j]);
                } else {
                    assert(kept[i] == front[i]);
                    if n >= 2 {
                        assert(front.last() == tidy(ts[n - 2]));
                    }
                }
            }
            if forall|j: int| 0 <= j < kept.len() ==> scalar_of(#[trigger] kept[j]) is Some {
                assert forall|j: int| 0 <= j < front.len() implies scalar_of(#[trigger] front[j])
                    is Some by {
                    assert(kept[j] == front[j]);
                }
                assert(scalar_of(kept[kept.len() - 1]) is Some);
                assert(kept =~= ts.take(n as int));
            }
        }
    } else {
        assert(kept =~= ts.take(0));
    }
}

/// The trees that the rewrite makes of plain trees are strict once their
/// twins are taken out.
pub proof fn lemma_optimized_strict(ast: Seq<Tree>)
    requires
        all_plain(ast),
        all_fit(ast),
    ensures
        all_strict(tidy_all(optimize_all(ast))),
{
    let opt = optimize_all(ast);
    assert forall|i: int| 0 <= i < opt.len() implies rewritten(#[trigger] opt[i]) by {
        lemma_optimize_rewritten(ast[i]);
    }
    lemma_tidy_strict(opt, opt.len());
}

/// The same command `n` times.
pub open spec fn repeat(op: OpCode, n: nat) -> Seq<OpCode> {
    Seq::new(n, |i: int| op)
}

/// The commands that one copy of an instruction is written as: the command
/// itself, a bracket for a jump, `[-]` for a node that clears the cell, and
/// the loop that a scan or a move of the cell was written for.
pub open spec fn unit_text(x: Instruction) -> Seq<OpCode> {
    match x {
        Instruction::IncPtr { .. } => seq![OpCode::IncPtr],
        Instruction::DecPtr { .. } => seq![OpCode::DecPtr],
        Instruction::IncData { .. } => seq![OpCode::IncData],
        Instruction::DecData { .. } => seq![OpCode::DecData],
        Instruction::Read { .. } => seq![OpCode::Read],
        Instruction::Write { .. } => seq![OpCode::Write],
        Instruction::JumpBegin => seq![OpCode::JumpIfZero],
        Instruction::JumpEnd => seq![OpCode::JumpIfNotZero],
        Instruction::SetDataToZero => seq![
            OpCode::JumpIfZero,
            OpCode::DecData,
            OpCode::JumpIfNotZero,
        ],
        Instruction::MovePtrUntilZero { forward, amount, .. } => seq![OpCode::JumpIfZero] + repeat(
            ptr_op(forward),
            amount as nat,
        ) + seq![OpCode::JumpIfNotZero],
        Instruction::MoveData { forward, amount, .. } => seq![
            OpCode::JumpIfZero,
            OpCode::DecData,
        ] + repeat(ptr_op(forward), amount as nat) + seq![OpCode::IncData] + repeat(
            ptr_op(!forward),
            amount as nat,
        ) + seq![OpCode::JumpIfNotZero],
    }
}

/// How many copies an instruction stands for: its count, and one where it
/// has none.
pub open spec fn copies(x: Instruction) -> nat {
    match x {
        Instruction::IncPtr { count } => count as nat,
        Instruction::DecPtr { count } => count as nat,
        Instruction::IncData { count } => count as nat,
        Instruction::DecData { count } => count as nat,
        Instruction::Read { count } => count as nat,
        Instruction::Write { count } => count as nat,
        Instruction::MovePtrUntilZero { count, .. } => count as nat,
        Instruction::MoveData { count, .. } => count as nat,
        _ => 1,
    }
}

/// A run of commands `n` times over.
pub open spec fn times(unit: Seq<OpCode>, n: nat) -> Seq<OpCode>
    decreases n,
{
    if n == 0 {
        Seq::empty()
    } else {
        times(unit, (n - 1) as nat) + unit
    }
}

/// The commands that an instruction is written as.
pub open spec fn instruction_text(x: Instruction) -> Seq<OpCode> {
    times(unit_text(x), copies(x))
}

/// The commands that an instruction stream is written as.
pub open spec fn stream_text(stream: Seq<Instruction>) -> Seq<OpCode>
    decreases stream.len(),
{
    if stream.len() == 0 {
        Seq::empty()
    } else {
        stream_text(stream.drop_last()) + instruction_text(stream.last())
    }
}

/// Two streams, one behind the other, are written one behind the other.
pub proof fn lemma_stream_text_concat(a: Seq<Instruction>, b: Seq<Instruction>)
    ensures
        stream_text(a + b) == stream_text(a) + stream_text(b),
    decreases b.len(),
{
    if b.len() == 0 {
        assert(a + b =~= a);
        assert(stream_text(a) + stream_text(b) =~= stream_text(a));
    } else {
        lemma_stream_text_concat(a, b.drop_last());
        assert((a + b).drop_last() =~= a + b.drop_last());
        assert(stream_text(a + b) =~= stream_text(a) + stream_text(b));
    }
}

/// A stream of one instruction is written as that instruction.
pub proof fn lemma_stream_text_one(x: Instruction)
    ensures
        stream_text(seq![x]) == instruction_text(x),
{
    reveal_with_fuel(stream_text, 2);
    assert(seq![x].drop_last() =~= Seq::<Instruction>::empty());
    assert(seq![x].last() == x);
    assert(stream_text(seq![x]) =~= instruction_text(x));
}

/// One copy is written once.
pub proof fn lemma_times_one(unit: Seq<OpCode>)
    ensures
        times(unit, 1) == unit,
{
    reveal_with_fuel(times, 2);
    assert(times(unit, 1) =~= unit);
}

/// The commands of trees that are commands.
pub proof fn lemma_flatten_scalars(body: Seq<Tree>, n: nat)
    requires
        n <= body.len(),
        forall|i: int| 0 <= i < n ==> scalar_of(#[trigger] body[i]) is Some,
    ensures
        flatten_upto(body, n) == Seq::new(n, |i: int| scalar_of(body[i])->Some_0),
    decreases n,
{
    let commands = Seq::new(n, |i: int| scalar_of(body[i])->Some_0);
    if n > 0 {
        lemma_flatten_scalars(body, (n - 1) as nat);
        let t = body[n - 1];
        assert(scalar_of(t) is Some);
        assert(flatten_tree(t) =~= seq![scalar_of(t)->Some_0]);
        let front = flatten_upto(body, (n - 1) as nat);
        assert(flatten_upto(body, n) == front + flatten_tree(t));
        assert(front.len() == n - 1);
        assert forall|i: int| 0 <= i < n implies (front + flatten_tree(t))[i] == commands[i] by {
            if i < n - 1 {
                assert(front[i] == scalar_of(body[i])->Some_0);
            }
        }
        assert(flatten_upto(body, n) =~= commands);
    } else {
        assert(flatten_upto(body, n) =~= commands);
    }
}

/// No more equal trees stand in a row than there are trees.
pub proof fn lemma_run_len_bound(ts: Seq<Tree>, n: int)
    requires
        1 <= n,
    ensures
        1 <= run_len(ts, n) <= n,
    decreases n,
{
    if 2 <= n <= ts.len() && ts[n - 2] == ts[n - 1] {
        lemma_run_len_bound(ts, n - 1);
    }
}

/// One copy of the instruction of a tree that is no loop is written as the
/// commands of the plain tree that the tree is written back as; and the
/// instruction stands for as many copies as it was made for.
pub proof fn lemma_unit_text(t: Tree, count: nat)
    requires
        strict(t),
        !(t is Loop),
        count <= MAX_COMMANDS,
    ensures
        unit_text(instruction_of(t, count)) == flatten_tree(plain_of(t)),
        copies(instruction_of(t, count)) == if t == Tree::SetDataToZero {
            1
        } else {
            count
        },
{
    let body = body_of(t);
    match t {
        Tree::Scalar(op) => {},
        Tree::SetDataToZero => {
            lemma_flatten_scalars(body, 1);
            assert(unit_text(instruction_of(t, count)) =~= flatten_tree(plain_of(t)));
        },
        Tree::MovePtrUntilZero { forward, amount } => {
            lemma_flatten_scalars(body, body.len());
            assert(flatten(body) =~= repeat(ptr_op(forward), amount));
        },
        Tree::MoveData { forward, amount } => {
            lemma_flatten_scalars(body, body.len());
            assert(flatten(body) =~= seq![OpCode::DecData] + repeat(ptr_op(forward), amount)
                + seq![OpCode::IncData] + repeat(ptr_op(!forward), amount));
            assert(unit_text(instruction_of(t, count)) =~= flatten_tree(plain_of(t)));
        },
        _ => {},
    }
}

/// A stream is written as the commands of the plain trees that its trees
/// are written back as.
pub proof fn lemma_stream_text(ts: Seq<Tree>, n: nat)
    requires
        n <= ts.len() <= MAX_COMMANDS,
        no_twins(ts),
        forall|i: int| 0 <= i < ts.len() ==> strict(#[trigger] ts[i]),
    ensures
        stream_text(lower_upto(ts, n)) == flatten_upto(plain_all(ts), n),
    decreases ts, n,
{
    if n > 0 {
        let t = ts[n - 1];
        let front = lower_upto(ts, (n - 1) as nat);
        lemma_stream_text(ts, (n - 1) as nat);
        assert(plain_all(ts)[n - 1] == plain_of(t));
        assert(strict(t));
        match t {
            Tree::Loop(body) => {
                let inner = lower_upto(body, body.len());
                let begin = seq![Instruction::JumpBegin];
                let end = seq![Instruction::JumpEnd];
                lemma_stream_text(body, body.len());
                lemma_plain_of_loop(body);
                lemma_stream_text_concat(front + begin + inner, end);
                lemma_stream_text_concat(front + begin, inner);
                lemma_stream_text_concat(front, begin);
                lemma_stream_text_one(Instruction::JumpBegin);
                lemma_stream_text_one(Instruction::JumpEnd);
                lemma_times_one(unit_text(Instruction::JumpBegin));
                lemma_times_one(unit_text(Instruction::JumpEnd));
                assert(lower_upto(ts, n) == front + begin + inner + end);
                assert(stream_text(begin) == seq![OpCode::JumpIfZero]);
                assert(stream_text(end) == seq![OpCode::JumpIfNotZero]);
                assert(stream_text(inner) == flatten(plain_all(body)));
                assert(flatten_tree(plain_of(t)) == seq![OpCode::JumpIfZero] + flatten(
                    plain_all(body),
                ) + seq![OpCode::JumpIfNotZero]);
                assert(flatten_upto(plain_all(ts), n) == flatten_upto(
                    plain_all(ts),
                    (n - 1) as nat,
                ) + flatten_tree(plain_of(t)));
                assert(stream_text(lower_upto(ts, n)) =~= flatten_upto(plain_all(ts), n));
            },
            _ => {
                lemma_run_len_bound(ts, n as int);
                let r = run_len(ts, n as int);
                lemma_unit_text(t, r);
                lemma_unit_text(t, 1);
                let unit = unit_text(instruction_of(t, r));
                if n >= 2 && ts[n - 2] == t {
                    assert(t != Tree::SetDataToZero);
                    lemma_lower_last(ts, (n - 1) as nat);
                    lemma_run_len_bound(ts, n - 1);
                    lemma_unit_text(t, (r - 1) as nat);
                    let rest = front.drop_last();
                    let now = rest.push(instruction_of(t, r));
                    assert(now.drop_last() =~= rest);
                    assert(stream_text(front) == stream_text(rest) + times(unit, (r - 1) as nat));
                    assert(stream_text(now) == stream_text(rest) + times(unit, r));
                    assert(stream_text(now) =~= stream_text(front) + unit);
                } else {
                    let now = front.push(instruction_of(t, 1));
                    assert(now.drop_last() =~= front);
                    lemma_times_one(unit);
                }
            },
        }
    }
}

/// What a tree is written back as holds no more commands than the plain
/// tree that it was made of.
pub proof fn lemma_written_size(t: Tree)
    requires
        plain(t),
    ensures
        flatten_tree(plain_of(tidy(optimize(t)))).len() <= flatten_tree(t).len(),
    decreases t, 0nat,
{
    match t {
        Tree::Loop(body) => {
            if shaped(body) {
                let node = optimize(t);
                let back = body_of(node);
                lemma_shaped_scalars(body);
                lemma_flatten_scalars(body, body.len());
                assert forall|i: int| 0 <= i < back.len() implies scalar_of(#[trigger] back[i])
                    is Some by {}
                lemma_flatten_scalars(back, back.len());
            } else {
                let opt = optimize_all(body);
                lemma_optimize_loop(body);
                lemma_plain_of_loop(tidy_all(opt));
                lemma_written_sizes(body, body.len());
            }
        },
        _ => {},
    }
}

/// What trees are written back as holds no more commands than the plain
/// trees that they were made of.
pub proof fn lemma_written_sizes(ts: Seq<Tree>, n: nat)
    requires
        n <= ts.len(),
        all_plain(ts),
    ensures
        flatten(plain_all(tidy_upto(optimize_all(ts), n))).len() <= flatten_upto(ts, n).len(),
    decreases ts, n,
{
    let opt = optimize_all(ts);
    if n > 0 {
        lemma_written_sizes(ts, (n - 1) as nat);
        if !twin(opt, n - 1) {
            let front = tidy_upto(opt, (n - 1) as nat);
            let x = tidy(opt[n - 1]);
            assert(plain(ts[n - 1]));
            lemma_written_size(ts[n - 1]);
            assert(plain_all(front.push(x)) =~= plain_all(front).push(plain_of(x)));
            lemma_flatten_push(plain_all(front), plain_of(x));
        }
    } else {
        assert(plain_all(tidy_upto(opt, n)) =~= Seq::<Tree>::empty());
    }
}

/// The source that an instruction stream is written as.
pub open spec fn source_text(stream: Seq<Instruction>) -> Seq<u8> {
    spell(stream_text(stream))
}

/// Parsing what a parsed stream is written as gives the stream again: the
/// text is balanced, holds no more commands than the source did, and any
/// syntax tree of it is rewritten and flattened to the very stream.
pub proof fn lemma_reparse(src: Seq<u8>, ast: Seq<Tree>)
    requires
        is_ast_of(src, ast),
        tokens(src).len() <= MAX_COMMANDS,
    ensures
        ({
            let stream = lower(optimize_all(ast));
            let text = source_text(stream);
            &&& balanced(deltas(tokens(text)))
            &&& tokens(text).len() <= MAX_COMMANDS
            &&& forall|again: Seq<Tree>| #[trigger]
                is_ast_of(text, again) ==> lower(optimize_all(again)) == stream
        }),
{
    let rewritten_trees = optimize_all(ast);
    let kept = tidy_all(rewritten_trees);
    let written = plain_all(kept);
    let stream = lower(rewritten_trees);
    let text = source_text(stream);
    lemma_optimized_strict(ast);
    lemma_tidy_lower(rewritten_trees, rewritten_trees.len());
    lemma_plain_all(kept);
    lemma_stream_text(kept, kept.len());
    lemma_tokens_of_commands(stream_text(stream));
    lemma_flatten_balanced(written, written.len());
    lemma_written_sizes(ast, ast.len());
    assert(tokens(text) == flatten(written));
    assert forall|again: Seq<Tree>| #[trigger] is_ast_of(text, again) implies lower(
        optimize_all(again),
    ) == stream by {
        lemma_ast_unique(again, written);
    }
}

/// The byte that spells one step of the data pointer.
fn byte_for(forward: bool) -> (r: u8)
    ensures
        seq![r] == spell(seq![ptr_op(forward)]),
{
    let r = if forward {
        INC_PTR
    } else {
        DEC_PTR
    };
    assert(seq![r] =~= spell(seq![ptr_op(forward)]));
    r
}

/// Writes the steps of the data pointer of one loop.
fn write_steps(out: &mut Vec<u8>, forward: bool, amount: u32)
    ensures
        final(out)@ == old(out)@ + spell(repeat(ptr_op(forward), amount as nat)),
{
    let byte = byte_for(forward);
    let mut i: u32 = 0;
    assert(old(out)@ + spell(repeat(ptr_op(forward), 0)) =~= old(out)@);
    while i < amount
        invariant
            0 <= i <= amount,
            seq![byte] == spell(seq![ptr_op(forward)]),
            out@ == old(out)@ + spell(repeat(ptr_op(forward), i as nat)),
        decreases amount - i,
    {
        out.push(byte);
        proof {
            assert(seq![byte][0] == spell(seq![ptr_op(forward)])[0]);
            assert(out@ =~= old(out)@ + spell(repeat(ptr_op(forward), (i + 1) as nat)));
        }
        i += 1;
    }
}

/// Writes one copy of an instruction.
fn write_unit(out: &mut Vec<u8>, instruction: Instruction)
    ensures
        final(out)@ == old(out)@ + spell(unit_text(instruction)),
{
    match instruction {
        Instruction::IncPtr { .. } => out.push(INC_PTR),
        Instruction::DecPtr { .. } => out.push(DEC_PTR),
        Instruction::IncData { .. } => out.push(INC_DATA),
        Instruction::DecData { .. } => out.push(DEC_DATA),
        Instruction::Read { .. } => out.push(READ),
        Instruction::Write { .. } => out.push(WRITE),
        Instruction::JumpBegin => out.push(JUMP_IF_ZERO),
        Instruction::JumpEnd => out.push(JUMP_IF_NOT_ZERO),
        Instruction::SetDataToZero => {
            out.push(JUMP_IF_ZERO);
            out.push(DEC_DATA);
            out.push(JUMP_IF_NOT_ZERO);
        },
        Instruction::MovePtrUntilZero { forward, amount, .. } => {
            out.push(JUMP_IF_ZERO);
            write_steps(out, forward, amount);
            out.push(JUMP_IF_NOT_ZERO);
        },
        Instruction::MoveData { forward, amount, .. } => {
            out.push(JUMP_IF_ZERO);
            out.push(DEC_DATA);
            write_steps(out, forward, amount);
            out.push(INC_DATA);
            write_steps(out, !forward, amount);
            out.push(JUMP_IF_NOT_ZERO);
        },
    }
    proof {
        assert(out@ =~= old(out)@ + spell(unit_text(instruction)));
    }
}

/// How many copies an instruction stands for.
fn copies_of(instruction: Instruction) -> (r: u32)
    ensures
        r == copies(instruction),
{
    match instruction {
        Instruction::IncPtr { count } => count,
        Instruction::DecPtr { count } => count,
        Instruction::IncData { count } => count,
        Instruction::DecData { count } => count,
        Instruction::Read { count } => count,
        Instruction::Write { count } => count,
        Instruction::MovePtrUntilZero { count, .. } => count,
        Instruction::MoveData { count, .. } => count,
        _ => 1,
    }
}

/// Writes an instruction stream back as source: a command as often as its
/// count says, a bracket for each jump, `[-]` for a node that clears the
/// cell, and the loop of a scan or of a move of the cell as often as its
/// count says.
pub fn write_source(program: &Program) -> (r: Vec<u8>)
    ensures
        r@ == source_text(program.instructions@),
{
    let ghost stream = program.instructions@;
    let mut out: Vec<u8> = Vec::new();
    let len = program.instructions.len();
    let mut i: usize = 0;
    assert(out@ =~= source_text(stream.take(0)));
    while i < len
        invariant
            0 <= i <= len,
            len == stream.len(),
            stream == program.instructions@,
            out@ == source_text(stream.take(i as int)),
        decreases len - i,
    {
        let instruction = program.instructions[i];
        let count = copies_of(instruction);
        let ghost front = stream_text(stream.take(i as int));
        let ghost unit = unit_text(instruction);
        let mut c: u32 = 0;
        assert(out@ =~= spell(front + times(unit, 0)));
        while c < count
            invariant
                0 <= c <= count,
                out@ == spell(front + times(unit, c as nat)),
                unit == unit_text(instruction),
            decreases count - c,
        {
            write_unit(&mut out, instruction);
            proof {
                assert(out@ =~= spell(front + times(unit, (c + 1) as nat)));
            }
            c += 1;
        }
        proof {
            assert(stream.take(i + 1).drop_last() =~= stream.take(i as int));
            assert(stream.take(i + 1).last() == instruction);
        }
        i += 1;
    }
    proof {
        assert(stream.take(len as int) =~= stream);
    }
    out
}

} // verus!
