//! The optimizing parser: source bytes to a tree of loops, loops of three
//! recurring shapes rewritten to single nodes, and the tree flattened to an
//! instruction stream with a count on every instruction that can repeat.

use vstd::prelude::*;
use vstd::string::StringSliceAdditionalSpecFns;
use crate::brackets::{
    balanced, bracket_delta, check_brackets_at_index, deltas, depth, first_offender, is_pair,
    lemma_balanced_concat, lemma_balanced_push, lemma_balanced_wrap, lemma_pair_unique,
    lemma_wrapped_pair, unmatched_at_index,
};
use crate::error::{narrowing_failed, narrowing_text, BfResult};
use crate::source::{tokenize, tokens, OpCode};

verus! {

/// A node of the syntax tree.
#[derive(Debug, PartialEq, Eq)]
pub enum AstNode {
    IncPtr,
    DecPtr,
    IncData,
    DecData,
    Read,
    Write,
    Loop { seq: AstSeq },
    SetDataToZero,
    MovePtrUntilZero { forward: bool, amount: u32 },
    MoveData { forward: bool, amount: u32 },
}

/// A sequence of nodes: a program, or the body of a loop.
#[derive(Debug, PartialEq, Eq)]
pub struct AstSeq {
    pub children: Vec<AstNode>,
}

#[derive(Debug, PartialEq, Eq, Clone, Copy, Structural)]
pub enum Instruction {
    IncPtr { count: u32 },
    DecPtr { count: u32 },
    IncData { count: u32 },
    DecData { count: u32 },
    Read { count: u32 },
    Write { count: u32 },
    JumpBegin,
    JumpEnd,
    SetDataToZero,
    MovePtrUntilZero { count: u32, forward: bool, amount: u32 },
    MoveData { count: u32, forward: bool, amount: u32 },
}

#[derive(Debug, PartialEq, Eq)]
pub struct Program {
    pub instructions: Vec<Instruction>,
}

/// The mathematical model of a node of the syntax tree.
pub enum Tree {
    /// One of the six commands that are no brackets.
    Scalar(OpCode),
    /// A loop around a body.
    Loop(Seq<Tree>),
    /// A loop that clears the current cell.
    SetDataToZero,
    /// A loop that moves the data pointer by `amount` until it stands on a
    /// zero cell.
    MovePtrUntilZero { forward: bool, amount: nat },
    /// A loop that adds the current cell to the cell `amount` away and
    /// clears it.
    MoveData { forward: bool, amount: nat },
}

/// The model of a node.
pub open spec fn tree_of(node: AstNode) -> Tree
    decreases node,
{
    match node {
        AstNode::IncPtr => Tree::Scalar(OpCode::IncPtr),
        AstNode::DecPtr => Tree::Scalar(OpCode::DecPtr),
        AstNode::IncData => Tree::Scalar(OpCode::IncData),
        AstNode::DecData => Tree::Scalar(OpCode::DecData),
        AstNode::Read => Tree::Scalar(OpCode::Read),
        AstNode::Write => Tree::Scalar(OpCode::Write),
        AstNode::Loop { seq } => Tree::Loop(
            Seq::new(
                seq.children@.len(),
                |i: int|
                    if 0 <= i < seq.children@.len() {
                        tree_of(seq.children@[i])
                    } else {
                        // No index out of range is ever asked for.
                        Tree::SetDataToZero
                    },
            ),
        ),
        AstNode::SetDataToZero => Tree::SetDataToZero,
        AstNode::MovePtrUntilZero { forward, amount } => Tree::MovePtrUntilZero {
            forward,
            amount: amount as nat,
        },
        AstNode::MoveData { forward, amount } => Tree::MoveData { forward, amount: amount as nat },
    }
}

impl View for AstNode {
    type V = Tree;

    open spec fn view(&self) -> Tree {
        tree_of(*self)
    }
}

impl View for AstSeq {
    type V = Seq<Tree>;

    open spec fn view(&self) -> Seq<Tree> {
        Seq::new(self.children@.len(), |i: int| self.children@[i]@)
    }
}

/// The commands that a tree was built from, where it holds no rewritten
/// loop.
pub open spec fn flatten_tree(t: Tree) -> Seq<OpCode>
    decreases t, 0nat,
{
    match t {
        Tree::Scalar(op) => seq![op],
        Tree::Loop(body) => seq![OpCode::JumpIfZero] + flatten_upto(body, body.len())
            + seq![OpCode::JumpIfNotZero],
        _ => Seq::empty(),
    }
}

/// The commands that the first `n` trees of a sequence were built from.
pub open spec fn flatten_upto(ts: Seq<Tree>, n: nat) -> Seq<OpCode>
    decreases ts, n,
{
    if n == 0 || n > ts.len() {
        Seq::empty()
    } else {
        flatten_upto(ts, (n - 1) as nat) + flatten_tree(ts[n - 1])
    }
}

/// The commands that a sequence of trees was built from.
pub open spec fn flatten(ts: Seq<Tree>) -> Seq<OpCode> {
    flatten_upto(ts, ts.len())
}

/// Whether a tree holds no rewritten loop, and no bracket for a command.
pub open spec fn plain(t: Tree) -> bool
    decreases t,
{
    match t {
        Tree::Scalar(op) => op != OpCode::JumpIfZero && op != OpCode::JumpIfNotZero,
        Tree::Loop(body) => forall|i: int| 0 <= i < body.len() ==> plain(#[trigger] body[i]),
        _ => false,
    }
}

/// Whether every tree of a sequence is plain.
pub open spec fn all_plain(ts: Seq<Tree>) -> bool {
    forall|i: int| 0 <= i < ts.len() ==> plain(#[trigger] ts[i])
}

/// Whether no body and no amount in a tree is larger than 32 bits can tell.
pub open spec fn fits(t: Tree) -> bool
    decreases t,
{
    match t {
        Tree::Loop(body) => body.len() <= MAX_COMMANDS && forall|i: int|
            0 <= i < body.len() ==> fits(#[trigger] body[i]),
        Tree::MovePtrUntilZero { amount, .. } => amount <= MAX_COMMANDS,
        Tree::MoveData { amount, .. } => amount <= MAX_COMMANDS,
        _ => true,
    }
}

/// Whether a sequence, and every tree in it, fits.
pub open spec fn all_fit(ts: Seq<Tree>) -> bool {
    ts.len() <= MAX_COMMANDS && forall|i: int| 0 <= i < ts.len() ==> fits(#[trigger] ts[i])
}

/// The view of a loop node is the loop around the views of its children.
pub proof fn lemma_view_loop(node: AstNode)
    requires
        node is Loop,
    ensures
        node@ == Tree::Loop(node->seq@),
{
    let seq = node->seq;
    assert(node == AstNode::Loop { seq });
    let body = node@->Loop_0;
    assert(body.len() == seq@.len());
    assert forall|i: int| 0 <= i < body.len() implies body[i] == seq@[i] by {}
    assert(body =~= seq@);
}

/// Adding a tree adds the commands that it was built from.
pub proof fn lemma_flatten_push(ts: Seq<Tree>, t: Tree)
    ensures
        flatten(ts.push(t)) == flatten(ts) + flatten_tree(t),
{
    lemma_flatten_prefix(ts.push(t), ts, ts.len());
}

/// The commands of the first `n` trees do not depend on what follows them.
pub proof fn lemma_flatten_prefix(a: Seq<Tree>, b: Seq<Tree>, n: nat)
    requires
        n <= a.len(),
        n <= b.len(),
        forall|i: int| 0 <= i < n ==> a[i] == b[i],
    ensures
        flatten_upto(a, n) == flatten_upto(b, n),
    decreases n,
{
    if n > 0 {
        lemma_flatten_prefix(a, b, (n - 1) as nat);
    }
}

/// The nesting changes of two runs of commands, one behind the other.
pub proof fn lemma_deltas_concat(a: Seq<OpCode>, b: Seq<OpCode>)
    ensures
        deltas(a + b) == deltas(a) + deltas(b),
{
    assert(deltas(a + b) =~= deltas(a) + deltas(b));
}

/// The nesting changes of the commands of a loop: an opening bracket, those
/// of the body, and a closing bracket.
pub proof fn lemma_deltas_loop(body: Seq<Tree>)
    ensures
        deltas(flatten_tree(Tree::Loop(body))) == seq![1int] + deltas(flatten(body)) + seq![
            -1int,
        ],
{
    let open = seq![OpCode::JumpIfZero];
    let close = seq![OpCode::JumpIfNotZero];
    lemma_deltas_concat(open + flatten(body), close);
    lemma_deltas_concat(open, flatten(body));
    assert(deltas(open) =~= seq![1int]);
    assert(deltas(close) =~= seq![-1int]);
}

/// The commands that plain trees were built from are balanced.
pub proof fn lemma_flatten_balanced(ts: Seq<Tree>, n: nat)
    requires
        n <= ts.len(),
        all_plain(ts),
    ensures
        balanced(deltas(flatten_upto(ts, n))),
    decreases ts, n,
{
    if n == 0 {
        assert(deltas(flatten_upto(ts, n)) =~= Seq::<int>::empty());
    } else {
        let front = flatten_upto(ts, (n - 1) as nat);
        let tree = flatten_tree(ts[n - 1]);
        lemma_flatten_balanced(ts, (n - 1) as nat);
        assert(plain(ts[n - 1]));
        assert(flatten_upto(ts, n) == front + tree);
        lemma_deltas_concat(front, tree);
        match ts[n - 1] {
            Tree::Loop(body) => {
                lemma_flatten_balanced(body, body.len());
                lemma_deltas_loop(body);
                lemma_wrapped_pair(deltas(front), deltas(flatten(body)));
            },
            Tree::Scalar(op) => {
                lemma_balanced_push(deltas(front));
                assert(deltas(tree) =~= seq![0int]);
                assert(deltas(front) + seq![0int] =~= deltas(front).push(0));
            },
            _ => {},
        }
    }
}

/// A sequence of plain trees without its last tree is still one, and was
/// built from fewer commands.
pub proof fn lemma_flatten_front(ts: Seq<Tree>)
    requires
        ts.len() > 0,
        all_plain(ts),
    ensures
        all_plain(ts.drop_last()),
        plain(ts.last()),
        flatten(ts) == flatten(ts.drop_last()) + flatten_tree(ts.last()),
        flatten_tree(ts.last()).len() > 0,
        flatten(ts).last() == flatten_tree(ts.last()).last(),
{
    lemma_flatten_prefix(ts, ts.drop_last(), (ts.len() - 1) as nat);
    assert(plain(ts[ts.len() - 1]));
    assert forall|i: int| 0 <= i < ts.drop_last().len() implies plain(
        #[trigger] ts.drop_last()[i],
    ) by {
        assert(ts.drop_last()[i] == ts[i]);
    }
}

/// Where the last of some plain trees is a loop, its brackets are a pair
/// in the commands of the trees, and the commands of the trees in front of
/// it and of its body stand in front of the pair and inside it.
pub proof fn lemma_last_loop(ts: Seq<Tree>)
    requires
        ts.len() > 0,
        all_plain(ts),
        ts.last() is Loop,
    ensures
        ({
            let all = flatten(ts);
            let front = flatten(ts.drop_last());
            let body = flatten(ts.last()->Loop_0);
            &&& all.len() == front.len() + body.len() + 2
            &&& is_pair(deltas(all), front.len() as int, all.len() - 1)
            &&& front == all.take(front.len() as int)
            &&& body == all.subrange(front.len() as int + 1, all.len() - 1)
            &&& all_plain(ts.last()->Loop_0)
        }),
{
    lemma_flatten_front(ts);
    let x = ts.last()->Loop_0;
    let all = flatten(ts);
    let front = flatten(ts.drop_last());
    let body = flatten(x);
    lemma_flatten_balanced(ts.drop_last(), (ts.len() - 1) as nat);
    lemma_flatten_balanced(x, x.len());
    lemma_wrapped_pair(deltas(front), deltas(body));
    lemma_deltas_loop(x);
    lemma_deltas_concat(front, flatten_tree(ts.last()));
    assert(front =~= all.take(front.len() as int));
    assert(body =~= all.subrange(front.len() as int + 1, all.len() - 1));
}

/// The syntax tree of a source is unique: two sequences of plain trees that
/// were built from the same commands are the same.
pub proof fn lemma_ast_unique(a: Seq<Tree>, b: Seq<Tree>)
    requires
        all_plain(a),
        all_plain(b),
        flatten(a) == flatten(b),
    ensures
        a == b,
    decreases flatten(a).len(),
{
    if a.len() == 0 {
        if b.len() > 0 {
            lemma_flatten_front(b);
        }
        assert(a =~= b);
    } else {
        lemma_flatten_front(a);
        if b.len() == 0 {
            assert(flatten(b).len() == 0);
        }
        lemma_flatten_front(b);
        let all = flatten(a);
        match a.last() {
            Tree::Scalar(op) => {
                assert(b.last() == a.last());
                assert(flatten(a.drop_last()) =~= all.drop_last());
                assert(flatten(b.drop_last()) =~= all.drop_last());
                lemma_ast_unique(a.drop_last(), b.drop_last());
            },
            Tree::Loop(x) => {
                assert(b.last() is Loop);
                let y = b.last()->Loop_0;
                lemma_last_loop(a);
                lemma_last_loop(b);
                lemma_pair_unique(
                    deltas(all),
                    flatten(a.drop_last()).len() as int,
                    all.len() - 1,
                    flatten(b.drop_last()).len() as int,
                    all.len() - 1,
                );
                lemma_ast_unique(a.drop_last(), b.drop_last());
                lemma_ast_unique(x, y);
                assert(a.last() == b.last());
            },
            _ => {},
        }
        assert(a =~= a.drop_last().push(a.last()));
        assert(b =~= b.drop_last().push(b.last()));
    }
}

/// The most commands that a source may hold for its counts to fit their
/// 32 bits.
pub const MAX_COMMANDS: usize = 0xffff_ffff;

/// The node of a command that is no bracket.
fn scalar_node(op: OpCode) -> (node: AstNode)
    requires
        bracket_delta(op) == 0,
    ensures
        node@ == Tree::Scalar(op),
        plain(node@),
{
    match op {
        OpCode::IncPtr => AstNode::IncPtr,
        OpCode::DecPtr => AstNode::DecPtr,
        OpCode::IncData => AstNode::IncData,
        OpCode::DecData => AstNode::DecData,
        OpCode::Read => AstNode::Read,
        _ => AstNode::Write,
    }
}

/// Builds the nodes of the commands from `start` up to the bracket that
/// closes the loop around them, or up to the end of the commands, and says
/// where it stopped.
fn parse_seq(ops: &Vec<OpCode>, start: usize) -> (r: (AstSeq, usize))
    requires
        balanced(deltas(ops@)),
        start <= ops@.len(),
    ensures
        ops@.len() <= MAX_COMMANDS ==> all_fit(r.0@),
        start <= r.1 <= ops@.len(),
        r.1 < ops@.len() ==> ops@[r.1 as int] == OpCode::JumpIfNotZero,
        depth(deltas(ops@), r.1 as int) == depth(deltas(ops@), start as int),
        flatten(r.0@) == ops@.subrange(start as int, r.1 as int),
        all_plain(r.0@),
        r.0.children@.len() <= r.1 - start,
    decreases ops@.len() - start,
{
    let ghost d = deltas(ops@);
    let len = ops.len();
    let mut children: Vec<AstNode> = Vec::new();
    let mut i: usize = start;
    proof {
        assert(flatten(Seq::<Tree>::empty()) =~= ops@.subrange(start as int, start as int));
    }
    while i < len
        invariant
            d == deltas(ops@),
            balanced(d),
            len == ops@.len(),
            start <= i <= len,
            depth(d, i as int) == depth(d, start as int),
            flatten((AstSeq { children })@) == ops@.subrange(start as int, i as int),
            all_plain((AstSeq { children })@),
            children@.len() <= i - start,
            len <= MAX_COMMANDS ==> forall|k: int|
                0 <= k < children@.len() ==> fits(#[trigger] (AstSeq { children })@[k]),
        decreases len - i,
    {
        let ghost before = (AstSeq { children })@;
        assert(depth(d, i + 1) == depth(d, i as int) + d[i as int]);
        match ops[i] {
            OpCode::JumpIfNotZero => {
                return (AstSeq { children }, i);
            },
            OpCode::JumpIfZero => {
                let (seq, close) = parse_seq(ops, i + 1);
                proof {
                    if close == len {
                        assert(depth(d, i as int) >= 0);
                    }
                }
                assert(depth(d, close + 1) == depth(d, close as int) + d[close as int]);
                let node = AstNode::Loop { seq };
                proof {
                    lemma_view_loop(node);
                    lemma_flatten_push(before, node@);
                    assert(ops@.subrange(start as int, close + 1) =~= ops@.subrange(
                        start as int,
                        i as int,
                    ) + flatten_tree(node@));
                }
                children.push(node);
                proof {
                    assert((AstSeq { children })@ =~= before.push(node@));
                }
                i = close + 1;
            },
            op => {
                let node = scalar_node(op);
                proof {
                    lemma_flatten_push(before, node@);
                    assert(ops@.subrange(start as int, i + 1) =~= ops@.subrange(
                        start as int,
                        i as int,
                    ) + flatten_tree(node@));
                }
                children.push(node);
                proof {
                    assert((AstSeq { children })@ =~= before.push(node@));
                }
                i += 1;
            },
        }
    }
    (AstSeq { children }, i)
}

/// Builds the syntax tree of balanced commands.
fn build(ops: &Vec<OpCode>) -> (ast: AstSeq)
    requires
        balanced(deltas(ops@)),
    ensures
        all_plain(ast@),
        flatten(ast@) == ops@,
        ops@.len() <= MAX_COMMANDS ==> all_fit(ast@),
{
    let ghost d = deltas(ops@);
    let (ast, end) = parse_seq(ops, 0);
    proof {
        if end < ops@.len() {
            assert(depth(d, end + 1) == depth(d, end as int) + d[end as int]);
            assert(depth(d, end + 1) >= 0);
        }
        assert(ops@.subrange(0, end as int) =~= ops@);
    }
    ast
}

/// Builds the syntax tree of a source: a node for each command that is no
/// bracket, and a loop node around the nodes between two brackets that
/// match.
///
/// Fails with `Parse`, and only where a bracket has no partner, naming the
/// first such bracket by its source index.
pub fn create_ast(source_code: &str) -> (r: BfResult<AstSeq>)
    ensures
        ({
            let ops = tokens(source_code.spec_bytes());
            &&& r is Ok <==> balanced(deltas(ops))
            &&& r matches Ok(ast) ==> all_plain(ast@) && flatten(ast@) == ops && (ops.len()
                <= MAX_COMMANDS ==> all_fit(ast@))
            &&& r matches Err(e) ==> exists|k: int|
                first_offender(deltas(ops), k) && e.is_parse(
                    unmatched_at_index(source_code.spec_bytes(), k),
                )
        }),
{
    let scan = tokenize(source_code);
    match check_brackets_at_index(&scan) {
        Some(e) => Err(e),
        None => Ok(build(&scan.opcodes)),
    }
}

/// Every tree of the body is the command `op`.
pub open spec fn all_are(body: Seq<Tree>, op: OpCode) -> bool {
    forall|i: int| 0 <= i < body.len() ==> #[trigger] body[i] == Tree::Scalar(op)
}

/// The body is not empty and holds only `+`, or only `-`.
pub open spec fn is_set_zero(body: Seq<Tree>) -> bool {
    body.len() > 0 && (all_are(body, OpCode::IncData) || all_are(body, OpCode::DecData))
}

/// The command that moves the data pointer forward, or back.
pub open spec fn ptr_op(forward: bool) -> OpCode {
    if forward {
        OpCode::IncPtr
    } else {
        OpCode::DecPtr
    }
}

/// The body is not empty and holds only `>` (forward), or only `<`, and no
/// more of them than an amount can tell.
pub open spec fn is_move_ptr(body: Seq<Tree>, forward: bool) -> bool {
    0 < body.len() <= MAX_COMMANDS && all_are(body, ptr_op(forward))
}

/// The body is `-`, then `k` times `>` (forward) or `<`, then `+`, then `k`
/// times the opposite, with `k` at least one, and nothing else.
pub open spec fn is_move_data(body: Seq<Tree>, forward: bool) -> bool {
    let k = (body.len() - 2) / 2;
    &&& 1 <= k <= MAX_COMMANDS
    &&& body.len() == 2 * k + 2
    &&& body[0] == Tree::Scalar(OpCode::DecData)
    &&& forall|i: int| 1 <= i <= k ==> #[trigger] body[i] == Tree::Scalar(ptr_op(forward))
    &&& body[k + 1] == Tree::Scalar(OpCode::IncData)
    &&& forall|i: int| k + 2 <= i < 2 * k + 2 ==> #[trigger] body[i] == Tree::Scalar(ptr_op(!forward))
}

/// The tree with every loop of one of the three shapes rewritten to a
/// single node, the shapes tried on a loop before its body is looked into.
pub open spec fn optimize(t: Tree) -> Tree
    decreases t,
{
    match t {
        Tree::Loop(body) => {
            if is_set_zero(body) {
                Tree::SetDataToZero
            } else if is_move_ptr(body, true) {
                Tree::MovePtrUntilZero { forward: true, amount: body.len() }
            } else if is_move_ptr(body, false) {
                Tree::MovePtrUntilZero { forward: false, amount: body.len() }
            } else if is_move_data(body, true) {
                Tree::MoveData { forward: true, amount: ((body.len() - 2) / 2) as nat }
            } else if is_move_data(body, false) {
                Tree::MoveData { forward: false, amount: ((body.len() - 2) / 2) as nat }
            } else {
                Tree::Loop(
                    Seq::new(
                        body.len(),
                        |i: int|
                            if 0 <= i < body.len() {
                                optimize(body[i])
                            } else {
                                // No index out of range is ever asked for.
                                Tree::SetDataToZero
                            },
                    ),
                )
            }
        },
        _ => t,
    }
}

/// Every tree of a sequence optimized.
pub open spec fn optimize_all(ts: Seq<Tree>) -> Seq<Tree> {
    Seq::new(ts.len(), |i: int| optimize(ts[i]))
}

/// A loop of none of the three shapes keeps its place around its optimized
/// body.
pub proof fn lemma_optimize_loop(body: Seq<Tree>)
    requires
        !is_set_zero(body),
        !is_move_ptr(body, true),
        !is_move_ptr(body, false),
        !is_move_data(body, true),
        !is_move_data(body, false),
    ensures
        optimize(Tree::Loop(body)) == Tree::Loop(optimize_all(body)),
{
    assert(optimize(Tree::Loop(body))->Loop_0 =~= optimize_all(body));
}

/// Optimizing turns nothing into a command and no command into anything
/// else.
pub proof fn lemma_optimize_scalar(t: Tree, op: OpCode)
    ensures
        (optimize(t) == Tree::Scalar(op)) == (t == Tree::Scalar(op)),
{
}

/// The three shapes look at commands alone, so an optimized body has a
/// shape if and only if the body had it.
pub proof fn lemma_shapes_kept(body: Seq<Tree>)
    ensures
        is_set_zero(optimize_all(body)) == is_set_zero(body),
        is_move_ptr(optimize_all(body), true) == is_move_ptr(body, true),
        is_move_ptr(optimize_all(body), false) == is_move_ptr(body, false),
        is_move_data(optimize_all(body), true) == is_move_data(body, true),
        is_move_data(optimize_all(body), false) == is_move_data(body, false),
{
    let opt = optimize_all(body);
    assert forall|op: OpCode| all_are(opt, op) == all_are(body, op) by {
        if all_are(body, op) {
            assert forall|i: int| 0 <= i < opt.len() implies #[trigger] opt[i] == Tree::Scalar(
                op,
            ) by {
                assert(body[i] == Tree::Scalar(op));
            }
        }
        if all_are(opt, op) {
            assert forall|i: int| 0 <= i < body.len() implies #[trigger] body[i] == Tree::Scalar(
                op,
            ) by {
                assert(opt[i] == Tree::Scalar(op));
                lemma_optimize_scalar(body[i], op);
            }
        }
    }
    assert forall|forward: bool| is_move_data(opt, forward) == is_move_data(body, forward) by {
        let k = (body.len() - 2) / 2;
        if 1 <= k && body.len() == 2 * k + 2 {
            lemma_optimize_scalar(body[0], OpCode::DecData);
            lemma_optimize_scalar(body[k + 1], OpCode::IncData);
            if is_move_data(body, forward) {
                assert forall|i: int| 1 <= i <= k implies #[trigger] opt[i] == Tree::Scalar(
                    ptr_op(forward),
                ) by {
                    assert(body[i] == Tree::Scalar(ptr_op(forward)));
                }
                assert forall|i: int| k + 2 <= i < 2 * k + 2 implies #[trigger] opt[i]
                    == Tree::Scalar(ptr_op(!forward)) by {
                    assert(body[i] == Tree::Scalar(ptr_op(!forward)));
                }
            }
            if is_move_data(opt, forward) {
                assert forall|i: int| 1 <= i <= k implies #[trigger] body[i] == Tree::Scalar(
                    ptr_op(forward),
                ) by {
                    assert(opt[i] == Tree::Scalar(ptr_op(forward)));
                    lemma_optimize_scalar(body[i], ptr_op(forward));
                }
                assert forall|i: int| k + 2 <= i < 2 * k + 2 implies #[trigger] body[i]
                    == Tree::Scalar(ptr_op(!forward)) by {
                    assert(opt[i] == Tree::Scalar(ptr_op(!forward)));
                    lemma_optimize_scalar(body[i], ptr_op(!forward));
                }
            }
        }
    }
}

/// Optimizing is idempotent: on an optimized tree it changes nothing.
pub proof fn lemma_optimize_idempotent(t: Tree)
    ensures
        optimize(optimize(t)) == optimize(t),
    decreases t,
{
    match t {
        Tree::Loop(body) => {
            if is_set_zero(body) || is_move_ptr(body, true) || is_move_ptr(body, false)
                || is_move_data(body, true) || is_move_data(body, false) {
            } else {
                let opt = optimize_all(body);
                lemma_optimize_loop(body);
                lemma_shapes_kept(body);
                lemma_optimize_loop(opt);
                assert forall|i: int| 0 <= i < body.len() implies optimize(opt[i]) == opt[i] by {
                    lemma_optimize_idempotent(body[i]);
                }
                assert(optimize_all(opt) =~= opt);
            }
        },
        _ => {},
    }
}

/// Optimizing a whole program is idempotent.
pub proof fn lemma_optimize_all_idempotent(ts: Seq<Tree>)
    ensures
        optimize_all(optimize_all(ts)) == optimize_all(ts),
{
    assert forall|i: int| 0 <= i < ts.len() implies optimize(optimize_all(ts)[i]) == optimize_all(
        ts,
    )[i] by {
        lemma_optimize_idempotent(ts[i]);
    }
    assert(optimize_all(optimize_all(ts)) =~= optimize_all(ts));
}

/// Whether a node is the node of the command `op`.
fn is_scalar(node: &AstNode, op: OpCode) -> (r: bool)
    ensures
        r == (node@ == Tree::Scalar(op)),
{
    match node {
        AstNode::IncPtr => op == OpCode::IncPtr,
        AstNode::DecPtr => op == OpCode::DecPtr,
        AstNode::IncData => op == OpCode::IncData,
        AstNode::DecData => op == OpCode::DecData,
        AstNode::Read => op == OpCode::Read,
        AstNode::Write => op == OpCode::Write,
        _ => false,
    }
}

/// Whether the nodes from `from` up to `to` are all the node of `op`.
fn all_nodes_are(seq: &AstSeq, from: usize, to: usize, op: OpCode) -> (r: bool)
    requires
        from <= to <= seq.children@.len(),
    ensures
        r == forall|i: int| from <= i < to ==> #[trigger] seq@[i] == Tree::Scalar(op),
{
    let mut i: usize = from;
    while i < to
        invariant
            from <= i <= to <= seq.children@.len(),
            forall|k: int| from <= k < i ==> #[trigger] seq@[k] == Tree::Scalar(op),
        decreases to - i,
    {
        if !is_scalar(&seq.children[i], op) {
            assert(seq@[i as int] != Tree::Scalar(op));
            return false;
        }
        i += 1;
    }
    true
}

/// A body of `+` alone, or of `-` alone.
fn check_set_data_to_zero_pattern(seq: &AstSeq) -> (r: bool)
    ensures
        r == is_set_zero(seq@),
{
    let len = seq.children.len();
    len > 0 && (all_nodes_are(seq, 0, len, OpCode::IncData) || all_nodes_are(
        seq,
        0,
        len,
        OpCode::DecData,
    ))
}

/// A body of `>` alone, or of `<` alone: the direction and the stride.
fn check_move_ptr_until_zero_pattern(seq: &AstSeq) -> (r: Option<(bool, u32)>)
    ensures
        match r {
            Some((forward, amount)) => is_move_ptr(seq@, forward) && amount == seq@.len(),
            None => !is_move_ptr(seq@, true) && !is_move_ptr(seq@, false),
        },
{
    let len = seq.children.len();
    if len == 0 || len > MAX_COMMANDS {
        None
    } else if all_nodes_are(seq, 0, len, OpCode::IncPtr) {
        Some((true, len as u32))
    } else if all_nodes_are(seq, 0, len, OpCode::DecPtr) {
        Some((false, len as u32))
    } else {
        None
    }
}

/// A body that moves the current cell: `-`, a run of `>` or of `<`, `+`,
/// and a run of the opposite that is exactly as long. The direction of the
/// first run and its length.
fn check_move_data_pattern(seq: &AstSeq) -> (r: Option<(bool, u32)>)
    ensures
        match r {
            Some((forward, amount)) => is_move_data(seq@, forward) && amount == (seq@.len() - 2)
                / 2,
            None => !is_move_data(seq@, true) && !is_move_data(seq@, false),
        },
{
    let len = seq.children.len();
    if len < 4 || len % 2 != 0 {
        return None;
    }
    let k = (len - 2) / 2;
    if k > MAX_COMMANDS {
        return None;
    }
    if !is_scalar(&seq.children[0], OpCode::DecData) {
        return None;
    }
    let forward = if is_scalar(&seq.children[1], OpCode::IncPtr) {
        true
    } else if is_scalar(&seq.children[1], OpCode::DecPtr) {
        false
    } else {
        assert(seq@[1] != Tree::Scalar(ptr_op(true)) && seq@[1] != Tree::Scalar(ptr_op(false)));
        return None;
    };
    let (first, second) = if forward {
        (OpCode::IncPtr, OpCode::DecPtr)
    } else {
        (OpCode::DecPtr, OpCode::IncPtr)
    };
    assert(seq@[1] != Tree::Scalar(ptr_op(!forward)));
    if !all_nodes_are(seq, 1, k + 1, first) {
        return None;
    }
    if !is_scalar(&seq.children[k + 1], OpCode::IncData) {
        return None;
    }
    if !all_nodes_are(seq, k + 2, 2 * k + 2, second) {
        return None;
    }
    Some((forward, k as u32))
}

/// A copy of a node that is no loop.
fn copy_leaf(node: &AstNode) -> (r: AstNode)
    requires
        !(node is Loop),
    ensures
        r@ == node@,
{
    match node {
        AstNode::IncPtr => AstNode::IncPtr,
        AstNode::DecPtr => AstNode::DecPtr,
        AstNode::IncData => AstNode::IncData,
        AstNode::DecData => AstNode::DecData,
        AstNode::Read => AstNode::Read,
        AstNode::Write => AstNode::Write,
        AstNode::SetDataToZero => AstNode::SetDataToZero,
        AstNode::MovePtrUntilZero { forward, amount } => AstNode::MovePtrUntilZero {
            forward: *forward,
            amount: *amount,
        },
        AstNode::MoveData { forward, amount } => AstNode::MoveData {
            forward: *forward,
            amount: *amount,
        },
        AstNode::Loop { .. } => AstNode::SetDataToZero,
    }
}

/// Rewrites a loop of one of the three shapes to its node, and looks into
/// the body of any other loop.
fn optimize_node(node: &AstNode) -> (r: AstNode)
    ensures
        r@ == optimize(node@),
    decreases node,
{
    match node {
        AstNode::Loop { seq } => {
            proof {
                lemma_view_loop(*node);
                if is_move_ptr(seq@, true) && is_move_ptr(seq@, false) {
                    assert(seq@[0] == Tree::Scalar(OpCode::IncPtr));
                    assert(seq@[0] == Tree::Scalar(OpCode::DecPtr));
                }
                if is_move_data(seq@, true) && is_move_data(seq@, false) {
                    assert(seq@[1] == Tree::Scalar(OpCode::IncPtr));
                    assert(seq@[1] == Tree::Scalar(OpCode::DecPtr));
                }
            }
            if check_set_data_to_zero_pattern(seq) {
                AstNode::SetDataToZero
            } else if let Some((forward, amount)) = check_move_ptr_until_zero_pattern(seq) {
                AstNode::MovePtrUntilZero { forward, amount }
            } else if let Some((forward, amount)) = check_move_data_pattern(seq) {
                AstNode::MoveData { forward, amount }
            } else {
                let optimized = optimize_seq(seq);
                let r = AstNode::Loop { seq: optimized };
                proof {
                    lemma_optimize_loop(seq@);
                    lemma_view_loop(r);
                }
                r
            }
        },
        _ => copy_leaf(node),
    }
}

/// Optimizes every node of a sequence.
fn optimize_seq(seq: &AstSeq) -> (r: AstSeq)
    ensures
        r@ == optimize_all(seq@),
    decreases seq,
{
    let mut children: Vec<AstNode> = Vec::new();
    let mut i: usize = 0;
    while i < seq.children.len()
        invariant
            0 <= i <= seq.children@.len(),
            children@.len() == i,
            forall|k: int| 0 <= k < i ==> #[trigger] children@[k]@ == optimize(seq@[k]),
        decreases seq.children@.len() - i,
    {
        proof {
            assert(decreases_to!(seq.children => seq.children[i as int]));
            assert(decreases_to!(*seq => seq.children));
        }
        let node = optimize_node(&seq.children[i]);
        children.push(node);
        i += 1;
    }
    let r = AstSeq { children };
    proof {
        assert(r@ =~= optimize_all(seq@));
    }
    r
}

/// Rewrites every loop of one of the three recurring shapes to a single
/// node: a loop that clears the current cell, a loop that moves the data
/// pointer until it stands on a zero cell, and a loop that moves the
/// current cell to another one. The shapes are tried on a loop before its
/// body is looked into.
pub fn optimize_loops(seq: AstSeq) -> (r: AstSeq)
    ensures
        r@ == optimize_all(seq@),
{
    optimize_seq(&seq)
}

/// The instruction that stands for `count` copies of a tree that is no
/// loop.
pub open spec fn instruction_of(t: Tree, count: nat) -> Instruction {
    match t {
        Tree::Scalar(OpCode::IncPtr) => Instruction::IncPtr { count: count as u32 },
        Tree::Scalar(OpCode::DecPtr) => Instruction::DecPtr { count: count as u32 },
        Tree::Scalar(OpCode::IncData) => Instruction::IncData { count: count as u32 },
        Tree::Scalar(OpCode::DecData) => Instruction::DecData { count: count as u32 },
        Tree::Scalar(OpCode::Read) => Instruction::Read { count: count as u32 },
        Tree::Scalar(_) => Instruction::Write { count: count as u32 },
        Tree::Loop(_) => Instruction::JumpBegin,
        Tree::SetDataToZero => Instruction::SetDataToZero,
        Tree::MovePtrUntilZero { forward, amount } => Instruction::MovePtrUntilZero {
            count: count as u32,
            forward,
            amount: amount as u32,
        },
        Tree::MoveData { forward, amount } => Instruction::MoveData {
            count: count as u32,
            forward,
            amount: amount as u32,
        },
    }
}

/// How many equal trees stand in a row up to and with `ts[n - 1]`.
pub open spec fn run_len(ts: Seq<Tree>, n: int) -> nat
    decreases n,
{
    if 2 <= n <= ts.len() && ts[n - 2] == ts[n - 1] {
        run_len(ts, n - 1) + 1
    } else {
        1
    }
}

/// The instruction stream of the first `n` trees: a loop becomes
/// `JumpBegin`, the stream of its body, and `JumpEnd`; any other tree
/// becomes an instruction of its own, or is counted into the instruction
/// before it where that one stands for the same tree.
pub open spec fn lower_upto(ts: Seq<Tree>, n: nat) -> Seq<Instruction>
    decreases ts, n,
{
    if n == 0 || n > ts.len() {
        Seq::empty()
    } else {
        let prev = lower_upto(ts, (n - 1) as nat);
        match ts[n - 1] {
            Tree::Loop(body) => prev + seq![Instruction::JumpBegin] + lower_upto(body, body.len())
                + seq![Instruction::JumpEnd],
            t => if n >= 2 && ts[n - 2] == t {
                prev.drop_last().push(instruction_of(t, run_len(ts, n as int)))
            } else {
                prev.push(instruction_of(t, 1))
            },
        }
    }
}

/// The instruction stream of a sequence of trees.
pub open spec fn lower(ts: Seq<Tree>) -> Seq<Instruction> {
    lower_upto(ts, ts.len())
}

/// A run of equal trees that are no loops becomes one instruction with the
/// length of the run for its count.
pub proof fn lemma_lower_run(ts: Seq<Tree>, i: int, j: int)
    requires
        0 <= i < j <= ts.len(),
        !(ts[i] is Loop),
        forall|m: int| i <= m < j ==> ts[m] == ts[i],
        i > 0 ==> ts[i - 1] != ts[i],
    ensures
        lower_upto(ts, j as nat) == lower_upto(ts, i as nat).push(
            instruction_of(ts[i], (j - i) as nat),
        ),
        run_len(ts, j) == j - i,
    decreases j - i,
{
    if j > i + 1 {
        lemma_lower_run(ts, i, j - 1);
        assert(ts[j - 2] == ts[i]);
        assert(ts[j - 1] == ts[i]);
        let low = lower_upto(ts, i as nat);
        let x = instruction_of(ts[i], (j - 1 - i) as nat);
        assert(low.push(x).drop_last() =~= low);
    } else {
        assert(ts[j - 1] == ts[i]);
    }
}

impl Instruction {
    /// By how much the instruction changes the nesting level.
    pub open spec fn delta(self) -> int {
        match self {
            Instruction::JumpBegin => 1,
            Instruction::JumpEnd => -1,
            _ => 0,
        }
    }
}

/// The nesting changes of an instruction stream.
pub open spec fn jdeltas(ins: Seq<Instruction>) -> Seq<int> {
    ins.map_values(|i: Instruction| i.delta())
}

/// The instruction stream of a tree is balanced: every `JumpBegin` has its
/// `JumpEnd`.
pub proof fn lemma_lower_balanced(ts: Seq<Tree>, n: nat)
    requires
        n <= ts.len(),
    ensures
        balanced(jdeltas(lower_upto(ts, n))),
        n > 0 && !(ts[n - 1] is Loop) ==> lower_upto(ts, n).len() > 0 && lower_upto(
            ts,
            n,
        ).last().delta() == 0,
    decreases ts, n,
{
    if n == 0 {
        assert(jdeltas(lower_upto(ts, n)) =~= Seq::<int>::empty());
    } else {
        let prev = lower_upto(ts, (n - 1) as nat);
        lemma_lower_balanced(ts, (n - 1) as nat);
        match ts[n - 1] {
            Tree::Loop(body) => {
                lemma_lower_balanced(body, body.len());
                let inner = lower_upto(body, body.len());
                lemma_balanced_wrap(jdeltas(inner));
                lemma_balanced_concat(
                    jdeltas(prev),
                    seq![1int] + jdeltas(inner) + seq![-1int],
                );
                assert(jdeltas(lower_upto(ts, n)) =~= jdeltas(prev) + (seq![1int] + jdeltas(inner)
                    + seq![-1int]));
            },
            t => {
                if n >= 2 && ts[n - 2] == t {
                    let x = instruction_of(t, run_len(ts, n as int));
                    assert(jdeltas(prev.drop_last().push(x)) =~= jdeltas(prev));
                } else {
                    let x = instruction_of(t, 1);
                    lemma_balanced_push(jdeltas(prev));
                    assert(jdeltas(prev.push(x)) =~= jdeltas(prev).push(0));
                }
            },
        }
    }
}

/// Optimizing makes no body longer and gives no amount that is too large.
pub proof fn lemma_optimize_fits(t: Tree)
    requires
        fits(t),
    ensures
        fits(optimize(t)),
    decreases t,
{
    match t {
        Tree::Loop(body) => {
            if is_set_zero(body) || is_move_ptr(body, true) || is_move_ptr(body, false)
                || is_move_data(body, true) || is_move_data(body, false) {
            } else {
                lemma_optimize_loop(body);
                let opt = optimize_all(body);
                assert forall|i: int| 0 <= i < opt.len() implies fits(#[trigger] opt[i]) by {
                    lemma_optimize_fits(body[i]);
                }
            }
        },
        _ => {},
    }
}

/// Optimizing keeps a sequence within its bounds.
pub proof fn lemma_optimize_all_fit(ts: Seq<Tree>)
    requires
        all_fit(ts),
    ensures
        all_fit(optimize_all(ts)),
{
    let opt = optimize_all(ts);
    assert forall|i: int| 0 <= i < opt.len() implies fits(#[trigger] opt[i]) by {
        lemma_optimize_fits(ts[i]);
    }
}

/// Whether two nodes are equal, where the second is no loop.
fn same_leaf(a: &AstNode, b: &AstNode) -> (r: bool)
    requires
        !(b is Loop),
    ensures
        r == (a@ == b@),
{
    match (a, b) {
        (AstNode::IncPtr, AstNode::IncPtr) => true,
        (AstNode::DecPtr, AstNode::DecPtr) => true,
        (AstNode::IncData, AstNode::IncData) => true,
        (AstNode::DecData, AstNode::DecData) => true,
        (AstNode::Read, AstNode::Read) => true,
        (AstNode::Write, AstNode::Write) => true,
        (AstNode::SetDataToZero, AstNode::SetDataToZero) => true,
        (
            AstNode::MovePtrUntilZero { forward: f1, amount: a1 },
            AstNode::MovePtrUntilZero { forward: f2, amount: a2 },
        ) => *f1 == *f2 && *a1 == *a2,
        (
            AstNode::MoveData { forward: f1, amount: a1 },
            AstNode::MoveData { forward: f2, amount: a2 },
        ) => *f1 == *f2 && *a1 == *a2,
        _ => false,
    }
}

/// The stream of a loop: `JumpBegin`, the stream of the body, `JumpEnd`.
fn compile_loop(seq: &AstSeq) -> (r: Vec<Instruction>)
    requires
        all_fit(seq@),
    ensures
        r@ == seq![Instruction::JumpBegin] + lower(seq@) + seq![Instruction::JumpEnd],
    decreases seq, 1nat,
{
    let mut children = compile_seq(seq);
    let mut instructions: Vec<Instruction> = Vec::new();
    instructions.push(Instruction::JumpBegin);
    instructions.append(&mut children);
    instructions.push(Instruction::JumpEnd);
    proof {
        assert(instructions@ =~= seq![Instruction::JumpBegin] + lower(seq@)
            + seq![Instruction::JumpEnd]);
    }
    instructions
}

/// The instruction for `count` copies of a node that is no loop.
fn compile_node(node: &AstNode, count: u32) -> (r: Instruction)
    requires
        !(node is Loop),
    ensures
        r == instruction_of(node@, count as nat),
{
    match node {
        AstNode::IncPtr => Instruction::IncPtr { count },
        AstNode::DecPtr => Instruction::DecPtr { count },
        AstNode::IncData => Instruction::IncData { count },
        AstNode::DecData => Instruction::DecData { count },
        AstNode::Read => Instruction::Read { count },
        AstNode::Write => Instruction::Write { count },
        AstNode::SetDataToZero => Instruction::SetDataToZero,
        AstNode::MovePtrUntilZero { forward, amount } => Instruction::MovePtrUntilZero {
            count,
            forward: *forward,
            amount: *amount,
        },
        AstNode::MoveData { forward, amount } => Instruction::MoveData {
            count,
            forward: *forward,
            amount: *amount,
        },
        AstNode::Loop { .. } => Instruction::JumpBegin,
    }
}

/// The stream of a sequence of nodes.
fn compile_seq(seq: &AstSeq) -> (r: Vec<Instruction>)
    requires
        all_fit(seq@),
    ensures
        r@ == lower(seq@),
    decreases seq, 0nat,
{
    let ghost ts = seq@;
    let len = seq.children.len();
    let mut instructions: Vec<Instruction> = Vec::new();
    let mut i: usize = 0;
    while i < len
        invariant
            ts == seq@,
            all_fit(ts),
            len == seq.children@.len(),
            0 <= i <= len,
            instructions@ == lower_upto(ts, i as nat),
            0 < i < len && !(ts[i as int] is Loop) ==> ts[i - 1] != ts[i as int],
        decreases len - i,
    {
        proof {
            assert(decreases_to!(seq.children => seq.children[i as int]));
            assert(decreases_to!(*seq => seq.children));
        }
        let node = &seq.children[i];
        assert(node@ == ts[i as int]);
        match node {
            AstNode::Loop { seq: body } => {
                proof {
                    lemma_view_loop(*node);
                    assert(decreases_to!(*node => node->seq));
                    assert(fits(ts[i as int]));
                    assert(all_fit(body@));
                }
                let mut lowered = compile_loop(body);
                instructions.append(&mut lowered);
                proof {
                    assert(instructions@ =~= lower_upto(ts, (i + 1) as nat));
                }
                i += 1;
            },
            _ => {
                let mut count: u32 = 1;
                let mut j: usize = i + 1;
                while j < len && same_leaf(&seq.children[j], node)
                    invariant
                        ts == seq@,
                        len == seq.children@.len(),
                        len <= MAX_COMMANDS,
                        i < j <= len,
                        count == j - i,
                        node@ == ts[i as int],
                        !(node is Loop),
                        forall|m: int| i <= m < j ==> ts[m] == ts[i as int],
                    decreases len - j,
                {
                    count += 1;
                    j += 1;
                }
                let instruction = compile_node(node, count);
                proof {
                    assert(!(ts[i as int] is Loop));
                    lemma_lower_run(ts, i as int, j as int);
                }
                instructions.push(instruction);
                i = j;
            },
        }
    }
    instructions
}

/// Flattens a syntax tree to its instruction stream. Equal nodes in a row
/// become one instruction with the length of the row for its count; a loop
/// becomes `JumpBegin`, the stream of its body, and `JumpEnd`.
pub fn compile(seq: AstSeq) -> (r: Vec<Instruction>)
    requires
        all_fit(seq@),
    ensures
        r@ == lower(seq@),
{
    compile_seq(&seq)
}

/// Whether `ast` is the syntax tree of the source `src`.
pub open spec fn is_ast_of(src: Seq<u8>, ast: Seq<Tree>) -> bool {
    all_plain(ast) && all_fit(ast) && flatten(ast) == tokens(src)
}

/// A source has one syntax tree only.
pub proof fn lemma_is_ast_of_unique(src: Seq<u8>, a: Seq<Tree>, b: Seq<Tree>)
    requires
        is_ast_of(src, a),
        is_ast_of(src, b),
    ensures
        a == b,
{
    lemma_ast_unique(a, b);
}

/// Parses a source into its optimized instruction stream: the syntax tree
/// is built, its loops of the three recurring shapes are rewritten, and the
/// tree is flattened.
///
/// Fails with `Parse` where a bracket has no partner, naming the first such
/// bracket by its source index, and with `Numeric` where a balanced source
/// holds more commands than a count can tell.
pub fn parse(source_code: &str) -> (r: BfResult<Program>)
    ensures
        ({
            let src = source_code.spec_bytes();
            let ops = tokens(src);
            &&& r is Ok <==> balanced(deltas(ops)) && ops.len() <= MAX_COMMANDS
            &&& r matches Ok(program) ==> exists|ast: Seq<Tree>| #[trigger]
                is_ast_of(src, ast) && program.instructions@ == lower(optimize_all(ast))
            &&& r matches Err(e) ==> if balanced(deltas(ops)) {
                e.is_numeric(narrowing_text())
            } else {
                exists|k: int|
                    first_offender(deltas(ops), k) && e.is_parse(unmatched_at_index(src, k))
            }
        }),
{
    let scan = tokenize(source_code);
    match check_brackets_at_index(&scan) {
        Some(e) => {
            return Err(e);
        },
        None => {},
    }
    // Counts and amounts have 32 bits: no run and no body may be longer.
    if scan.opcodes.len() > MAX_COMMANDS {
        return Err(narrowing_failed());
    }
    let ast = build(&scan.opcodes);
    let ghost plain_ast = ast@;
    let ast = optimize_loops(ast);
    proof {
        lemma_optimize_all_fit(plain_ast);
    }
    let instructions = compile(ast);
    proof {
        assert(is_ast_of(source_code.spec_bytes(), plain_ast));
    }
    Ok(Program { instructions })
}

} // verus!
