//! Bracket matching, stated over the nesting changes of a command sequence:
//! `+1` where a loop opens, `-1` where one closes, `0` elsewhere.

use vstd::prelude::*;
use crate::error::{
    parse_error_at, unmatched_close_at_index, unmatched_close_at_pc, unmatched_open_at_index,
    unmatched_open_at_pc, BfError,
};
use crate::source::{positions, scan_of, tokens, OpCode, Tokens};

verus! {

/// By how much a command changes the nesting level.
pub open spec fn bracket_delta(op: OpCode) -> int {
    match op {
        OpCode::JumpIfZero => 1,
        OpCode::JumpIfNotZero => -1,
        _ => 0,
    }
}

/// The nesting changes of a command sequence.
pub open spec fn deltas(ops: Seq<OpCode>) -> Seq<int> {
    ops.map_values(|op: OpCode| bracket_delta(op))
}

/// Every entry is `-1`, `0` or `1`.
pub open spec fn unit_steps(d: Seq<int>) -> bool {
    forall|i: int| 0 <= i < d.len() ==> -1 <= #[trigger] d[i] <= 1
}

/// The nesting level in front of index `n`: opened minus closed before it.
pub open spec fn depth(d: Seq<int>, n: int) -> int
    decreases n,
{
    if n <= 0 {
        0
    } else {
        depth(d, n - 1) + d[n - 1]
    }
}

/// No prefix closes more loops than it opens.
pub open spec fn nests(d: Seq<int>) -> bool {
    forall|k: int| 0 <= k <= d.len() ==> #[trigger] depth(d, k) >= 0
}

/// Every loop that opens is closed, and nothing else is closed.
pub open spec fn balanced(d: Seq<int>) -> bool {
    nests(d) && depth(d, d.len() as int) == 0
}

/// The bracket at `i` opens the loop that the bracket at `j` closes.
pub open spec fn is_pair(d: Seq<int>, i: int, j: int) -> bool {
    &&& 0 <= i < j < d.len()
    &&& d[i] == 1
    &&& d[j] == -1
    &&& depth(d, j + 1) == depth(d, i)
    &&& forall|k: int| i < k <= j ==> #[trigger] depth(d, k) > depth(d, i)
}

/// The opening bracket at `i` is never closed.
pub open spec fn unmatched_open(d: Seq<int>, i: int) -> bool {
    &&& 0 <= i < d.len()
    &&& d[i] == 1
    &&& forall|k: int| i < k <= d.len() ==> #[trigger] depth(d, k) > depth(d, i)
}

/// The closing bracket at `j` closes nothing that was opened.
pub open spec fn unmatched_close(d: Seq<int>, j: int) -> bool {
    &&& 0 <= j < d.len()
    &&& d[j] == -1
    &&& forall|k: int| 0 <= k <= j ==> #[trigger] depth(d, k) > depth(d, j + 1)
}

/// The bracket at `i` has no partner.
pub open spec fn offender(d: Seq<int>, i: int) -> bool {
    unmatched_open(d, i) || unmatched_close(d, i)
}

/// The bracket at `i` has no partner, and every bracket before it has one.
pub open spec fn first_offender(d: Seq<int>, i: int) -> bool {
    &&& offender(d, i)
    &&& forall|m: int| 0 <= m < i ==> !#[trigger] offender(d, m)
}

/// `dest` gives each bracket its partner.
pub open spec fn resolves(d: Seq<int>, dest: Seq<int>) -> bool {
    &&& dest.len() == d.len()
    &&& forall|i: int| 0 <= i < d.len() && d[i] == 1 ==> is_pair(d, i, #[trigger] dest[i])
    &&& forall|j: int| 0 <= j < d.len() && d[j] == -1 ==> is_pair(d, #[trigger] dest[j], j)
}

/// The partner of the bracket at `i`, where it has one.
pub open spec fn partner(d: Seq<int>, i: int) -> int {
    choose|j: int| is_pair(d, i, j) || is_pair(d, j, i)
}

/// The message `unmatched '[' at pc=N` or `unmatched ']' at pc=N` for the
/// bracket that is command `k` of the source, with its source index for `N`.
pub open spec fn unmatched_at_pc(src: Seq<u8>, k: int) -> Seq<char> {
    if deltas(tokens(src))[k] == 1 {
        unmatched_open_at_pc(positions(src)[k] as nat)
    } else {
        unmatched_close_at_pc(positions(src)[k] as nat)
    }
}

/// The message `Unmatched '[' at index N.` or `Unmatched ']' at index N.` for
/// the bracket that is command `k` of the source, with its source index for
/// `N`.
pub open spec fn unmatched_at_index(src: Seq<u8>, k: int) -> Seq<char> {
    if deltas(tokens(src))[k] == 1 {
        unmatched_open_at_index(positions(src)[k] as nat)
    } else {
        unmatched_close_at_index(positions(src)[k] as nat)
    }
}

/// The message `unmatched '[' at pc=N` or `unmatched ']' at pc=N` for the
/// bracket at `k`, with the position recorded for it for `N`.
pub open spec fn unmatched_at_pc_is(d: Seq<int>, places: Seq<usize>, k: int) -> Seq<char> {
    if d[k] == 1 {
        unmatched_open_at_pc(places[k] as nat)
    } else {
        unmatched_close_at_pc(places[k] as nat)
    }
}

/// The message `Unmatched '[' at index N.` or `Unmatched ']' at index N.` for
/// the bracket at `k`, with the position recorded for it for `N`.
pub open spec fn unmatched_at_index_is(d: Seq<int>, places: Seq<usize>, k: int) -> Seq<char> {
    if d[k] == 1 {
        unmatched_open_at_index(places[k] as nat)
    } else {
        unmatched_close_at_index(places[k] as nat)
    }
}

/// The nesting changes of a command sequence are unit steps.
pub proof fn lemma_deltas_unit(ops: Seq<OpCode>)
    ensures
        unit_steps(deltas(ops)),
        deltas(ops).len() == ops.len(),
{
}

/// The nesting level only reads what stands before the index.
pub proof fn lemma_depth_prefix(d: Seq<int>, e: Seq<int>, n: int)
    requires
        0 <= n <= d.len(),
        n <= e.len(),
        forall|k: int| 0 <= k < n ==> d[k] == e[k],
    ensures
        depth(d, n) == depth(e, n),
    decreases n,
{
    if n > 0 {
        lemma_depth_prefix(d, e, n - 1);
    }
}

/// A bracket has at most one partner.
pub proof fn lemma_pair_unique(d: Seq<int>, i: int, j: int, i2: int, j2: int)
    requires
        is_pair(d, i, j),
        is_pair(d, i2, j2),
        i == i2 || j == j2,
    ensures
        i == i2,
        j == j2,
{
    if i == i2 {
        if j < j2 {
            assert(depth(d, j + 1) > depth(d, i2));
        } else if j2 < j {
            assert(depth(d, j2 + 1) > depth(d, i));
        }
    } else {
        if i < i2 {
            assert(depth(d, i2) > depth(d, i));
        } else {
            assert(depth(d, i) > depth(d, i2));
        }
    }
}

/// The two brackets of a pair are each other's partner.
pub proof fn lemma_partner(d: Seq<int>, i: int, j: int)
    requires
        is_pair(d, i, j),
    ensures
        partner(d, i) == j,
        partner(d, j) == i,
{
    let a = partner(d, i);
    assert(is_pair(d, i, a));
    lemma_pair_unique(d, i, j, i, a);
    let b = partner(d, j);
    assert(is_pair(d, b, j));
    lemma_pair_unique(d, i, j, b, j);
}

/// In a balanced sequence every bracket has its partner: none offends.
pub proof fn lemma_balanced_no_offender(d: Seq<int>)
    requires
        balanced(d),
    ensures
        forall|i: int| !#[trigger] offender(d, i),
{
    assert forall|i: int| !#[trigger] offender(d, i) by {
        if unmatched_open(d, i) {
            assert(depth(d, i) >= 0);
            assert(depth(d, d.len() as int) > depth(d, i));
        }
        if unmatched_close(d, i) {
            assert(depth(d, 0) > depth(d, i + 1));
            assert(depth(d, i + 1) >= 0);
        }
    }
}

/// The first closing bracket that takes the nesting level below zero is the
/// first offender.
pub proof fn lemma_first_close_offends(d: Seq<int>, j: int)
    requires
        0 <= j < d.len(),
        d[j] == -1,
        depth(d, j) == 0,
        forall|k: int| 0 <= k <= j ==> #[trigger] depth(d, k) >= 0,
    ensures
        first_offender(d, j),
        unmatched_close(d, j),
{
    assert(depth(d, j + 1) == -1);
    assert(unmatched_close(d, j));
    assert forall|m: int| 0 <= m < j implies !#[trigger] offender(d, m) by {
        if unmatched_open(d, m) {
            assert(depth(d, m) >= 0);
            assert(depth(d, j + 1) > depth(d, m));
        }
        if unmatched_close(d, m) {
            assert(depth(d, 0) > depth(d, m + 1));
            assert(depth(d, m + 1) >= 0);
        }
    }
}

/// Where nothing closes too much, an opening bracket at level zero after
/// which the level stays above zero is the first offender.
pub proof fn lemma_outer_open_offends(d: Seq<int>, i: int)
    requires
        nests(d),
        0 <= i < d.len(),
        d[i] == 1,
        depth(d, i) == 0,
        forall|k: int| i < k <= d.len() ==> #[trigger] depth(d, k) > 0,
    ensures
        first_offender(d, i),
        unmatched_open(d, i),
{
    assert(unmatched_open(d, i));
    assert forall|m: int| 0 <= m < i implies !#[trigger] offender(d, m) by {
        if unmatched_open(d, m) {
            assert(depth(d, m) >= 0);
            assert(depth(d, i) > depth(d, m));
        }
        if unmatched_close(d, m) {
            assert(depth(d, 0) > depth(d, m + 1));
            assert(depth(d, m + 1) >= 0);
        }
    }
}

/// There is at most one first offender.
pub proof fn lemma_first_offender_unique(d: Seq<int>, i: int, j: int)
    requires
        first_offender(d, i),
        first_offender(d, j),
    ensures
        i == j,
{
    if i < j {
        assert(!offender(d, i));
    } else if j < i {
        assert(!offender(d, j));
    }
}

/// Walking back from a closing bracket, the opening bracket that it closes.
pub proof fn lemma_partner_of_close(d: Seq<int>, j: int) -> (i: int)
    requires
        unit_steps(d),
        0 <= j < d.len(),
        d[j] == -1,
        forall|k: int| 0 <= k <= j + 1 ==> #[trigger] depth(d, k) >= 0,
    ensures
        is_pair(d, i, j),
{
    let i = walk_back(d, j, j);
    assert(d[i] == 1) by {
        assert(depth(d, i + 1) > depth(d, j + 1));
    }
    i
}

proof fn walk_back(d: Seq<int>, j: int, k: int) -> (i: int)
    requires
        unit_steps(d),
        0 <= k <= j < d.len(),
        d[j] == -1,
        depth(d, 0) <= depth(d, j + 1),
        forall|m: int| k < m <= j ==> #[trigger] depth(d, m) > depth(d, j + 1),
        depth(d, k) >= depth(d, j + 1),
    ensures
        0 <= i <= k,
        i < j,
        depth(d, i) == depth(d, j + 1),
        forall|m: int| i < m <= j ==> #[trigger] depth(d, m) > depth(d, j + 1),
    decreases k,
{
    if depth(d, k) == depth(d, j + 1) {
        assert(depth(d, j) > depth(d, j + 1));
        k
    } else {
        assert(k > 0);
        assert(depth(d, k) == depth(d, k - 1) + d[k - 1]);
        walk_back(d, j, k - 1)
    }
}

/// Walking on from an opening bracket of a balanced sequence, the closing
/// bracket that closes it.
pub proof fn lemma_partner_of_open(d: Seq<int>, i: int) -> (j: int)
    requires
        unit_steps(d),
        balanced(d),
        0 <= i < d.len(),
        d[i] == 1,
    ensures
        is_pair(d, i, j),
{
    assert(depth(d, i + 1) == depth(d, i) + d[i]);
    assert(depth(d, i) >= 0);
    walk_on(d, i, i + 1)
}

proof fn walk_on(d: Seq<int>, i: int, k: int) -> (j: int)
    requires
        unit_steps(d),
        0 <= i < k <= d.len(),
        d[i] == 1,
        depth(d, d.len() as int) <= depth(d, i),
        forall|m: int| i < m <= k ==> #[trigger] depth(d, m) > depth(d, i),
    ensures
        is_pair(d, i, j),
    decreases d.len() - k,
{
    if k == d.len() {
        assert(depth(d, k) > depth(d, i));
        k
    } else {
        assert(depth(d, k + 1) == depth(d, k) + d[k]);
        assert(depth(d, k) > depth(d, i));
        if depth(d, k + 1) == depth(d, i) {
            k
        } else {
            walk_on(d, i, k + 1)
        }
    }
}

/// What stands behind a sequence does not change the nesting levels in it.
pub proof fn lemma_depth_push(d: Seq<int>, x: int)
    ensures
        forall|k: int| 0 <= k <= d.len() ==> #[trigger] depth(d.push(x), k) == depth(d, k),
        depth(d.push(x), d.len() as int + 1) == depth(d, d.len() as int) + x,
{
    let e = d.push(x);
    assert forall|k: int| 0 <= k <= d.len() implies #[trigger] depth(e, k) == depth(d, k) by {
        lemma_depth_prefix(e, d, k);
    }
    assert(depth(e, d.len() as int + 1) == depth(e, d.len() as int) + e[d.len() as int]);
}

/// A pair stays a pair where the sequence goes on behind it.
pub proof fn lemma_pair_push(d: Seq<int>, x: int, i: int, j: int)
    requires
        is_pair(d, i, j),
    ensures
        is_pair(d.push(x), i, j),
{
    lemma_depth_push(d, x);
}

/// The nesting level in two sequences put one behind the other.
pub proof fn lemma_depth_concat(a: Seq<int>, b: Seq<int>, n: int)
    requires
        0 <= n <= a.len() + b.len(),
    ensures
        depth(a + b, n) == if n <= a.len() {
            depth(a, n)
        } else {
            depth(a, a.len() as int) + depth(b, n - a.len())
        },
    decreases n,
{
    if n > 0 {
        lemma_depth_concat(a, b, n - 1);
        let c = a + b;
        assert(depth(c, n) == depth(c, n - 1) + c[n - 1]);
        if n <= a.len() {
            assert(c[n - 1] == a[n - 1]);
            assert(depth(a, n) == depth(a, n - 1) + a[n - 1]);
        } else {
            let m = n - a.len();
            assert(c[n - 1] == b[m - 1]);
            assert(depth(b, m) == depth(b, m - 1) + b[m - 1]);
        }
    }
}

/// Two balanced sequences, one behind the other, are balanced.
pub proof fn lemma_balanced_concat(a: Seq<int>, b: Seq<int>)
    requires
        balanced(a),
        balanced(b),
    ensures
        balanced(a + b),
{
    let c = a + b;
    assert forall|k: int| 0 <= k <= c.len() implies #[trigger] depth(c, k) >= 0 by {
        lemma_depth_concat(a, b, k);
        if k <= a.len() {
            assert(depth(a, k) >= 0);
        } else {
            assert(depth(b, k - a.len()) >= 0);
        }
    }
    lemma_depth_concat(a, b, c.len() as int);
}

/// A balanced sequence between an opening and a closing bracket is
/// balanced.
pub proof fn lemma_balanced_wrap(b: Seq<int>)
    requires
        balanced(b),
    ensures
        balanced(seq![1int] + b + seq![-1int]),
{
    let open = seq![1int];
    let close = seq![-1int];
    let ob = open + b;
    let c = ob + close;
    reveal_with_fuel(depth, 2);
    assert(depth(open, 1) == 1);
    assert(depth(close, 1) == -1);
    assert forall|k: int| 0 <= k <= ob.len() implies #[trigger] depth(ob, k) >= (if k > 0 {
        1int
    } else {
        0int
    }) by {
        lemma_depth_concat(open, b, k);
        if k > 1 {
            assert(depth(b, k - 1) >= 0);
        }
    }
    lemma_depth_concat(open, b, ob.len() as int);
    assert forall|k: int| 0 <= k <= c.len() implies #[trigger] depth(c, k) >= 0 by {
        lemma_depth_concat(ob, close, k);
        if k <= ob.len() {
            assert(depth(ob, k) >= 0);
        }
    }
    lemma_depth_concat(ob, close, c.len() as int);
}

/// Behind a balanced sequence, the brackets around another balanced
/// sequence are a pair.
pub proof fn lemma_wrapped_pair(p: Seq<int>, x: Seq<int>)
    requires
        balanced(p),
        balanced(x),
    ensures
        is_pair(
            p + (seq![1int] + x + seq![-1int]),
            p.len() as int,
            p.len() as int + x.len() as int + 1,
        ),
        balanced(p + (seq![1int] + x + seq![-1int])),
{
    let open = seq![1int];
    let close = seq![-1int];
    let ox = open + x;
    let w = ox + close;
    let d = p + w;
    reveal_with_fuel(depth, 2);
    assert(depth(open, 1) == 1);
    lemma_balanced_wrap(x);
    lemma_balanced_concat(p, w);
    let i = p.len() as int;
    let j = p.len() as int + x.len() as int + 1;
    lemma_depth_concat(p, w, i);
    lemma_depth_concat(p, w, j + 1);
    assert(depth(w, w.len() as int) == 0);
    assert forall|k: int| i < k <= j implies #[trigger] depth(d, k) > depth(d, i) by {
        lemma_depth_concat(p, w, k);
        lemma_depth_concat(ox, close, k - i);
        lemma_depth_concat(open, x, k - i);
        if k - i > 1 {
            assert(depth(x, k - i - 1) >= 0);
        }
    }
}

/// A balanced sequence with something that is no bracket behind it is
/// balanced.
pub proof fn lemma_balanced_push(a: Seq<int>)
    requires
        balanced(a),
    ensures
        balanced(a.push(0)),
{
    reveal_with_fuel(depth, 2);
    let z = seq![0int];
    assert(depth(z, 1) == 0);
    assert(balanced(z)) by {
        assert forall|k: int| 0 <= k <= z.len() implies #[trigger] depth(z, k) >= 0 by {
            if k == 1 {
            }
        }
    }
    lemma_balanced_concat(a, z);
    assert(a + z =~= a.push(0));
}

/// The partner of one's partner is oneself: a table that resolves the
/// brackets is its own inverse on them.
pub proof fn lemma_resolves_involution(d: Seq<int>, dest: Seq<int>, i: int)
    requires
        resolves(d, dest),
        0 <= i < d.len(),
        d[i] == 1 || d[i] == -1,
    ensures
        0 <= dest[i] < d.len(),
        d[dest[i]] == -d[i],
        dest[dest[i]] == i,
{
    if d[i] == 1 {
        let j = dest[i];
        assert(is_pair(d, i, j));
        assert(is_pair(d, dest[j], j));
        lemma_pair_unique(d, i, j, dest[j], j);
    } else {
        let o = dest[i];
        assert(is_pair(d, o, i));
        assert(is_pair(d, o, dest[o]));
        lemma_pair_unique(d, o, i, o, dest[o]);
    }
}

/// Two tables that resolve the same brackets agree on every bracket.
pub proof fn lemma_resolves_unique(d: Seq<int>, a: Seq<int>, b: Seq<int>, i: int)
    requires
        resolves(d, a),
        resolves(d, b),
        0 <= i < d.len(),
        d[i] == 1 || d[i] == -1,
    ensures
        a[i] == b[i],
{
    if d[i] == 1 {
        assert(is_pair(d, i, a[i]));
        assert(is_pair(d, i, b[i]));
        lemma_pair_unique(d, i, a[i], i, b[i]);
    } else {
        assert(is_pair(d, a[i], i));
        assert(is_pair(d, b[i], i));
        lemma_pair_unique(d, a[i], i, b[i], i);
    }
}

/// Finds the first bracket without a partner, with one pass and a nesting
/// counter: `None` where the brackets are balanced.
pub fn find_offender(ops: &Vec<OpCode>) -> (r: Option<usize>)
    ensures
        r is None <==> balanced(deltas(ops@)),
        r matches Some(i) ==> first_offender(deltas(ops@), i as int),
{
    let ghost d = deltas(ops@);
    let mut nesting: usize = 0;
    let mut outer: usize = 0;
    let mut i: usize = 0;
    while i < ops.len()
        invariant
            d == deltas(ops@),
            0 <= i <= ops@.len(),
            nesting as int == depth(d, i as int),
            nesting <= i,
            forall|k: int| 0 <= k <= i ==> #[trigger] depth(d, k) >= 0,
            nesting > 0 ==> outer < i && d[outer as int] == 1 && depth(d, outer as int) == 0
                && forall|k: int| outer < k <= i ==> #[trigger] depth(d, k) > 0,
        decreases ops@.len() - i,
    {
        assert(depth(d, i + 1) == depth(d, i as int) + d[i as int]);
        match ops[i] {
            OpCode::JumpIfZero => {
                if nesting == 0 {
                    outer = i;
                }
                nesting += 1;
            },
            OpCode::JumpIfNotZero => {
                if nesting == 0 {
                    proof {
                        lemma_first_close_offends(d, i as int);
                        assert(!nests(d)) by {
                            assert(depth(d, i + 1) < 0);
                        }
                    }
                    return Some(i);
                }
                nesting -= 1;
            },
            _ => {},
        }
        i += 1;
    }
    if nesting > 0 {
        proof {
            assert(nests(d));
            lemma_outer_open_offends(d, outer as int);
        }
        Some(outer)
    } else {
        None
    }
}

/// The first bracket of a scanned source that has no partner, as a `Parse`
/// error worded `unmatched '[' at pc=N`, with the bracket's source index;
/// `None` where the brackets are balanced.
pub fn check_brackets(scanned: &Tokens) -> (r: Option<BfError>)
    requires
        scanned.positions@.len() == scanned.opcodes@.len(),
    ensures
        r is None <==> balanced(deltas(scanned.opcodes@)),
        r matches Some(e) ==> exists|k: int|
            first_offender(deltas(scanned.opcodes@), k) && e.is_parse(
                unmatched_at_pc_is(deltas(scanned.opcodes@), scanned.positions@, k),
            ),
        forall|src: Seq<u8>| #[trigger]
            scan_of(*scanned, src) ==> (r matches Some(e) ==> exists|k: int|
                first_offender(deltas(tokens(src)), k) && e.is_parse(unmatched_at_pc(src, k))),
{
    match find_offender(&scanned.opcodes) {
        Some(k) => {
            let e = match scanned.opcodes[k] {
                OpCode::JumpIfZero => parse_error_at(
                    "unmatched '[' at pc=",
                    scanned.positions[k],
                    "",
                ),
                _ => parse_error_at("unmatched ']' at pc=", scanned.positions[k], ""),
            };
            proof {
                let d = deltas(scanned.opcodes@);
                let n = scanned.positions@[k as int] as nat;
                reveal_strlit("");
                assert(d[k as int] == 1 || d[k as int] == -1);
                assert(unmatched_open_at_pc(n) + ""@ =~= unmatched_open_at_pc(n));
                assert(unmatched_close_at_pc(n) + ""@ =~= unmatched_close_at_pc(n));
                assert(first_offender(d, k as int));
                assert forall|src: Seq<u8>| #[trigger] scan_of(*scanned, src) implies exists|
                    j: int,
                | first_offender(deltas(tokens(src)), j) && e.is_parse(unmatched_at_pc(src, j)) by {
                    assert(positions(src)[k as int] == scanned.positions@[k as int]);
                    assert(first_offender(deltas(tokens(src)), k as int) && e.is_parse(
                        unmatched_at_pc(src, k as int),
                    ));
                }
            }
            Some(e)
        },
        None => None,
    }
}

/// The same check, worded `Unmatched '[' at index N.`
pub fn check_brackets_at_index(scanned: &Tokens) -> (r: Option<BfError>)
    requires
        scanned.positions@.len() == scanned.opcodes@.len(),
    ensures
        r is None <==> balanced(deltas(scanned.opcodes@)),
        r matches Some(e) ==> exists|k: int|
            first_offender(deltas(scanned.opcodes@), k) && e.is_parse(
                unmatched_at_index_is(deltas(scanned.opcodes@), scanned.positions@, k),
            ),
        forall|src: Seq<u8>| #[trigger]
            scan_of(*scanned, src) ==> (r matches Some(e) ==> exists|k: int|
                first_offender(deltas(tokens(src)), k) && e.is_parse(unmatched_at_index(src, k))),
{
    match find_offender(&scanned.opcodes) {
        Some(k) => {
            let e = match scanned.opcodes[k] {
                OpCode::JumpIfZero => parse_error_at(
                    "Unmatched '[' at index ",
                    scanned.positions[k],
                    ".",
                ),
                _ => parse_error_at("Unmatched ']' at index ", scanned.positions[k], "."),
            };
            proof {
                let d = deltas(scanned.opcodes@);
                assert(d[k as int] == 1 || d[k as int] == -1);
                assert(first_offender(d, k as int));
                assert forall|src: Seq<u8>| #[trigger] scan_of(*scanned, src) implies exists|
                    j: int,
                |
                    first_offender(deltas(tokens(src)), j) && e.is_parse(
                        unmatched_at_index(src, j),
                    ) by {
                    assert(positions(src)[k as int] == scanned.positions@[k as int]);
                    assert(first_offender(deltas(tokens(src)), k as int) && e.is_parse(
                        unmatched_at_index(src, k as int),
                    ));
                }
            }
            Some(e)
        },
        None => None,
    }
}

/// Nesting changes held in bytes, as mathematical integers.
pub open spec fn nesting(changes: Seq<i8>) -> Seq<int> {
    changes.map_values(|c: i8| c as int)
}

/// The entries of a table of indices as mathematical integers.
pub open spec fn indices(table: Seq<usize>) -> Seq<int> {
    table.map_values(|t: usize| t as int)
}

/// The bracket at `q` opens at level `t` and nothing closes it up to `n`.
spec fn open_until(d: Seq<int>, q: int, t: int, n: int) -> bool {
    &&& 0 <= q < n
    &&& d[q] == 1
    &&& depth(d, q) == t
    &&& forall|m: int| q < m <= n ==> #[trigger] depth(d, m) > t
}

/// The closing bracket at `j` and its entry in the table point at each
/// other, and are a pair.
spec fn paired(d: Seq<int>, table: Seq<usize>, j: int) -> bool {
    &&& is_pair(d, table[j] as int, j)
    &&& table[table[j] as int] == j
}

/// What holds of the table and of the stack of open brackets when the
/// first `i` entries have been looked at.
#[verifier::opaque]
spec fn matching(d: Seq<int>, table: Seq<usize>, stack: Seq<usize>, i: int) -> bool {
    &&& table.len() == d.len()
    &&& 0 <= i <= d.len()
    &&& stack.len() == depth(d, i)
    &&& forall|t: int| 0 <= t < stack.len() ==> open_until(d, #[trigger] stack[t] as int, t, i)
    &&& forall|j: int| 0 <= j < i && d[j] == -1 ==> #[trigger] paired(d, table, j)
    &&& forall|k: int| 0 <= k < d.len() && d[k] == 0 ==> #[trigger] table[k] == 0
}

proof fn lemma_matching_start(d: Seq<int>, table: Seq<usize>)
    requires
        table.len() == d.len(),
        forall|k: int| 0 <= k < table.len() ==> #[trigger] table[k] == 0,
    ensures
        matching(d, table, Seq::empty(), 0),
{
    reveal(matching);
}

proof fn lemma_matching_skip(d: Seq<int>, table: Seq<usize>, stack: Seq<usize>, i: int)
    requires
        matching(d, table, stack, i),
        0 <= i < d.len(),
        d[i] == 0,
    ensures
        matching(d, table, stack, i + 1),
{
    reveal(matching);
    assert(depth(d, i + 1) == depth(d, i) + d[i]);
    assert forall|t: int| 0 <= t < stack.len() implies open_until(
        d,
        #[trigger] stack[t] as int,
        t,
        i + 1,
    ) by {
        assert(open_until(d, stack[t] as int, t, i));
    }
}

proof fn lemma_matching_open(d: Seq<int>, table: Seq<usize>, stack: Seq<usize>, i: int)
    requires
        matching(d, table, stack, i),
        0 <= i < d.len() <= usize::MAX,
        d[i] == 1,
    ensures
        matching(d, table, stack.push(i as usize), i + 1),
{
    reveal(matching);
    assert(depth(d, i + 1) == depth(d, i) + d[i]);
    let stack2 = stack.push(i as usize);
    assert forall|t: int| 0 <= t < stack2.len() implies open_until(
        d,
        #[trigger] stack2[t] as int,
        t,
        i + 1,
    ) by {
        if t < stack.len() {
            assert(open_until(d, stack[t] as int, t, i));
        }
    }
}

proof fn lemma_matching_top(d: Seq<int>, table: Seq<usize>, stack: Seq<usize>, i: int)
    requires
        matching(d, table, stack, i),
        nests(d),
        0 <= i < d.len(),
        d[i] == -1,
    ensures
        stack.len() > 0,
        stack.last() < i,
{
    reveal(matching);
    assert(depth(d, i + 1) == depth(d, i) + d[i]);
    assert(depth(d, i + 1) >= 0);
    let top = stack.len() - 1;
    assert(open_until(d, stack[top] as int, top, i));
}

proof fn lemma_matching_close(d: Seq<int>, table: Seq<usize>, stack: Seq<usize>, i: int)
    requires
        matching(d, table, stack, i),
        0 <= i < d.len() <= usize::MAX,
        d[i] == -1,
        stack.len() > 0,
    ensures
        matching(
            d,
            table.update(stack.last() as int, i as usize).update(i, stack.last()),
            stack.drop_last(),
            i + 1,
        ),
{
    reveal(matching);
    assert(depth(d, i + 1) == depth(d, i) + d[i]);
    let top = stack.len() - 1;
    let q = stack.last() as int;
    assert(open_until(d, stack[top] as int, top, i));
    let table2 = table.update(q, i as usize).update(i, stack.last());
    let stack2 = stack.drop_last();
    assert forall|t: int| 0 <= t < stack2.len() implies open_until(
        d,
        #[trigger] stack2[t] as int,
        t,
        i + 1,
    ) by {
        assert(open_until(d, stack[t] as int, t, i));
    }
    assert forall|j: int| 0 <= j < i + 1 && d[j] == -1 implies #[trigger] paired(
        d,
        table2,
        j,
    ) by {
        if j < i {
            assert(paired(d, table, j));
            if table[j] as int == q {
                assert(depth(d, j + 1) > top);
            }
        } else {
            assert(is_pair(d, q, i));
        }
    }
}

proof fn lemma_matching_done(d: Seq<int>, table: Seq<usize>, stack: Seq<usize>)
    requires
        matching(d, table, stack, d.len() as int),
        unit_steps(d),
        balanced(d),
    ensures
        resolves(d, indices(table)),
        forall|k: int| 0 <= k < d.len() && d[k] == 0 ==> #[trigger] table[k] == 0,
{
    reveal(matching);
    let dest = indices(table);
    assert forall|j: int| 0 <= j < d.len() && d[j] == -1 implies is_pair(
        d,
        #[trigger] dest[j],
        j,
    ) by {
        assert(paired(d, table, j));
    }
    assert forall|i: int| 0 <= i < d.len() && d[i] == 1 implies is_pair(
        d,
        i,
        #[trigger] dest[i],
    ) by {
        let j = lemma_partner_of_open(d, i);
        assert(paired(d, table, j));
        lemma_pair_unique(d, i, j, table[j] as int, j);
    }
}

/// The table that gives each bracket of a balanced sequence the index of
/// its partner, and zero to everything else; built in one pass with a stack
/// of the brackets that are open.
pub fn match_brackets(changes: &Vec<i8>) -> (table: Vec<usize>)
    requires
        unit_steps(nesting(changes@)),
        balanced(nesting(changes@)),
    ensures
        resolves(nesting(changes@), indices(table@)),
        forall|k: int|
            0 <= k < changes@.len() && changes@[k] == 0 ==> #[trigger] table@[k] == 0,
{
    let ghost d = nesting(changes@);
    let len = changes.len();
    let mut table: Vec<usize> = vec![0usize; len];
    let mut stack: Vec<usize> = Vec::new();
    let mut i: usize = 0;
    proof {
        lemma_matching_start(d, table@);
    }
    while i < len
        invariant
            d == nesting(changes@),
            unit_steps(d),
            balanced(d),
            len == changes@.len(),
            table@.len() == len,
            0 <= i <= len,
            matching(d, table@, stack@, i as int),
        decreases len - i,
    {
        let c = changes[i];
        assert(d[i as int] == c as int);
        if c == 1 {
            proof {
                lemma_matching_open(d, table@, stack@, i as int);
            }
            stack.push(i);
        } else if c == -1 {
            proof {
                lemma_matching_top(d, table@, stack@, i as int);
                lemma_matching_close(d, table@, stack@, i as int);
            }
            let ghost before = stack@;
            let open = stack.pop().unwrap();
            table[open] = i;
            table[i] = open;
            proof {
                assert(stack@ =~= before.drop_last());
            }
        } else {
            proof {
                assert(-1 <= d[i as int] <= 1);
                lemma_matching_skip(d, table@, stack@, i as int);
            }
        }
        i += 1;
    }
    proof {
        lemma_matching_done(d, table@, stack@);
    }
    table
}

} // verus!
