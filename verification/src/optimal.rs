//! Why no prefix code is shorter than the code of the Huffman tree.
//!
//! The proof follows the merging of the tree.  Any prefix code for the
//! nodes that wait can be changed, without growing longer, into one in which
//! the two least nodes have codewords that differ in the last bit alone;
//! these two can then be taken as one node with the sum of their counts.

use vstd::prelude::*;

use crate::huffman::{
    code_of, coded, counts, forest, huffman_tree, joined, least_index, leaves, lemma_counts_sum,
    lemma_join_keeps_forest, lemma_least_index, lemma_nonzero, lemma_total_of_nonnegative,
    lemma_total_of_push, lemma_total_of_remove, merged, node, node_ok, nonzero, rooted, sum_of,
    total_of,
    weight_lt,
};
use crate::utils::lemma_occurrences_bounds;

verus! {

/// No codeword starts another, nor is another.
pub open spec fn prefix_free(codes: Seq<Seq<bool>>) -> bool {
    forall|i: int, j: int|
        0 <= i < codes.len() && 0 <= j < codes.len() && i != j ==> !(#[trigger] codes[i]).is_prefix_of(
            #[trigger] codes[j],
        )
}

/// The number of bits that the codewords take when each is written as often
/// as the count of its node says.
pub open spec fn weighted_len(pending: Seq<(u32, usize)>, codes: Seq<Seq<bool>>) -> int
    decreases pending.len(),
{
    if pending.len() == 0 {
        0
    } else {
        weighted_len(pending.drop_last(), codes.drop_last()) + pending.last().0
            * codes.last().len()
    }
}

/// The number of bits that the merging of the nodes that wait costs: each
/// merge costs the sum of the counts of the two nodes merged.
pub open spec fn merge_cost(pending: Seq<(u32, usize)>, id: int) -> int
    decreases pending.len(),
{
    if pending.len() <= 1 {
        0
    } else {
        let a = least_index(pending);
        let rest = pending.remove(a);
        let b = least_index(rest);
        proof {
            lemma_least_index(pending);
            lemma_least_index(rest);
        }
        pending[a].0 + rest[b].0 + merge_cost(
            rest.remove(b).push(((pending[a].0 + rest[b].0) as u32, id as usize)),
            id + 1,
        )
    }
}

/// Multiplication goes through sums and differences.
proof fn lemma_mul_diff(w: int, x: int, y: int)
    ensures
        w * (x - y) == w * x - w * y,
        w * (x + 1) == w * x + w,
        (w + y) * x == w * x + y * x,
{
    assert(w * (x - y) == w * x - w * y) by (nonlinear_arith);
    assert(w * (x + 1) == w * x + w) by (nonlinear_arith);
    assert((w + y) * x == w * x + y * x) by (nonlinear_arith);
}

/// What is not positive, taken a number of times that is not negative, is not
/// positive.
proof fn lemma_mul_sign(w: int, d: int)
    requires
        w <= 0,
        d >= 0,
    ensures
        w * d <= 0,
{
    assert(w * d <= 0) by (nonlinear_arith)
        requires
            w <= 0,
            d >= 0,
    ;
}

/// A codeword in place of another changes the number of bits by the
/// difference of their lengths, as often as the count says.
proof fn lemma_weighted_update(
    pending: Seq<(u32, usize)>,
    codes: Seq<Seq<bool>>,
    i: int,
    code: Seq<bool>,
)
    requires
        codes.len() == pending.len(),
        0 <= i < pending.len(),
    ensures
        weighted_len(pending, codes.update(i, code)) == weighted_len(pending, codes) + pending[i].0
            * (code.len() - codes[i].len()),
    decreases pending.len(),
{
    let changed = codes.update(i, code);
    if i == pending.len() - 1 {
        assert(changed.drop_last() =~= codes.drop_last());
        lemma_mul_diff(pending[i].0 as int, code.len() as int, codes[i].len() as int);
    } else {
        assert(changed.drop_last() =~= codes.drop_last().update(i, code));
        lemma_weighted_update(pending.drop_last(), codes.drop_last(), i, code);
    }
}

/// Without a node and its codeword the number of bits is less by the bits
/// of this codeword.
proof fn lemma_weighted_remove(pending: Seq<(u32, usize)>, codes: Seq<Seq<bool>>, i: int)
    requires
        codes.len() == pending.len(),
        0 <= i < pending.len(),
    ensures
        weighted_len(pending.remove(i), codes.remove(i)) == weighted_len(pending, codes)
            - pending[i].0 * codes[i].len(),
    decreases pending.len(),
{
    if i == pending.len() - 1 {
        assert(pending.remove(i) =~= pending.drop_last());
        assert(codes.remove(i) =~= codes.drop_last());
    } else {
        assert(pending.remove(i).drop_last() =~= pending.drop_last().remove(i));
        assert(codes.remove(i).drop_last() =~= codes.drop_last().remove(i));
        lemma_weighted_remove(pending.drop_last(), codes.drop_last(), i);
    }
}

/// With one more node and its codeword the number of bits is more by the
/// bits of this codeword.
proof fn lemma_weighted_push(
    pending: Seq<(u32, usize)>,
    codes: Seq<Seq<bool>>,
    node: (u32, usize),
    code: Seq<bool>,
)
    requires
        codes.len() == pending.len(),
    ensures
        weighted_len(pending.push(node), codes.push(code)) == weighted_len(pending, codes)
            + node.0 * code.len(),
{
    assert(pending.push(node).drop_last() =~= pending);
    assert(codes.push(code).drop_last() =~= codes);
}

/// The codewords of two nodes in each other's place.
pub open spec fn swapped(codes: Seq<Seq<bool>>, i: int, j: int) -> Seq<Seq<bool>> {
    codes.update(i, codes[j]).update(j, codes[i])
}

/// When two nodes take each other's codewords, the code stays a prefix
/// code, and the number of bits does not grow if the node with the lesser
/// count takes the longer codeword.
proof fn lemma_swap(pending: Seq<(u32, usize)>, codes: Seq<Seq<bool>>, i: int, j: int)
    requires
        codes.len() == pending.len(),
        0 <= i < pending.len(),
        0 <= j < pending.len(),
        prefix_free(codes),
        pending[i].0 <= pending[j].0,
        codes[i].len() <= codes[j].len(),
    ensures
        prefix_free(swapped(codes, i, j)),
        weighted_len(pending, swapped(codes, i, j)) <= weighted_len(pending, codes),
{
    let after = swapped(codes, i, j);
    if i != j {
        let from = |k: int|
            if k == i {
                j
            } else if k == j {
                i
            } else {
                k
            };
        assert forall|x: int, y: int|
            0 <= x < after.len() && 0 <= y < after.len() && x != y implies !(
        #[trigger] after[x]).is_prefix_of(#[trigger] after[y]) by {
            assert(after[x] == codes[from(x)]);
            assert(after[y] == codes[from(y)]);
            assert(!codes[from(x)].is_prefix_of(codes[from(y)]));
        }
        let first = codes.update(i, codes[j]);
        lemma_weighted_update(pending, codes, i, codes[j]);
        lemma_weighted_update(pending, first, j, codes[i]);
        assert(first[j] == codes[j]);
        let wi = pending[i].0 as int;
        let wj = pending[j].0 as int;
        let li = codes[i].len() as int;
        let lj = codes[j].len() as int;
        assert(weighted_len(pending, first) == weighted_len(pending, codes) + wi * (lj - li));
        assert(weighted_len(pending, after) == weighted_len(pending, first) + wj * (li - lj));
        assert(wi * (lj - li) + wj * (li - lj) <= 0) by (nonlinear_arith)
            requires
                wi <= wj,
                li <= lj,
        ;
    } else {
        assert(after =~= codes);
    }
}

/// The sum of the lengths of the codewords.
pub open spec fn total_len(codes: Seq<Seq<bool>>) -> int
    decreases codes.len(),
{
    if codes.len() == 0 {
        0
    } else {
        total_len(codes.drop_last()) + codes.last().len()
    }
}

/// A codeword in place of another changes the sum of the lengths by the
/// difference of their lengths.
proof fn lemma_total_len_update(codes: Seq<Seq<bool>>, i: int, code: Seq<bool>)
    requires
        0 <= i < codes.len(),
    ensures
        total_len(codes.update(i, code)) == total_len(codes) + code.len() - codes[i].len(),
        total_len(codes) >= 0,
    decreases codes.len(),
{
    let changed = codes.update(i, code);
    if i == codes.len() - 1 {
        assert(changed.drop_last() =~= codes.drop_last());
        lemma_total_len_nonnegative(codes.drop_last());
    } else {
        assert(changed.drop_last() =~= codes.drop_last().update(i, code));
        lemma_total_len_update(codes.drop_last(), i, code);
    }
}

/// The sum of lengths is not negative.
proof fn lemma_total_len_nonnegative(codes: Seq<Seq<bool>>)
    ensures
        total_len(codes) >= 0,
    decreases codes.len(),
{
    if codes.len() > 0 {
        lemma_total_len_nonnegative(codes.drop_last());
    }
}

/// The place of a longest codeword.
pub open spec fn longest(codes: Seq<Seq<bool>>) -> int
    decreases codes.len(),
{
    if codes.len() <= 1 {
        0
    } else {
        let k = longest(codes.drop_last());
        if codes.last().len() > codes[k].len() {
            codes.len() - 1
        } else {
            k
        }
    }
}

/// The place of a longest codeword is a place of the list, and no codeword is
/// longer than the one there.
proof fn lemma_longest(codes: Seq<Seq<bool>>)
    requires
        codes.len() >= 1,
    ensures
        0 <= longest(codes) < codes.len(),
        forall|j: int| 0 <= j < codes.len() ==> (#[trigger] codes[j]).len() <= codes[longest(codes)].len(),
    decreases codes.len(),
{
    if codes.len() > 1 {
        lemma_longest(codes.drop_last());
        assert forall|j: int| 0 <= j < codes.len() implies (#[trigger] codes[j]).len()
            <= codes[longest(codes)].len() by {
            if j < codes.len() - 1 {
                assert(codes[j] == codes.drop_last()[j]);
            }
        }
    }
}

/// Two codewords are siblings: they have the same length, at least one bit,
/// and differ in the last bit alone.
pub open spec fn siblings(x: Seq<bool>, y: Seq<bool>) -> bool {
    &&& x.len() == y.len()
    &&& x.len() >= 1
    &&& x.drop_last() == y.drop_last()
    &&& x.last() != y.last()
}

/// A prefix code for two nodes or more can be changed, without growing
/// longer, into a prefix code in which a longest codeword has a sibling.
proof fn lemma_deepest_siblings(pending: Seq<(u32, usize)>, codes: Seq<Seq<bool>>) -> (r: (
    Seq<Seq<bool>>,
    int,
    int,
))
    requires
        codes.len() == pending.len(),
        pending.len() >= 2,
        prefix_free(codes),
    ensures
        r.0.len() == codes.len(),
        prefix_free(r.0),
        weighted_len(pending, r.0) <= weighted_len(pending, codes),
        0 <= r.1 < codes.len(),
        0 <= r.2 < codes.len(),
        r.1 != r.2,
        siblings(r.0[r.1], r.0[r.2]),
        forall|j: int| 0 <= j < codes.len() ==> (#[trigger] r.0[j]).len() <= r.0[r.1].len(),
    decreases total_len(codes),
{
    lemma_longest(codes);
    let x = longest(codes);
    let other = if x == 0 {
        1int
    } else {
        0int
    };
    assert(!codes[other].is_prefix_of(codes[x]));
    assert(codes[x].len() >= 1) by {
        if codes[x].len() == 0 {
            assert(codes[other].len() == 0);
            assert(codes[other] =~= codes[x].subrange(0, 0));
        }
    }
    let stem = codes[x].drop_last();
    let twin = stem.push(!codes[x].last());
    if exists|y: int| 0 <= y < codes.len() && codes[y] == twin {
        let y = choose|y: int| 0 <= y < codes.len() && codes[y] == twin;
        assert(twin.drop_last() =~= stem);
        (codes, x, y)
    } else {
        let shorter = codes.update(x, stem);
        assert forall|i: int, j: int|
            0 <= i < shorter.len() && 0 <= j < shorter.len() && i != j implies !(
        #[trigger] shorter[i]).is_prefix_of(#[trigger] shorter[j]) by {
            assert(!codes[i].is_prefix_of(codes[j]));
            if i == x {
                if stem.is_prefix_of(codes[j]) {
                    assert(codes[j].len() <= codes[x].len());
                    if codes[j].len() == stem.len() {
                        assert(codes[j] =~= stem);
                        assert(codes[j] =~= codes[x].subrange(0, codes[j].len() as int));
                        assert(codes[j].is_prefix_of(codes[x]));
                    } else {
                        assert(codes[j].drop_last() =~= stem);
                        assert(codes[j] =~= stem.push(codes[j].last()));
                        assert(codes[x] =~= stem.push(codes[x].last()));
                        if codes[j].last() == codes[x].last() {
                            assert(codes[j] =~= codes[x].subrange(0, codes[j].len() as int));
                            assert(codes[j].is_prefix_of(codes[x]));
                        } else {
                            assert(codes[j] == twin);
                        }
                    }
                }
            } else if j == x {
                if codes[i].is_prefix_of(stem) {
                    assert(codes[i] =~= codes[x].subrange(0, codes[i].len() as int));
                    assert(codes[i].is_prefix_of(codes[x]));
                }
            }
        }
        lemma_weighted_update(pending, codes, x, stem);
        lemma_mul_sign(-(pending[x].0 as int), 1);
        assert(pending[x].0 * (stem.len() - codes[x].len()) == -(pending[x].0 as int) * 1)
            by (nonlinear_arith)
            requires
                stem.len() - codes[x].len() == -1,
        ;
        lemma_total_len_update(codes, x, stem);
        lemma_total_len_nonnegative(shorter);
        let r = lemma_deepest_siblings(pending, shorter);
        r
    }
}

/// A prefix code for two nodes or more can be changed, without growing
/// longer, into a prefix code in which the codewords of the two least nodes
/// are siblings.
proof fn lemma_exchange(pending: Seq<(u32, usize)>, codes: Seq<Seq<bool>>, a: int, b: int) -> (r:
    Seq<Seq<bool>>)
    requires
        codes.len() == pending.len(),
        prefix_free(codes),
        0 <= a < pending.len(),
        0 <= b < pending.len(),
        a != b,
        forall|j: int| 0 <= j < pending.len() ==> pending[a].0 <= (#[trigger] pending[j]).0,
        forall|j: int|
            0 <= j < pending.len() && j != a ==> pending[b].0 <= (#[trigger] pending[j]).0,
    ensures
        r.len() == codes.len(),
        prefix_free(r),
        weighted_len(pending, r) <= weighted_len(pending, codes),
        siblings(r[a], r[b]),
{
    let (deep, x, y) = lemma_deepest_siblings(pending, codes);
    lemma_swap(pending, deep, a, x);
    let first = swapped(deep, a, x);
    let twin = if y == a {
        x
    } else {
        y
    };
    assert(first[twin] == deep[y]);
    assert(first[a] == deep[x]);
    assert(first[b].len() <= first[twin].len()) by {
        let from = if b == a {
            x
        } else if b == x {
            a
        } else {
            b
        };
        assert(first[b] == deep[from]);
        assert(deep[from].len() <= deep[x].len());
    }
    lemma_swap(pending, first, b, twin);
    let second = swapped(first, b, twin);
    assert(second[a] == deep[x]);
    assert(second[b] == deep[y]);
    second
}

/// The place in a sequence of what stands at `b` once the item at `a` is
/// taken out.
pub open spec fn place_after(a: int, b: int) -> int {
    if b < a {
        b
    } else {
        b - 1
    }
}

/// The codewords for the nodes that wait after two nodes whose codewords
/// are siblings were merged: the new node takes what the siblings share.
pub open spec fn merged_codes(codes: Seq<Seq<bool>>, a: int, b: int) -> Seq<Seq<bool>> {
    codes.remove(a).remove(place_after(a, b)).push(codes[a].drop_last())
}

/// The place that the item at `i` had before the items at `a` and `b` were
/// taken out.
pub open spec fn place_before(i: int, a: int, b: int) -> int {
    let lo = if a < b {
        a
    } else {
        b
    };
    let hi = if a < b {
        b
    } else {
        a
    };
    if i < lo {
        i
    } else if i + 1 < hi {
        i + 1
    } else {
        i + 2
    }
}

/// Each codeword left after a merge, but the new one, is the codeword of a
/// node that was not merged.
proof fn lemma_merged_codes_index(codes: Seq<Seq<bool>>, a: int, b: int, i: int)
    requires
        0 <= a < codes.len(),
        0 <= b < codes.len(),
        a != b,
        0 <= i < codes.len() - 2,
    ensures
        merged_codes(codes, a, b)[i] == codes[place_before(i, a, b)],
        0 <= place_before(i, a, b) < codes.len(),
        place_before(i, a, b) != a,
        place_before(i, a, b) != b,
{
}

/// When two nodes whose codewords are siblings are merged, the codewords
/// left are a prefix code for the nodes left, and shorter by as many bits
/// as the counts of the two nodes say.
proof fn lemma_merge_codes(
    pending: Seq<(u32, usize)>,
    codes: Seq<Seq<bool>>,
    a: int,
    b: int,
    id: usize,
)
    requires
        codes.len() == pending.len(),
        prefix_free(codes),
        0 <= a < pending.len(),
        0 <= b < pending.len(),
        a != b,
        siblings(codes[a], codes[b]),
        pending[a].0 + pending[b].0 <= u32::MAX,
    ensures
        prefix_free(merged_codes(codes, a, b)),
        merged_codes(codes, a, b).len() == codes.len() - 1,
        weighted_len(
            pending.remove(a).remove(place_after(a, b)).push(
                ((pending[a].0 + pending[b].0) as u32, id),
            ),
            merged_codes(codes, a, b),
        ) == weighted_len(pending, codes) - pending[a].0 - pending[b].0,
{
    let stem = codes[a].drop_last();
    let after = merged_codes(codes, a, b);
    let n = codes.len() as int;
    let bb = place_after(a, b);
    assert(codes[a] =~= stem.push(codes[a].last()));
    assert(codes[b] =~= stem.push(codes[b].last()));
    assert forall|i: int, j: int|
        0 <= i < after.len() && 0 <= j < after.len() && i != j implies !(
    #[trigger] after[i]).is_prefix_of(#[trigger] after[j]) by {
        if i < n - 2 && j < n - 2 {
            lemma_merged_codes_index(codes, a, b, i);
            lemma_merged_codes_index(codes, a, b, j);
            assert(!codes[place_before(i, a, b)].is_prefix_of(codes[place_before(j, a, b)]));
        } else if i < n - 2 {
            lemma_merged_codes_index(codes, a, b, i);
            let z = codes[place_before(i, a, b)];
            assert(!z.is_prefix_of(codes[a]));
            if z.is_prefix_of(stem) {
                assert(z =~= codes[a].subrange(0, z.len() as int));
            }
        } else {
            lemma_merged_codes_index(codes, a, b, j);
            let z = codes[place_before(j, a, b)];
            assert(!codes[a].is_prefix_of(z));
            assert(!codes[b].is_prefix_of(z));
            assert(!z.is_prefix_of(codes[a]));
            if stem.is_prefix_of(z) {
                if z.len() == stem.len() {
                    assert(z =~= stem);
                    assert(z =~= codes[a].subrange(0, z.len() as int));
                } else {
                    let bit = z[stem.len() as int];
                    if bit == codes[a].last() {
                        assert(codes[a] =~= z.subrange(0, codes[a].len() as int));
                    } else {
                        assert(codes[b] =~= z.subrange(0, codes[b].len() as int));
                    }
                }
            }
        }
    }
    let rest = pending.remove(a);
    let rest_codes = codes.remove(a);
    lemma_weighted_remove(pending, codes, a);
    assert(rest[bb] == pending[b] && rest_codes[bb] == codes[b]);
    lemma_weighted_remove(rest, rest_codes, bb);
    let joined = ((pending[a].0 + pending[b].0) as u32, id);
    lemma_weighted_push(rest.remove(bb), rest_codes.remove(bb), joined, stem);
    let wa = pending[a].0 as int;
    let wb = pending[b].0 as int;
    let l = stem.len() as int;
    assert(codes[a].len() == l + 1 && codes[b].len() == l + 1);
    assert(wa * (l + 1) + wb * (l + 1) == (wa + wb) * l + wa + wb) by (nonlinear_arith);
}

/// No prefix code for the nodes that wait takes fewer bits than their
/// merging costs.
pub proof fn lemma_lower_bound(pending: Seq<(u32, usize)>, codes: Seq<Seq<bool>>, id: int)
    requires
        codes.len() == pending.len(),
        prefix_free(codes),
        total_of(pending) <= u32::MAX,
        0 <= id,
        id + pending.len() <= usize::MAX,
    ensures
        weighted_len(pending, codes) >= merge_cost(pending, id),
    decreases pending.len(),
{
    if pending.len() <= 1 {
        lemma_weighted_nonnegative(pending, codes);
    } else {
        let a = least_index(pending);
        let rest = pending.remove(a);
        let bb = least_index(rest);
        lemma_least_index(pending);
        lemma_least_index(rest);
        let b = if bb < a {
            bb
        } else {
            bb + 1
        };
        assert(rest[bb] == pending[b]);
        assert(place_after(a, b) == bb);
        assert forall|j: int| 0 <= j < pending.len() implies pending[a].0 <= (
        #[trigger] pending[j]).0 by {
            assert(!weight_lt(pending[j], pending[a]));
        }
        assert forall|j: int| 0 <= j < pending.len() && j != a implies pending[b].0 <= (
        #[trigger] pending[j]).0 by {
            let jj = place_after(a, j);
            assert(rest[jj] == pending[j]);
            assert(!weight_lt(rest[jj], rest[bb]));
        }
        crate::huffman::lemma_total_of_remove(pending, a);
        crate::huffman::lemma_total_of_remove(rest, bb);
        crate::huffman::lemma_total_of_nonnegative(rest.remove(bb));
        let better = lemma_exchange(pending, codes, a, b);
        lemma_merge_codes(pending, better, a, b, id as usize);
        let joined = ((pending[a].0 + pending[b].0) as u32, id as usize);
        let fewer = rest.remove(bb).push(joined);
        crate::huffman::lemma_total_of_push(rest.remove(bb), joined);
        lemma_lower_bound(fewer, merged_codes(better, a, b), id + 1);
    }
}

/// The number of bits that codewords take is not negative.
proof fn lemma_weighted_nonnegative(pending: Seq<(u32, usize)>, codes: Seq<Seq<bool>>)
    requires
        codes.len() == pending.len(),
    ensures
        weighted_len(pending, codes) >= 0,
    decreases pending.len(),
{
    if pending.len() > 0 {
        lemma_weighted_nonnegative(pending.drop_last(), codes.drop_last());
        let w = pending.last().0 as int;
        let l = codes.last().len() as int;
        assert(w * l >= 0) by (nonlinear_arith)
            requires
                w >= 0,
                l >= 0,
        ;
    }
}

/// The codes, in a finished tree, of the nodes that wait.
pub open spec fn root_codes(tree: Seq<node>, pending: Seq<(u32, usize)>) -> Seq<Seq<bool>> {
    Seq::new(pending.len(), |i: int| code_of(tree, pending[i].1 as int))
}

/// Merging leaves the children of every node as they are, and the parent of
/// every node that has one.
pub proof fn lemma_merged_keeps(tree: Seq<node>, pending: Seq<(u32, usize)>, n: int)
    requires
        forest(tree, pending, n),
        tree.len() + pending.len() <= usize::MAX,
    ensures
        merged(tree, pending).len() >= tree.len(),
        forall|x: int|
            0 <= x < tree.len() ==> (#[trigger] merged(tree, pending)[x]).left == tree[x].left
                && merged(tree, pending)[x].right == tree[x].right && (tree[x].parent.is_some()
                ==> merged(tree, pending)[x].parent == tree[x].parent),
    decreases pending.len(),
{
    if pending.len() > 1 {
        let a = least_index(pending);
        let rest = pending.remove(a);
        let b = least_index(rest);
        lemma_least_index(pending);
        lemma_least_index(rest);
        lemma_join_keeps_forest(tree, pending, n);
        let next = joined(tree, pending[a], rest[b]);
        let waits = rest.remove(b).push(((pending[a].0 + rest[b].0) as u32, tree.len() as usize));
        lemma_merged_keeps(next, waits, n);
        let last = merged(tree, pending);
        let l = pending[a].1 as int;
        let r = rest[b].1 as int;
        assert(rest[b] == pending[if b < a {
            b
        } else {
            b + 1
        }]);
        assert forall|x: int| 0 <= x < tree.len() implies (#[trigger] last[x]).left
            == tree[x].left && last[x].right == tree[x].right && (tree[x].parent.is_some()
            ==> last[x].parent == tree[x].parent) by {
            assert(next[x].left == tree[x].left);
            assert(next[x].right == tree[x].right);
            if tree[x].parent.is_some() {
                assert(x != l && x != r);
                assert(next[x].parent == tree[x].parent);
            }
        }
    }
}

/// The bits that the codewords take when two nodes whose codewords are
/// siblings are merged: fewer by as many as the counts of the two say.
proof fn lemma_merge_bits(
    pending: Seq<(u32, usize)>,
    codes: Seq<Seq<bool>>,
    a: int,
    b: int,
    id: usize,
)
    requires
        codes.len() == pending.len(),
        0 <= a < pending.len(),
        0 <= b < pending.len(),
        a != b,
        siblings(codes[a], codes[b]),
        pending[a].0 + pending[b].0 <= u32::MAX,
    ensures
        weighted_len(
            pending.remove(a).remove(place_after(a, b)).push(
                ((pending[a].0 + pending[b].0) as u32, id),
            ),
            merged_codes(codes, a, b),
        ) == weighted_len(pending, codes) - pending[a].0 - pending[b].0,
{
    let stem = codes[a].drop_last();
    let bb = place_after(a, b);
    let rest = pending.remove(a);
    let rest_codes = codes.remove(a);
    lemma_weighted_remove(pending, codes, a);
    assert(rest[bb] == pending[b] && rest_codes[bb] == codes[b]);
    lemma_weighted_remove(rest, rest_codes, bb);
    let joined = ((pending[a].0 + pending[b].0) as u32, id);
    lemma_weighted_push(rest.remove(bb), rest_codes.remove(bb), joined, stem);
    let wa = pending[a].0 as int;
    let wb = pending[b].0 as int;
    let l = stem.len() as int;
    assert(codes[a].len() == l + 1 && codes[b].len() == l + 1);
    assert(wa * (l + 1) + wb * (l + 1) == (wa + wb) * l + wa + wb) by (nonlinear_arith);
}

/// The place, among the nodes that wait, of the second node of a merge.
pub open spec fn second_least(pending: Seq<(u32, usize)>) -> int {
    let a = least_index(pending);
    let bb = least_index(pending.remove(a));
    if bb < a {
        bb
    } else {
        bb + 1
    }
}

/// In the finished tree the two nodes of the first merge are the left and
/// the right child of the node that this merge makes.
proof fn lemma_first_merge(tree: Seq<node>, pending: Seq<(u32, usize)>, n: int)
    requires
        forest(tree, pending, n),
        pending.len() >= 2,
        tree.len() + pending.len() <= usize::MAX,
    ensures
        ({
            let a = least_index(pending);
            let b = second_least(pending);
            let last = merged(tree, pending);
            let id = tree.len() as int;
            &&& 0 <= a < pending.len()
            &&& 0 <= b < pending.len()
            &&& a != b
            &&& pending.remove(a)[least_index(pending.remove(a))] == pending[b]
            &&& place_after(a, b) == least_index(pending.remove(a))
            &&& id < last.len()
            &&& pending[a].1 < id
            &&& pending[b].1 < id
            &&& pending[a].1 != pending[b].1
            &&& last[pending[a].1 as int].parent == Some(id as usize)
            &&& last[pending[b].1 as int].parent == Some(id as usize)
            &&& last[id].right == Some(pending[b].1)
        }),
{
    let a = least_index(pending);
    let rest = pending.remove(a);
    let bb = least_index(rest);
    lemma_least_index(pending);
    lemma_least_index(rest);
    let b = second_least(pending);
    assert(rest[bb] == pending[b]);
    let id = tree.len() as int;
    let l = pending[a].1 as int;
    let r = pending[b].1 as int;
    assert(l != r) by {
        if a < b {
            assert(pending[a].1 != pending[b].1);
        } else {
            assert(pending[b].1 != pending[a].1);
        }
    }
    let new = ((pending[a].0 + pending[b].0) as u32, id as usize);
    let waits = rest.remove(bb).push(new);
    lemma_join_keeps_forest(tree, pending, n);
    let next = joined(tree, pending[a], rest[bb]);
    lemma_merged_keeps(next, waits, n);
    assert(next[l].parent == Some(id as usize));
    assert(next[r].parent == Some(id as usize));
    assert(next[id].right == Some(r as usize));
}

/// In the finished tree the codes of the two nodes of the first merge are
/// siblings, and what they share is the code of the node that the merge
/// makes.
proof fn lemma_first_merge_codes(tree: Seq<node>, pending: Seq<(u32, usize)>, n: int)
    requires
        forest(tree, pending, n),
        pending.len() >= 2,
        tree.len() + pending.len() <= usize::MAX,
    ensures
        ({
            let a = least_index(pending);
            let b = second_least(pending);
            let last = merged(tree, pending);
            let codes = root_codes(last, pending);
            &&& siblings(codes[a], codes[b])
            &&& codes[a].drop_last() == code_of(last, tree.len() as int)
        }),
{
    lemma_first_merge(tree, pending, n);
    let a = least_index(pending);
    let b = second_least(pending);
    let last = merged(tree, pending);
    let codes = root_codes(last, pending);
    let stem = code_of(last, tree.len() as int);
    assert(codes[a] == stem.push(false));
    assert(codes[b] == stem.push(true));
    assert(codes[a].drop_last() =~= stem);
    assert(codes[b].drop_last() =~= stem);
}

/// The codes of the finished tree take, for the nodes that wait, as many
/// bits as their merging costs.
pub proof fn lemma_merged_cost(tree: Seq<node>, pending: Seq<(u32, usize)>, n: int)
    requires
        forest(tree, pending, n),
        total_of(pending) <= u32::MAX,
        tree.len() + pending.len() <= usize::MAX,
    ensures
        weighted_len(pending, root_codes(merged(tree, pending), pending)) == merge_cost(
            pending,
            tree.len() as int,
        ),
    decreases pending.len(),
{
    let last = merged(tree, pending);
    let codes = root_codes(last, pending);
    if pending.len() == 0 {
        assert(weighted_len(pending, codes) == 0);
    } else if pending.len() == 1 {
        assert(last == tree);
        assert(codes[0] =~= Seq::<bool>::empty());
        lemma_weighted_single(pending, codes);
        assert(pending[0].0 * codes[0].len() == 0) by (nonlinear_arith)
            requires
                codes[0].len() == 0,
        ;
    } else {
        lemma_least_index(pending);
        let a = least_index(pending);
        let rest = pending.remove(a);
        lemma_least_index(rest);
        let bb = least_index(rest);
        let b = second_least(pending);
        let id = tree.len() as int;
        lemma_first_merge(tree, pending, n);
        lemma_first_merge_codes(tree, pending, n);
        lemma_total_of_remove(pending, a);
        lemma_total_of_remove(rest, bb);
        lemma_total_of_nonnegative(rest.remove(bb));
        let new = ((pending[a].0 + rest[bb].0) as u32, id as usize);
        let waits = rest.remove(bb).push(new);
        lemma_total_of_push(rest.remove(bb), new);
        lemma_join_keeps_forest(tree, pending, n);
        let next = joined(tree, pending[a], rest[bb]);
        assert(last == merged(next, waits));
        assert(merge_cost(pending, id) == pending[a].0 + rest[bb].0 + merge_cost(waits, id + 1));
        lemma_merged_cost(next, waits, n);
        assert(weighted_len(waits, root_codes(last, waits)) == merge_cost(waits, id + 1));
        lemma_waits_codes(last, pending, a, b, new);
        assert(merged_codes(codes, a, b) == root_codes(last, waits));
        lemma_merge_bits(pending, codes, a, b, id as usize);
        assert(weighted_len(waits, merged_codes(codes, a, b)) == weighted_len(pending, codes)
            - pending[a].0 - pending[b].0);
    }
}

/// The codes of the nodes that wait after a merge are those of the nodes
/// that waited before, without the two merged and with that of the new node.
proof fn lemma_waits_codes(
    last: Seq<node>,
    pending: Seq<(u32, usize)>,
    a: int,
    b: int,
    new: (u32, usize),
)
    requires
        0 <= a < pending.len(),
        0 <= b < pending.len(),
        a != b,
        root_codes(last, pending)[a].drop_last() == code_of(last, new.1 as int),
    ensures
        merged_codes(root_codes(last, pending), a, b) == root_codes(
            last,
            pending.remove(a).remove(place_after(a, b)).push(new),
        ),
{
    let codes = root_codes(last, pending);
    let waits = pending.remove(a).remove(place_after(a, b)).push(new);
    assert forall|i: int| 0 <= i < waits.len() implies merged_codes(codes, a, b)[i] == root_codes(
        last,
        waits,
    )[i] by {
        if i < waits.len() - 1 {
            lemma_merged_codes_index(codes, a, b, i);
            assert(waits[i] == pending[place_before(i, a, b)]);
        }
    }
    assert(merged_codes(codes, a, b) =~= root_codes(last, waits));
}

/// A single codeword takes as many bits as it is long, as often as the
/// count of its node says.
proof fn lemma_weighted_single(pending: Seq<(u32, usize)>, codes: Seq<Seq<bool>>)
    requires
        pending.len() == 1,
        codes.len() == 1,
    ensures
        weighted_len(pending, codes) == pending[0].0 * codes[0].len(),
{
    assert(pending.drop_last() =~= Seq::<(u32, usize)>::empty());
    assert(weighted_len(pending.drop_last(), codes.drop_last()) == 0);
}

/// The codes of the tree, by byte value.
pub open spec fn tree_codes(tree: Seq<node>, n: int) -> Seq<Seq<bool>> {
    Seq::new(n as nat, |v: int| code_of(tree, v))
}

/// The number of bits that the codewords of the first `k` byte values take
/// when each is written as often as its count says.
pub open spec fn cost(freq: Seq<u32>, codes: Seq<Seq<bool>>, k: int) -> int
    decreases k,
{
    if k <= 0 {
        0
    } else {
        cost(freq, codes, k - 1) + freq[k - 1] * codes[k - 1].len()
    }
}

/// The codewords of the nodes that wait, taken from codewords by byte
/// value.
pub open spec fn selected(codes: Seq<Seq<bool>>, pending: Seq<(u32, usize)>) -> Seq<Seq<bool>> {
    Seq::new(pending.len(), |i: int| codes[pending[i].1 as int])
}

/// A prefix code for the bytes that occur: each has a codeword of at least
/// one bit, and none of these codewords starts another.
pub open spec fn is_prefix_code(freq: Seq<u32>, codes: Seq<Seq<bool>>) -> bool {
    &&& codes.len() == freq.len()
    &&& forall|v: int| 0 <= v < freq.len() && freq[v] != 0 ==> (#[trigger] codes[v]).len() >= 1
    &&& forall|v: int, w: int|
        0 <= v < freq.len() && 0 <= w < freq.len() && v != w && freq[v] != 0 && freq[w] != 0
            ==> !(#[trigger] codes[v]).is_prefix_of(#[trigger] codes[w])
}

/// The bits of the codewords of all byte values are those of the codewords
/// of the bytes that occur.
proof fn lemma_cost_selected(freq: Seq<u32>, codes: Seq<Seq<bool>>, k: int)
    requires
        0 <= k <= freq.len(),
        freq.len() <= usize::MAX,
        codes.len() == freq.len(),
    ensures
        cost(freq, codes, k) == weighted_len(
            nonzero(freq, k),
            selected(codes, nonzero(freq, k)),
        ),
    decreases k,
{
    if k > 0 {
        lemma_cost_selected(freq, codes, k - 1);
        lemma_nonzero(freq, k - 1);
        let before = nonzero(freq, k - 1);
        if freq[k - 1] != 0 {
            let node = (freq[k - 1], (k - 1) as usize);
            assert(selected(codes, before.push(node)) =~= selected(codes, before).push(
                codes[k - 1],
            ));
            lemma_weighted_push(before, selected(codes, before), node, codes[k - 1]);
        } else {
            assert(freq[k - 1] * codes[k - 1].len() == 0) by (nonlinear_arith)
                requires
                    freq[k - 1] == 0,
            ;
        }
    }
}

/// No prefix code is shorter than the code of the tree: whatever codewords
/// a prefix code gives to the bytes that occur, written as often as the
/// counts say they take at least as many bits as the codes of the tree.
pub proof fn lemma_optimal(freq: Seq<u32>, codes: Seq<Seq<bool>>)
    requires
        sum_of(freq) <= u32::MAX,
        2 * freq.len() < usize::MAX,
        is_prefix_code(freq, codes),
    ensures
        cost(
            freq,
            tree_codes(huffman_tree(freq), freq.len() as int),
            freq.len() as int,
        ) <= cost(freq, codes, freq.len() as int),
{
    let n = freq.len() as int;
    let pending = nonzero(freq, n);
    let tree = huffman_tree(freq);
    let ours = tree_codes(tree, n);
    lemma_nonzero(freq, n);
    assert(freq.take(n) =~= freq);
    lemma_cost_selected(freq, codes, n);
    lemma_cost_selected(freq, ours, n);
    let theirs = selected(codes, pending);
    if pending.len() == 0 {
    } else if pending.len() == 1 {
        let s = pending[0].1 as int;
        let w = pending[0].0 as int;
        assert(tree[s].parent == Some(n as usize));
        assert(tree[n].parent.is_none());
        assert(code_of(tree, n) =~= Seq::<bool>::empty());
        assert(code_of(tree, s).len() == 1);
        lemma_weighted_single(pending, selected(ours, pending));
        lemma_weighted_single(pending, theirs);
        assert(selected(ours, pending)[0].len() == 1);
        assert(theirs[0].len() >= 1);
        let l = theirs[0].len() as int;
        assert(w * l >= w * 1) by (nonlinear_arith)
            requires
                w >= 0,
                l >= 1,
        ;
    } else {
        let start = leaves(freq);
        assert forall|x: int| 0 <= x < start.len() implies #[trigger] node_ok(start, n, x) by {}
        assert(forest(start, pending, n));
        lemma_merged_cost(start, pending, n);
        assert(selected(ours, pending) =~= root_codes(tree, pending));
        assert forall|i: int, j: int|
            0 <= i < theirs.len() && 0 <= j < theirs.len() && i != j implies !(
        #[trigger] theirs[i]).is_prefix_of(#[trigger] theirs[j]) by {
            if i < j {
                assert(pending[i].1 < pending[j].1);
            } else {
                assert(pending[j].1 < pending[i].1);
            }
        }
        lemma_lower_bound(pending, theirs, n);
    }
}

/// The input written with the codewords `codes`, one for each byte value.
pub open spec fn coded_by(codes: Seq<Seq<bool>>, input: Seq<u8>) -> Seq<bool>
    decreases input.len(),
{
    if input.len() == 0 {
        Seq::empty()
    } else {
        coded_by(codes, input.drop_last()) + codes[input.last() as int]
    }
}

/// One more byte takes as many bits more as its codeword is long.
proof fn lemma_cost_one_more(
    fewer: Seq<u32>,
    more: Seq<u32>,
    codes: Seq<Seq<bool>>,
    k: int,
    b: int,
)
    requires
        0 <= k <= 256,
        fewer.len() == 256,
        more.len() == 256,
        codes.len() == 256,
        0 <= b < 256,
        more[b] == fewer[b] + 1,
        forall|v: int| 0 <= v < 256 && v != b ==> more[v] == fewer[v],
    ensures
        cost(more, codes, k) == cost(fewer, codes, k) + (if b < k {
            codes[b].len() as int
        } else {
            0
        }),
    decreases k,
{
    if k > 0 {
        lemma_cost_one_more(fewer, more, codes, k - 1, b);
        if b == k - 1 {
            lemma_mul_diff(codes[b].len() as int, fewer[b] as int, 0);
            assert((fewer[b] + 1) * codes[b].len() == fewer[b] * codes[b].len() + codes[b].len())
                by (nonlinear_arith);
        }
    }
}

/// An input written with codewords takes as many bits as the codewords do
/// when each is written as often as its byte occurs.
pub proof fn lemma_coded_len(codes: Seq<Seq<bool>>, input: Seq<u8>)
    requires
        codes.len() == 256,
        input.len() <= u32::MAX,
    ensures
        coded_by(codes, input).len() == cost(counts(input), codes, 256),
    decreases input.len(),
{
    if input.len() == 0 {
        lemma_cost_zero(counts(input), codes, 256);
    } else {
        let shorter = input.drop_last();
        let b = input.last() as int;
        lemma_coded_len(codes, shorter);
        assert forall|v: int| 0 <= v < 256 implies counts(input)[v] == counts(shorter)[v] + (if v
            == b {
            1int
        } else {
            0int
        }) by {
            lemma_occurrences_bounds(shorter, v, v + 1);
            lemma_occurrences_bounds(input, v, v + 1);
        }
        lemma_cost_one_more(counts(shorter), counts(input), codes, 256, b);
    }
}

/// Codewords of bytes that do not occur take no bits.
proof fn lemma_cost_zero(freq: Seq<u32>, codes: Seq<Seq<bool>>, k: int)
    requires
        0 <= k <= freq.len(),
        forall|v: int| 0 <= v < freq.len() ==> freq[v] == 0,
    ensures
        cost(freq, codes, k) == 0,
    decreases k,
{
    if k > 0 {
        lemma_cost_zero(freq, codes, k - 1);
        assert(freq[k - 1] * codes[k - 1].len() == 0) by (nonlinear_arith)
            requires
                freq[k - 1] == 0,
        ;
    }
}

/// The codes of a tree, written for an input, are the input written with
/// the table of these codes.
proof fn lemma_coded_by_tree(tree: Seq<node>, input: Seq<u8>)
    ensures
        coded(tree, input) == coded_by(tree_codes(tree, 256), input),
    decreases input.len(),
{
    if input.len() > 0 {
        lemma_coded_by_tree(tree, input.drop_last());
    }
}

/// No prefix code writes the input shorter: the codes of the tree for the
/// counts of an input take, for this input, no more bits than the
/// codewords of any prefix code for the bytes that occur in it.
pub proof fn lemma_shortest(input: Seq<u8>, codes: Seq<Seq<bool>>)
    requires
        input.len() <= u32::MAX,
        is_prefix_code(counts(input), codes),
    ensures
        coded(huffman_tree(counts(input)), input).len() <= coded_by(codes, input).len(),
{
    let freq = counts(input);
    let tree = huffman_tree(freq);
    lemma_counts_sum(input, 256);
    assert(freq.take(256) =~= freq);
    crate::utils::lemma_occurrences_all(input);
    lemma_optimal(freq, codes);
    lemma_coded_by_tree(tree, input);
    lemma_coded_len(tree_codes(tree, 256), input);
    lemma_coded_len(codes, input);
}

/// Nodes of one tree with the same code are the same node.
proof fn lemma_code_names_node(tree: Seq<node>, n: int, x: int, y: int)
    requires
        rooted(tree, n),
        tree.len() > n,
        0 <= x < tree.len(),
        0 <= y < tree.len(),
        x >= n || tree[x].freq != 0,
        y >= n || tree[y].freq != 0,
        code_of(tree, x) == code_of(tree, y),
    ensures
        x == y,
    decreases code_of(tree, x).len(),
{
    assert(node_ok(tree, n, x));
    assert(node_ok(tree, n, y));
    let root = tree.len() - 1;
    if tree[x].parent.is_none() || tree[y].parent.is_none() {
        if tree[x].parent.is_none() {
            assert(x == root);
            assert(code_of(tree, x) =~= Seq::<bool>::empty());
            if tree[y].parent.is_some() {
                assert(code_of(tree, y).len() >= 1);
            }
        } else {
            assert(y == root);
            assert(code_of(tree, y) =~= Seq::<bool>::empty());
            assert(code_of(tree, x).len() >= 1);
        }
    } else {
        let px = tree[x].parent.unwrap() as int;
        let py = tree[y].parent.unwrap() as int;
        let bx = tree[px].right == Some(x as usize);
        let by = tree[py].right == Some(y as usize);
        assert(code_of(tree, x) == code_of(tree, px).push(bx));
        assert(code_of(tree, y) == code_of(tree, py).push(by));
        assert(code_of(tree, px) =~= code_of(tree, x).drop_last());
        assert(code_of(tree, py) =~= code_of(tree, y).drop_last());
        assert(bx == code_of(tree, x).last());
        assert(by == code_of(tree, y).last());
        lemma_code_names_node(tree, n, px, py);
    }
}

/// The code of a node starts with the code of each node above it; the node
/// that many steps above a node as the codes differ in length.
proof fn lemma_node_above(tree: Seq<node>, n: int, y: int, len: int) -> (x: int)
    requires
        rooted(tree, n),
        0 <= y < tree.len(),
        0 <= len < code_of(tree, y).len(),
    ensures
        n <= x < tree.len(),
        code_of(tree, x) == code_of(tree, y).take(len),
    decreases code_of(tree, y).len(),
{
    assert(node_ok(tree, n, y));
    let p = tree[y].parent.unwrap() as int;
    let step = tree[p].right == Some(y as usize);
    assert(code_of(tree, y) == code_of(tree, p).push(step));
    if code_of(tree, p).len() == len {
        assert(code_of(tree, y).take(len) =~= code_of(tree, p));
        p
    } else {
        let x = lemma_node_above(tree, n, p, len);
        assert(code_of(tree, y).take(len) =~= code_of(tree, p).take(len));
        x
    }
}

/// The codes of the tree are a prefix code for the bytes that occur.
pub proof fn lemma_tree_codes_prefix_free(freq: Seq<u32>)
    requires
        2 * freq.len() < usize::MAX,
    ensures
        is_prefix_code(freq, tree_codes(huffman_tree(freq), freq.len() as int)),
{
    let n = freq.len() as int;
    let tree = huffman_tree(freq);
    let codes = tree_codes(tree, n);
    crate::huffman::lemma_huffman_tree(freq);
    assert forall|v: int| 0 <= v < n && freq[v] != 0 implies (#[trigger] codes[v]).len() >= 1 by {
        lemma_some_count(freq, v);
        assert(node_ok(tree, n, v));
        assert(tree[v].freq == freq[v]);
        assert(tree[v].parent.is_some());
    }
    assert forall|v: int, w: int|
        0 <= v < n && 0 <= w < n && v != w && freq[v] != 0 && freq[w] != 0 implies !(
    #[trigger] codes[v]).is_prefix_of(#[trigger] codes[w]) by {
        lemma_some_count(freq, v);
        assert(tree[v].freq == freq[v]);
        assert(tree[w].freq == freq[w]);
        if codes[v].is_prefix_of(codes[w]) {
            if codes[v].len() == codes[w].len() {
                assert(codes[v] =~= codes[w]);
                lemma_code_names_node(tree, n, v, w);
            } else {
                let x = lemma_node_above(tree, n, w, codes[v].len() as int);
                assert(code_of(tree, w).take(codes[v].len() as int) =~= codes[v]);
                lemma_code_names_node(tree, n, v, x);
            }
        }
    }
}

/// Counts of which one is not zero do not add up to zero.
proof fn lemma_some_count(freq: Seq<u32>, v: int)
    requires
        0 <= v < freq.len(),
        freq[v] != 0,
    ensures
        sum_of(freq) > 0,
    decreases freq.len(),
{
    lemma_sum_nonnegative(freq.drop_last());
    if v < freq.len() - 1 {
        lemma_some_count(freq.drop_last(), v);
    }
}

/// The sum of counts is not negative.
proof fn lemma_sum_nonnegative(freq: Seq<u32>)
    ensures
        sum_of(freq) >= 0,
    decreases freq.len(),
{
    if freq.len() > 0 {
        lemma_sum_nonnegative(freq.drop_last());
    }
}

} // verus!
