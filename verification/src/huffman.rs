//! Huffman coding with a table of frequencies at the head of the file.
//!
//! The encoder counts the bytes of its input, writes the 256 counts and
//! their total, builds the tree from the counts and writes the code of each
//! byte.  The decoder reads the counts, builds the same tree and follows
//! the bits from the root to a leaf, once for each byte of the total.

use vstd::prelude::*;

use crate::bits::{bits_of, from_le_bytes, le_bytes, le_word, pack, pack_bits, to_le_bytes};
use crate::utils::{
    count_of, lemma_occurrences_all, lemma_occurrences_bounds, lemma_occurrences_split,
    occurrences,
};
use crate::error::FormatError;
use crate::optimal::{
    cost, is_prefix_code, lemma_optimal, lemma_tree_codes_prefix_free, tree_codes,
};
use crate::{BitStream, Mode};

verus! {

/// A node of the tree.  The nodes stand in one table: first a leaf for each
/// byte value, then the inner nodes in the order in which they were made.
#[allow(non_camel_case_types)]
#[derive(Clone, Copy, Debug)]
pub struct node {
    /// The child that the bit 0 leads to.
    pub left: Option<usize>,
    /// The child that the bit 1 leads to.
    pub right: Option<usize>,
    /// The node of which this one is a child.
    pub parent: Option<usize>,
    /// How often the bytes below this node occur.
    pub freq: u32,
}

/// The sum of the counts.
pub open spec fn sum_of(freq: Seq<u32>) -> int
    decreases freq.len(),
{
    if freq.len() == 0 {
        0
    } else {
        sum_of(freq.drop_last()) + freq.last()
    }
}

/// The order in which nodes are taken out for merging: by the count, and
/// for equal counts by the place in the table.
pub open spec fn weight_lt(a: (u32, usize), b: (u32, usize)) -> bool {
    a.0 < b.0 || (a.0 == b.0 && a.1 < b.1)
}

/// The place of the least of the nodes that wait; the first such place,
/// should the same node wait twice.
pub open spec fn least_index(pending: Seq<(u32, usize)>) -> int
    decreases pending.len(),
{
    if pending.len() <= 1 {
        0
    } else {
        let k = least_index(pending.drop_last());
        if weight_lt(pending.last(), pending[k]) {
            pending.len() - 1
        } else {
            k
        }
    }
}

/// The place of the least node is a place of the list, and no node is less
/// than the node there.
pub proof fn lemma_least_index(pending: Seq<(u32, usize)>)
    requires
        pending.len() >= 1,
    ensures
        0 <= least_index(pending) < pending.len(),
        forall|j: int|
            0 <= j < pending.len() ==> !weight_lt(#[trigger] pending[j], pending[least_index(pending)]),
    decreases pending.len(),
{
    if pending.len() > 1 {
        lemma_least_index(pending.drop_last());
        assert forall|j: int| 0 <= j < pending.len() implies !weight_lt(
            #[trigger] pending[j],
            pending[least_index(pending)],
        ) by {
            if j < pending.len() - 1 {
                assert(pending[j] == pending.drop_last()[j]);
            }
        }
    }
}

/// The leaves with which the tree starts: one for each count.
pub open spec fn leaves(freq: Seq<u32>) -> Seq<node> {
    Seq::new(freq.len(), |i: int| node { left: None, right: None, parent: None, freq: freq[i] })
}

/// The leaves that wait for merging at the start: those of the first `k`
/// byte values whose count is not zero.
pub open spec fn nonzero(freq: Seq<u32>, k: int) -> Seq<(u32, usize)>
    decreases k,
{
    if k <= 0 {
        Seq::empty()
    } else if freq[k - 1] != 0 {
        nonzero(freq, k - 1).push((freq[k - 1], (k - 1) as usize))
    } else {
        nonzero(freq, k - 1)
    }
}

/// The node `x` of the table with `p` as its parent.
pub open spec fn adopted(tree: Seq<node>, x: int, p: int) -> Seq<node> {
    tree.update(
        x,
        node {
            left: tree[x].left,
            right: tree[x].right,
            parent: Some(p as usize),
            freq: tree[x].freq,
        },
    )
}

/// The table after the nodes `left` and `right` have got a new node as
/// their parent.
pub open spec fn joined(tree: Seq<node>, left: (u32, usize), right: (u32, usize)) -> Seq<node> {
    let id = tree.len() as int;
    adopted(
        adopted(
            tree.push(
                node {
                    left: Some(left.1),
                    right: Some(right.1),
                    parent: None,
                    freq: (left.0 + right.0) as u32,
                },
            ),
            left.1 as int,
            id,
        ),
        right.1 as int,
        id,
    )
}

/// The table once the nodes that wait have been merged into one tree: as
/// long as two nodes wait, the two least leave, the lesser as the left child
/// and the other as the right child of a new node, which waits in their
/// place with the sum of their counts.
pub open spec fn merged(tree: Seq<node>, pending: Seq<(u32, usize)>) -> Seq<node>
    decreases pending.len(),
{
    if pending.len() <= 1 {
        tree
    } else {
        let a = least_index(pending);
        let rest = pending.remove(a);
        let b = least_index(rest);
        proof {
            lemma_least_index(pending);
            lemma_least_index(rest);
        }
        merged(
            joined(tree, pending[a], rest[b]),
            rest.remove(b).push(((pending[a].0 + rest[b].0) as u32, tree.len() as usize)),
        )
    }
}

/// The table for a single byte value that occurs: the leaves, and a root
/// whose only child, the left one, is the leaf of this byte.
pub open spec fn single(tree: Seq<node>, only: (u32, usize)) -> Seq<node> {
    adopted(
        tree.push(node { left: Some(only.1), right: None, parent: None, freq: only.0 }),
        only.1 as int,
        tree.len() as int,
    )
}

/// The tree for the counts `freq`.  Where no byte occurs it is the leaves
/// alone; where one byte value occurs, this byte has the code of the one
/// bit 0; else the root is the last node of the table.
pub open spec fn huffman_tree(freq: Seq<u32>) -> Seq<node> {
    let pending = nonzero(freq, freq.len() as int);
    if pending.len() == 1 {
        single(leaves(freq), pending[0])
    } else {
        merged(leaves(freq), pending)
    }
}

/// The sum of the counts of the nodes that wait.
pub open spec fn total_of(pending: Seq<(u32, usize)>) -> int
    decreases pending.len(),
{
    if pending.len() == 0 {
        0
    } else {
        total_of(pending.drop_last()) + pending.last().0
    }
}

/// Without a node the sum of the counts is less by the count of this node.
pub proof fn lemma_total_of_remove(pending: Seq<(u32, usize)>, i: int)
    requires
        0 <= i < pending.len(),
    ensures
        total_of(pending.remove(i)) == total_of(pending) - pending[i].0,
        total_of(pending) >= pending[i].0,
    decreases pending.len(),
{
    if i == pending.len() - 1 {
        assert(pending.remove(i) =~= pending.drop_last());
        lemma_total_of_nonnegative(pending.drop_last());
    } else {
        assert(pending.remove(i).drop_last() =~= pending.drop_last().remove(i));
        assert(pending.remove(i).last() == pending.last());
        lemma_total_of_remove(pending.drop_last(), i);
    }
}

/// The sum of counts is not negative.
pub proof fn lemma_total_of_nonnegative(pending: Seq<(u32, usize)>)
    ensures
        total_of(pending) >= 0,
    decreases pending.len(),
{
    if pending.len() > 0 {
        lemma_total_of_nonnegative(pending.drop_last());
    }
}

/// With one more node the sum of the counts is more by the count of this node.
pub proof fn lemma_total_of_push(pending: Seq<(u32, usize)>, x: (u32, usize))
    ensures
        total_of(pending.push(x)) == total_of(pending) + x.0,
{
    assert(pending.push(x).drop_last() =~= pending);
}

/// The leaves that wait at the start carry all the counts, and each is a
/// leaf of the table.
pub proof fn lemma_nonzero(freq: Seq<u32>, k: int)
    requires
        0 <= k <= freq.len(),
        freq.len() <= usize::MAX,
    ensures
        total_of(nonzero(freq, k)) == sum_of(freq.take(k)),
        nonzero(freq, k).len() <= k,
        forall|i: int|
            0 <= i < nonzero(freq, k).len() ==> (#[trigger] nonzero(freq, k)[i]).1 < k && nonzero(
                freq,
                k,
            )[i].0 == freq[nonzero(freq, k)[i].1 as int] && nonzero(freq, k)[i].0 > 0,
        forall|i: int, j: int|
            0 <= i < j < nonzero(freq, k).len() ==> (#[trigger] nonzero(freq, k)[i]).1 < (
            #[trigger] nonzero(freq, k)[j]).1,
        forall|x: int|
            0 <= x < k && freq[x] != 0 ==> exists|i: int|
                0 <= i < nonzero(freq, k).len() && (#[trigger] nonzero(freq, k)[i]).1 == x,
    decreases k,
{
    if k > 0 {
        lemma_nonzero(freq, k - 1);
        assert(freq.take(k).drop_last() =~= freq.take(k - 1));
        let before = nonzero(freq, k - 1);
        let now = nonzero(freq, k);
        if freq[k - 1] != 0 {
            lemma_total_of_push(before, (freq[k - 1], (k - 1) as usize));
        }
        assert forall|x: int| 0 <= x < k && freq[x] != 0 implies exists|i: int|
            0 <= i < now.len() && (#[trigger] now[i]).1 == x by {
            if x < k - 1 {
                let i = choose|i: int| 0 <= i < before.len() && (#[trigger] before[i]).1 == x;
                assert(now[i].1 == x);
            } else {
                assert(now[now.len() - 1].1 == x);
            }
        }
    } else {
        assert(freq.take(0) =~= Seq::<u32>::empty());
    }
}

/// The nodes that wait are nodes of a table of `len` nodes, each waits
/// once, and their counts fit in a count together.
pub open spec fn waiting(pending: Seq<(u32, usize)>, len: int) -> bool {
    &&& total_of(pending) <= u32::MAX
    &&& forall|i: int| 0 <= i < pending.len() ==> (#[trigger] pending[i]).1 < len
    &&& forall|i: int, j: int|
        0 <= i < j < pending.len() ==> (#[trigger] pending[i]).1 != (#[trigger] pending[j]).1
}

/// The place that the item at `i` had in a sequence before first the item
/// at `a` and then, of what was left, the item at `b` were taken out.
pub open spec fn twice_removed(i: int, a: int, b: int) -> int {
    let r = if i < b {
        i
    } else {
        i + 1
    };
    if r < a {
        r
    } else {
        r + 1
    }
}

/// Takes the least of the nodes that wait out of their list.
fn pop_min(elements: &mut Vec<(u32, usize)>) -> (least: (u32, usize))
    requires
        old(elements).len() >= 1,
    ensures
        least == old(elements)@[least_index(old(elements)@)],
        final(elements)@ == old(elements)@.remove(least_index(old(elements)@)),
{
    let mut best: usize = 0;
    let mut i: usize = 1;
    assert(elements@.take(1).drop_last() =~= Seq::<(u32, usize)>::empty());
    while i < elements.len()
        invariant
            1 <= i <= elements.len(),
            best < i,
            best == least_index(elements@.take(i as int)),
            elements@ == old(elements)@,
        decreases elements.len() - i,
    {
        let x = elements[i];
        let y = elements[best];
        proof {
            let longer = elements@.take(i + 1);
            assert(longer.drop_last() =~= elements@.take(i as int));
            assert(longer.last() == x);
            assert(longer[best as int] == y);
        }
        if x.0 < y.0 || (x.0 == y.0 && x.1 < y.1) {
            best = i;
        }
        i += 1;
    }
    assert(elements@.take(elements.len() as int) =~= elements@);
    elements.remove(best)
}

/// Builds the tree for the counts `freq`, which must fit in a count
/// together: the table of `huffman_tree`.  It is one tree: every node but
/// the root, which is the last, has a parent, unless it is the leaf of a
/// byte that does not occur.  Its codes are a prefix code for the bytes
/// that occur, and an optimal one: no prefix code for these bytes takes
/// fewer bits, each codeword counted as often as its byte occurs.
pub fn build_tree(freq: &[u32]) -> (tree: Vec<node>)
    requires
        sum_of(freq@) <= u32::MAX,
    ensures
        tree@ == huffman_tree(freq@),
        2 * freq.len() < usize::MAX ==> rooted(tree@, freq.len() as int),
        2 * freq.len() < usize::MAX ==> forall|x: int|
            0 <= x < freq.len() ==> (#[trigger] tree@[x]).freq == freq@[x],
        2 * freq.len() < usize::MAX ==> is_prefix_code(
            freq@,
            tree_codes(tree@, freq.len() as int),
        ),
        2 * freq.len() < usize::MAX ==> forall|codes: Seq<Seq<bool>>|
            #[trigger] is_prefix_code(freq@, codes) ==> cost(
                freq@,
                tree_codes(tree@, freq.len() as int),
                freq.len() as int,
            ) <= cost(freq@, codes, freq.len() as int),
{
    proof {
        if 2 * freq.len() < usize::MAX {
            lemma_huffman_tree(freq@);
            lemma_tree_codes_prefix_free(freq@);
            assert forall|codes: Seq<Seq<bool>>| #[trigger]
                is_prefix_code(freq@, codes) implies cost(
                freq@,
                tree_codes(huffman_tree(freq@), freq.len() as int),
                freq.len() as int,
            ) <= cost(freq@, codes, freq.len() as int) by {
                lemma_optimal(freq@, codes);
            }
        }
    }
    let n = freq.len();
    let mut elements: Vec<(u32, usize)> = Vec::new();
    let mut tree: Vec<node> = Vec::new();
    let mut i: usize = 0;
    while i < n
        invariant
            i <= n,
            n == freq.len(),
            tree@ == leaves(freq@).take(i as int),
            elements@ == nonzero(freq@, i as int),
        decreases n - i,
    {
        let x = freq[i];
        if x != 0 {
            elements.push((x, i));
        }
        tree.push(node { left: None, right: None, parent: None, freq: x });
        i += 1;
        assert(tree@ =~= leaves(freq@).take(i as int));
    }
    assert(tree@ =~= leaves(freq@));
    proof {
        lemma_nonzero(freq@, n as int);
        assert(freq@.take(n as int) =~= freq@);
    }
    if elements.len() == 1 {
        let only = elements[0];
        let id = tree.len();
        tree.push(node { left: Some(only.1), right: None, parent: None, freq: only.0 });
        let mut leaf = tree[only.1];
        leaf.parent = Some(id);
        tree.set(only.1, leaf);
        assert(tree@ =~= single(leaves(freq@), only));
        return tree;
    }
    while elements.len() > 1
        invariant
            waiting(elements@, tree.len() as int),
            merged(tree@, elements@) == huffman_tree(freq@),
        decreases elements.len(),
    {
        let ghost pending = elements@;
        let ghost table = tree@;
        proof {
            lemma_least_index(pending);
            lemma_least_index(pending.remove(least_index(pending)));
            lemma_total_of_remove(pending, least_index(pending));
            lemma_total_of_remove(
                pending.remove(least_index(pending)),
                least_index(pending.remove(least_index(pending))),
            );
            lemma_total_of_nonnegative(
                pending.remove(least_index(pending)).remove(
                    least_index(pending.remove(least_index(pending))),
                ),
            );
        }
        let left = pop_min(&mut elements);
        let ghost rest = elements@;
        let right = pop_min(&mut elements);
        let freq_ind = left.0 + right.0;
        let tree_ind = tree.len();
        assert(left.1 < tree_ind && right.1 < tree_ind) by {
            let a = least_index(pending);
            let b = least_index(rest);
            assert(rest[b] == pending[if b < a {
                b
            } else {
                b + 1
            }]);
        }
        tree.push(node { left: Some(left.1), right: Some(right.1), parent: None, freq: freq_ind });
        let mut child = tree[left.1];
        child.parent = Some(tree_ind);
        tree.set(left.1, child);
        let mut child = tree[right.1];
        child.parent = Some(tree_ind);
        tree.set(right.1, child);
        assert(tree@ =~= joined(table, left, right));
        let ghost shorter = elements@;
        elements.push((freq_ind, tree_ind));
        proof {
            lemma_total_of_push(shorter, (freq_ind, tree_ind));
            let a = least_index(pending);
            let b = least_index(rest);
            assert forall|i: int| 0 <= i < shorter.len() implies #[trigger] shorter[i]
                == pending[twice_removed(i, a, b)] by {
                let r = if i < b {
                    i
                } else {
                    i + 1
                };
                assert(shorter[i] == rest[r]);
            }
            assert forall|i: int| 0 <= i < shorter.len() implies (#[trigger] shorter[i]).1
                < tree_ind by {
                assert(shorter[i] == pending[twice_removed(i, a, b)]);
            }
            assert forall|i: int, j: int| 0 <= i < j < shorter.len() implies (
            #[trigger] shorter[i]).1 != (#[trigger] shorter[j]).1 by {
                assert(shorter[i] == pending[twice_removed(i, a, b)]);
                assert(shorter[j] == pending[twice_removed(j, a, b)]);
            }
        }
    }
    tree
}

/// The node `x` fits into the table: a leaf has no child; an inner node has
/// a left child; each child stands before its parent and names it; and each
/// parent is an inner node that stands behind its child and names it.
pub open spec fn node_ok(tree: Seq<node>, n: int, x: int) -> bool {
    let nd = tree[x];
    &&& (x < n ==> nd.left.is_none() && nd.right.is_none())
    &&& (x >= n ==> nd.left.is_some())
    &&& match nd.left {
        Some(l) => l < x && tree[l as int].parent == Some(x as usize),
        None => true,
    }
    &&& match nd.right {
        Some(r) => r < x && tree[r as int].parent == Some(x as usize) && nd.left != Some(r),
        None => true,
    }
    &&& match nd.parent {
        Some(p) => x < p < tree.len() && n <= p && (tree[p as int].left == Some(x as usize)
            || tree[p as int].right == Some(x as usize)),
        None => true,
    }
}

/// Every node fits into the table, whose first `n` nodes are the leaves.
pub open spec fn tree_ok(tree: Seq<node>, n: int) -> bool {
    &&& 0 <= n <= tree.len() <= usize::MAX
    &&& forall|x: int| 0 <= x < tree.len() ==> #[trigger] node_ok(tree, n, x)
}

/// The table is a forest, and the nodes that wait are its roots: each waits
/// once, and besides them only leaves of bytes that do not occur are without
/// a parent.
pub open spec fn forest(tree: Seq<node>, pending: Seq<(u32, usize)>, n: int) -> bool {
    &&& tree_ok(tree, n)
    &&& forall|i: int|
        0 <= i < pending.len() ==> (#[trigger] pending[i]).1 < tree.len() && tree[pending[i].1 as int].parent.is_none()
    &&& forall|i: int, j: int|
        0 <= i < j < pending.len() ==> (#[trigger] pending[i]).1 != (#[trigger] pending[j]).1
    &&& forall|x: int|
        0 <= x < tree.len() && (#[trigger] tree[x]).parent.is_none() && (x >= n || tree[x].freq != 0)
            ==> exists|i: int| 0 <= i < pending.len() && (#[trigger] pending[i]).1 == x
    &&& (pending.len() == 1 ==> pending[0].1 == tree.len() - 1)
}

/// The table is one tree: every node fits, and every node but the last,
/// which is the root, has a parent, unless it is the leaf of a byte that
/// does not occur.
pub open spec fn rooted(tree: Seq<node>, n: int) -> bool {
    &&& tree_ok(tree, n)
    &&& forall|x: int|
        0 <= x < tree.len() - 1 && (x >= n || (#[trigger] tree[x]).freq != 0)
            ==> tree[x].parent.is_some()
}

/// A forest stays a forest when two of its roots get a new node as parent,
/// which becomes a root in their place.
pub proof fn lemma_join_keeps_forest(tree: Seq<node>, pending: Seq<(u32, usize)>, n: int)
    requires
        forest(tree, pending, n),
        pending.len() >= 2,
        tree.len() < usize::MAX,
    ensures
        ({
            let a = least_index(pending);
            let rest = pending.remove(a);
            let b = least_index(rest);
            forest(
                joined(tree, pending[a], rest[b]),
                rest.remove(b).push(((pending[a].0 + rest[b].0) as u32, tree.len() as usize)),
                n,
            )
        }),
{
    let a = least_index(pending);
    let rest = pending.remove(a);
    let b = least_index(rest);
    lemma_least_index(pending);
    lemma_least_index(rest);
    let left = pending[a];
    let right = rest[b];
    let id = tree.len() as int;
    let next = joined(tree, left, right);
    let shorter = rest.remove(b);
    let waits = shorter.push(((left.0 + right.0) as u32, id as usize));
    let rb = if b < a {
        b
    } else {
        b + 1
    };
    assert(right == pending[rb]);
    assert(left.1 != right.1) by {
        if a < rb {
            assert(pending[a].1 != pending[rb].1);
        } else {
            assert(pending[rb].1 != pending[a].1);
        }
    }
    let l = left.1 as int;
    let r = right.1 as int;
    assert(next.len() == id + 1);
    assert forall|x: int| 0 <= x < next.len() implies next[x].left == (if x == id {
        Some(left.1)
    } else {
        tree[x].left
    }) && next[x].right == (if x == id {
        Some(right.1)
    } else {
        tree[x].right
    }) && next[x].parent == (if x == l || x == r {
        Some(id as usize)
    } else if x == id {
        None
    } else {
        tree[x].parent
    }) && (x < id ==> next[x].freq == tree[x].freq) by {}
    assert forall|x: int| 0 <= x < next.len() implies #[trigger] node_ok(next, n, x) by {
        if x < id {
            assert(node_ok(tree, n, x));
            match tree[x].left {
                Some(c) => {
                    assert(tree[c as int].parent.is_some());
                },
                None => {},
            }
            match tree[x].right {
                Some(c) => {
                    assert(tree[c as int].parent.is_some());
                },
                None => {},
            }
        }
    }
    assert forall|i: int| 0 <= i < shorter.len() implies #[trigger] shorter[i]
        == pending[twice_removed(i, a, b)] by {
        let q = if i < b {
            i
        } else {
            i + 1
        };
        assert(shorter[i] == rest[q]);
    }
    assert forall|i: int| 0 <= i < waits.len() implies (#[trigger] waits[i]).1 < next.len()
        && next[waits[i].1 as int].parent.is_none() by {
        if i < shorter.len() {
            let m = twice_removed(i, a, b);
            assert(waits[i] == pending[m]);
            assert(m != a && m != rb);
            if m < a {
                assert(pending[m].1 != pending[a].1);
            } else {
                assert(pending[a].1 != pending[m].1);
            }
            if m < rb {
                assert(pending[m].1 != pending[rb].1);
            } else {
                assert(pending[rb].1 != pending[m].1);
            }
        }
    }
    assert forall|i: int, j: int| 0 <= i < j < waits.len() implies (#[trigger] waits[i]).1 != (
    #[trigger] waits[j]).1 by {
        assert(waits[i] == pending[twice_removed(i, a, b)]);
        if j < shorter.len() {
            assert(waits[j] == pending[twice_removed(j, a, b)]);
        }
    }
    assert forall|x: int|
        0 <= x < next.len() && (#[trigger] next[x]).parent.is_none() && (x >= n || next[x].freq
            != 0) implies exists|i: int| 0 <= i < waits.len() && (#[trigger] waits[i]).1 == x by {
        if x == id {
            assert(waits[waits.len() - 1].1 == x);
        } else {
            assert(tree[x].parent.is_none());
            let m = choose|m: int| 0 <= m < pending.len() && (#[trigger] pending[m]).1 == x;
            assert(m != a && m != rb);
            let q = if m < a {
                m
            } else {
                m - 1
            };
            assert(rest[q] == pending[m]);
            let i = if q < b {
                q
            } else {
                q - 1
            };
            assert(shorter[i] == rest[q]);
            assert(waits[i].1 == x);
        }
    }
}

/// Joining two roots adds one node to the table and takes one root away.
pub proof fn lemma_merged_tree(tree: Seq<node>, pending: Seq<(u32, usize)>, n: int)
    requires
        forest(tree, pending, n),
        tree.len() + pending.len() <= usize::MAX,
    ensures
        rooted(merged(tree, pending), n),
        merged(tree, pending).len() == tree.len() + (if pending.len() >= 1 {
            pending.len() - 1
        } else {
            0
        }),
        forall|x: int| 0 <= x < tree.len() ==> (#[trigger] merged(tree, pending)[x]).freq == tree[x].freq,
    decreases pending.len(),
{
    if pending.len() <= 1 {
        assert forall|x: int|
            0 <= x < tree.len() - 1 && (x >= n || (#[trigger] tree[x]).freq != 0) implies tree[x].parent.is_some() by {
            if tree[x].parent.is_none() {
                let i = choose|i: int| 0 <= i < pending.len() && (#[trigger] pending[i]).1 == x;
            }
        }
    } else {
        let a = least_index(pending);
        let rest = pending.remove(a);
        let b = least_index(rest);
        lemma_least_index(pending);
        lemma_least_index(rest);
        lemma_join_keeps_forest(tree, pending, n);
        let next = joined(tree, pending[a], rest[b]);
        let waits = rest.remove(b).push(((pending[a].0 + rest[b].0) as u32, tree.len() as usize));
        lemma_merged_tree(next, waits, n);
        assert forall|x: int| 0 <= x < tree.len() implies (#[trigger] merged(tree, pending)[x]).freq
            == tree[x].freq by {
            assert(merged(next, waits)[x].freq == next[x].freq);
        }
    }
}

/// The tree for any counts is one tree, its leaves carry the counts, and it
/// has a root apart from the leaves as soon as a byte occurs.
pub proof fn lemma_huffman_tree(freq: Seq<u32>)
    requires
        2 * freq.len() < usize::MAX,
    ensures
        rooted(huffman_tree(freq), freq.len() as int),
        forall|x: int|
            0 <= x < freq.len() ==> (#[trigger] huffman_tree(freq)[x]).freq == freq[x],
        sum_of(freq) > 0 ==> huffman_tree(freq).len() > freq.len(),
        huffman_tree(freq).len() < 2 * freq.len() + 1,
{
    let n = freq.len() as int;
    let pending = nonzero(freq, n);
    let start = leaves(freq);
    lemma_nonzero(freq, n);
    assert(freq.take(n) =~= freq);
    if pending.len() == 1 {
        let tree = single(start, pending[0]);
        let s = pending[0].1 as int;
        assert forall|x: int| 0 <= x < tree.len() implies #[trigger] node_ok(tree, n, x) by {}
        assert forall|x: int|
            0 <= x < tree.len() - 1 && (x >= n || (#[trigger] tree[x]).freq != 0) implies tree[x].parent.is_some() by {
            if x != s {
                let i = choose|i: int| 0 <= i < pending.len() && (#[trigger] pending[i]).1 == x;
            }
        }
    } else {
        assert forall|x: int| 0 <= x < start.len() implies #[trigger] node_ok(start, n, x) by {}
        assert(forest(start, pending, n));
        lemma_merged_tree(start, pending, n);
        if sum_of(freq) > 0 {
            assert(pending.len() >= 2) by {
                if pending.len() == 0 {
                    assert(total_of(pending) == 0);
                }
            }
        }
    }
}

/// The number of bytes of the head of a file: 256 counts and their total,
/// four bytes each.
pub const HEADER_LEN: usize = 1028;

/// How often each byte value occurs in `input`.
pub open spec fn counts(input: Seq<u8>) -> Seq<u32> {
    Seq::new(256, |v: int| count_of(input, v) as u32)
}

/// The code of the node `x`: the bits that lead from the root to it, 0 for
/// each step to a left child and 1 for each step to a right child.
pub open spec fn code_of(tree: Seq<node>, x: int) -> Seq<bool>
    decreases tree.len() - x,
{
    if 0 <= x < tree.len() {
        match tree[x].parent {
            Some(p) => if x < p < tree.len() {
                code_of(tree, p as int).push(tree[p as int].right == Some(x as usize))
            } else {
                Seq::empty()
            },
            None => Seq::empty(),
        }
    } else {
        Seq::empty()
    }
}

/// The codes of the bytes of `input`, one after the other.
pub open spec fn coded(tree: Seq<node>, input: Seq<u8>) -> Seq<bool>
    decreases input.len(),
{
    if input.len() == 0 {
        Seq::empty()
    } else {
        coded(tree, input.drop_last()) + code_of(tree, input.last() as int)
    }
}

/// The first `k` counts, four bytes each, the least significant first.
pub open spec fn table_bytes(freq: Seq<u32>, k: int) -> Seq<u8>
    decreases k,
{
    if k <= 0 {
        Seq::empty()
    } else {
        table_bytes(freq, k - 1) + le_bytes(freq[k - 1])
    }
}

/// The head of a file: the counts and their total.
pub open spec fn header(freq: Seq<u32>, total: u32) -> Seq<u8> {
    table_bytes(freq, freq.len() as int) + le_bytes(total)
}

/// The file that stands for `input`: the head with the counts of its bytes
/// and with its length, then the codes of its bytes in the tree for these
/// counts, packed into bytes.
pub open spec fn encoded(input: Seq<u8>) -> Seq<u8> {
    header(counts(input), input.len() as u32) + pack(coded(huffman_tree(counts(input)), input))
}

/// Entry `v` of the head of a file: the count of the byte `v`, or with 256
/// the total.
pub open spec fn table_entry(input: Seq<u8>, v: int) -> u32 {
    le_word(input.subrange(4 * v, 4 * v + 4))
}

/// The counts in the head of a file.
pub open spec fn parsed_counts(input: Seq<u8>) -> Seq<u32> {
    Seq::new(256, |v: int| table_entry(input, v))
}

/// The bytes found by following `bits` through the tree from position
/// `pos`, standing at the node `at`, until `count` more bytes are found;
/// `out` holds those found before.  Each bit leads to a child, 0 to the
/// left and 1 to the right; a child that is a leaf gives its byte, and the
/// way starts again at the root, the last node of the table.
#[verifier::opaque]
pub open spec fn walked(
    tree: Seq<node>,
    bits: Seq<bool>,
    pos: int,
    at: int,
    count: int,
    out: Seq<u8>,
) -> Result<Seq<u8>, FormatError>
    decreases bits.len() - pos,
{
    if count <= 0 {
        Ok(out)
    } else if pos < 0 || pos >= bits.len() {
        Err(FormatError::TruncatedStream)
    } else {
        let next = if bits[pos] {
            tree[at].right
        } else {
            tree[at].left
        };
        match next {
            None => Err(FormatError::CodeOutOfRange),
            Some(c) => if c < 256 {
                walked(tree, bits, pos + 1, tree.len() - 1, count - 1, out.push(c as u8))
            } else {
                walked(tree, bits, pos + 1, c as int, count, out)
            },
        }
    }
}

/// The bytes that the file `input` stands for, or the reason why it stands
/// for none: `CorruptHeader` where the file is shorter than its head or the
/// counts do not add up to the total, `TruncatedStream` where the bits end
/// before all bytes are found, `CodeOutOfRange` where a bit leads to a child
/// that the tree does not have.
pub open spec fn decoded(input: Seq<u8>) -> Result<Seq<u8>, FormatError> {
    if input.len() < HEADER_LEN {
        Err(FormatError::CorruptHeader)
    } else {
        let freq = parsed_counts(input);
        let total = table_entry(input, 256);
        if sum_of(freq) != total {
            Err(FormatError::CorruptHeader)
        } else {
            let tree = huffman_tree(freq);
            walked(
                tree,
                bits_of(input.skip(HEADER_LEN as int)),
                0,
                tree.len() - 1,
                total as int,
                Seq::empty(),
            )
        }
    }
}

/// One step of `walked`, by the bit that is followed.
pub proof fn lemma_walked_step(
    tree: Seq<node>,
    bits: Seq<bool>,
    pos: int,
    at: int,
    count: int,
    out: Seq<u8>,
)
    ensures
        count <= 0 ==> walked(tree, bits, pos, at, count, out) == Ok::<Seq<u8>, FormatError>(out),
        count > 0 && (pos < 0 || pos >= bits.len()) ==> walked(tree, bits, pos, at, count, out)
            == Err::<Seq<u8>, FormatError>(FormatError::TruncatedStream),
        count > 0 && 0 <= pos < bits.len() ==> walked(tree, bits, pos, at, count, out) == (match (
        if bits[pos] {
            tree[at].right
        } else {
            tree[at].left
        }) {
            None => Err::<Seq<u8>, FormatError>(FormatError::CodeOutOfRange),
            Some(c) => if c < 256 {
                walked(tree, bits, pos + 1, tree.len() - 1, count - 1, out.push(c as u8))
            } else {
                walked(tree, bits, pos + 1, c as int, count, out)
            },
        }),
{
    reveal(walked);
}

/// The counts of the first byte values add up to the number of the bytes
/// with these values.
pub proof fn lemma_counts_sum(input: Seq<u8>, k: int)
    requires
        0 <= k <= 256,
        input.len() <= u32::MAX,
    ensures
        sum_of(counts(input).take(k)) == occurrences(input, 0, k),
    decreases k,
{
    if k == 0 {
        assert(counts(input).take(0) =~= Seq::<u32>::empty());
        lemma_occurrences_split(input, 0, 0, 0);
    } else {
        lemma_counts_sum(input, k - 1);
        assert(counts(input).take(k).drop_last() =~= counts(input).take(k - 1));
        lemma_occurrences_split(input, 0, k - 1, k);
        lemma_occurrences_bounds(input, k - 1, k);
    }
}

/// Counts how often each byte value occurs in `input`, and the bytes of
/// `input`.
pub fn build_freq_table(input: &[u8]) -> (r: (Vec<u32>, u32))
    requires
        input.len() <= u32::MAX,
    ensures
        r.0@ == counts(input@),
        r.1 == input.len(),
        sum_of(r.0@) == input.len(),
{
    let mut freq: Vec<u32> = vec![0u32; 256];
    let mut count_bytes: u32 = 0;
    let mut i: usize = 0;
    assert(input@.take(0) =~= Seq::<u8>::empty());
    while i < input.len()
        invariant
            i <= input.len(),
            input.len() <= u32::MAX,
            freq.len() == 256,
            count_bytes == i,
            forall|v: int| 0 <= v < 256 ==> #[trigger] freq@[v] == count_of(input@.take(i as int), v),
        decreases input.len() - i,
    {
        let x = input[i] as usize;
        proof {
            assert(input@.take(i + 1).drop_last() =~= input@.take(i as int));
            lemma_occurrences_bounds(input@.take(i as int), x as int, x + 1);
        }
        freq.set(x, freq[x] + 1);
        count_bytes += 1;
        i += 1;
    }
    proof {
        assert(input@.take(input.len() as int) =~= input@);
        assert forall|v: int| 0 <= v < 256 implies #[trigger] freq@[v] == counts(input@)[v] by {
            lemma_occurrences_bounds(input@, v, v + 1);
        }
        assert(freq@ =~= counts(input@));
        lemma_counts_sum(input@, 256);
        assert(counts(input@).take(256) =~= counts(input@));
        lemma_occurrences_all(input@);
    }
    (freq, count_bytes)
}

/// The code of each byte value: its bits packed into bytes, and their
/// number.  A byte that does not occur has the empty code.
pub fn build_table_code(tree: &[node]) -> (table_code: Vec<(Vec<u8>, usize)>)
    requires
        tree_ok(tree@, 256),
    ensures
        table_code.len() == 256,
        forall|i: int|
            0 <= i < 256 ==> (#[trigger] table_code@[i]).0@ == pack(code_of(tree@, i))
                && table_code@[i].1 == code_of(tree@, i).len(),
{
    let mut table_code: Vec<(Vec<u8>, usize)> = Vec::new();
    let mut i: usize = 0;
    while i < 256
        invariant
            i <= 256,
            tree_ok(tree@, 256),
            table_code.len() == i,
            forall|k: int|
                0 <= k < i ==> (#[trigger] table_code@[k]).0@ == pack(code_of(tree@, k))
                    && table_code@[k].1 == code_of(tree@, k).len(),
        decreases 256 - i,
    {
        let mut child: usize = i;
        let mut back: Vec<bool> = Vec::new();
        assert(code_of(tree@, i as int) =~= code_of(tree@, child as int) + back@.reverse());
        while tree[child].parent.is_some()
            invariant
                child < tree.len(),
                tree_ok(tree@, 256),
                back.len() <= child,
                code_of(tree@, i as int) == code_of(tree@, child as int) + back@.reverse(),
            decreases tree.len() - child,
        {
            let parent = tree[child].parent.unwrap();
            assert(node_ok(tree@, 256, child as int));
            let ghost rest = back@;
            let step = match tree[parent].right {
                Some(r) => r == child,
                None => false,
            };
            back.push(step);
            proof {
                assert(back@.reverse() =~= seq![step] + rest.reverse());
                assert(code_of(tree@, child as int) == code_of(tree@, parent as int).push(step));
                assert(code_of(tree@, parent as int) + back@.reverse() =~= code_of(
                    tree@,
                    child as int,
                ) + rest.reverse());
            }
            child = parent;
        }
        assert(code_of(tree@, child as int) =~= Seq::<bool>::empty());
        let mut code: Vec<bool> = Vec::new();
        let mut j: usize = back.len();
        while j > 0
            invariant
                j <= back.len(),
                code@ == back@.reverse().take(back.len() - j),
            decreases j,
        {
            j -= 1;
            code.push(back[j]);
            assert(code@ =~= back@.reverse().take(back.len() - j));
        }
        assert(code@ =~= code_of(tree@, i as int));
        let seq_code = pack_bits(&code);
        table_code.push((seq_code, code.len()));
        i += 1;
    }
    table_code
}

/// The head of a file: the counts and `count_bytes`, their total.
pub fn write_freq_table(freq: &[u32], count_bytes: u32) -> (head: Vec<u8>)
    ensures
        head@ == header(freq@, count_bytes),
{
    let mut head: Vec<u8> = Vec::new();
    let mut k: usize = 0;
    while k < freq.len()
        invariant
            k <= freq.len(),
            head@ == table_bytes(freq@, k as int),
        decreases freq.len() - k,
    {
        let bytes = to_le_bytes(freq[k]);
        let ghost before = head@;
        head.extend_from_slice(bytes.as_slice());
        assert(head@ =~= before + bytes@);
        k += 1;
    }
    let bytes = to_le_bytes(count_bytes);
    let ghost before = head@;
    head.extend_from_slice(bytes.as_slice());
    assert(head@ =~= before + bytes@);
    head
}

/// The counts and the total in the head of a file; `CorruptHeader` where
/// the file is shorter than its head.
pub fn read_freq_table(input: &[u8]) -> (r: Result<(Vec<u32>, u32), FormatError>)
    ensures
        input.len() < HEADER_LEN ==> r == Err::<(Vec<u32>, u32), FormatError>(
            FormatError::CorruptHeader,
        ),
        input.len() >= HEADER_LEN ==> r.is_ok() && r.unwrap().0@ == parsed_counts(input@)
            && r.unwrap().1 == table_entry(input@, 256),
{
    if input.len() < HEADER_LEN {
        return Err(FormatError::CorruptHeader);
    }
    let mut freq: Vec<u32> = Vec::new();
    let mut v: usize = 0;
    while v < 256
        invariant
            v <= 256,
            input.len() >= HEADER_LEN,
            freq.len() == v,
            forall|u: int| 0 <= u < v ==> #[trigger] freq@[u] == table_entry(input@, u),
        decreases 256 - v,
    {
        let x = from_le_bytes(vstd::slice::slice_subrange(input, 4 * v, 4 * v + 4));
        freq.push(x);
        v += 1;
    }
    let count_bytes = from_le_bytes(vstd::slice::slice_subrange(input, 1024, 1028));
    assert(freq@ =~= parsed_counts(input@));
    Ok((freq, count_bytes))
}

/// The sum of 256 counts.
fn sum_counts(freq: &Vec<u32>) -> (sum: u64)
    requires
        freq.len() == 256,
    ensures
        sum == sum_of(freq@),
{
    let mut sum: u64 = 0;
    let mut v: usize = 0;
    assert(freq@.take(0) =~= Seq::<u32>::empty());
    while v < 256
        invariant
            v <= 256,
            freq.len() == 256,
            sum == sum_of(freq@.take(v as int)),
            sum <= v * 0xffff_ffff,
        decreases 256 - v,
    {
        assert(freq@.take(v + 1).drop_last() =~= freq@.take(v as int));
        sum = sum + freq[v] as u64;
        v += 1;
    }
    assert(freq@.take(256) =~= freq@);
    sum
}

/// Encodes `input`, which must not be longer than a count can say: the
/// file of `encoded`.
pub fn encode(input: &[u8]) -> (out: Vec<u8>)
    requires
        input.len() <= u32::MAX,
    ensures
        out@ == encoded(input@),
{
    let (freq, count_bytes) = build_freq_table(input);
    let head = write_freq_table(freq.as_slice(), count_bytes);
    let ghost head_bytes = head@;
    let mut bs = BitStream::new_file(head, Mode::Write);
    let tree = build_tree(freq.as_slice());
    let table_code = build_table_code(tree.as_slice());
    let mut i: usize = 0;
    assert(input@.take(0) =~= Seq::<u8>::empty());
    assert(bs.bits() =~= bits_of(head_bytes) + coded(tree@, input@.take(0)));
    while i < input.len()
        invariant
            i <= input.len(),
            bs.wf(),
            bs.mode() == Mode::Write,
            table_code.len() == 256,
            forall|k: int|
                0 <= k < 256 ==> (#[trigger] table_code@[k]).0@ == pack(code_of(tree@, k))
                    && table_code@[k].1 == code_of(tree@, k).len(),
            bs.bits() == bits_of(head_bytes) + coded(tree@, input@.take(i as int)),
        decreases input.len() - i,
    {
        let entry = &table_code[input[i] as usize];
        let ghost code = code_of(tree@, input@[i as int] as int);
        proof {
            crate::bits::lemma_bits_of_pack(code);
            assert(input@.take(i + 1).drop_last() =~= input@.take(i as int));
            assert(bits_of(entry.0@).take(entry.1 as int) =~= code);
        }
        bs.write_bit_sequence(entry.0.as_slice(), entry.1);
        assert(bs.bits() =~= bits_of(head_bytes) + coded(tree@, input@.take(i + 1)));
        i += 1;
    }
    bs.close();
    proof {
        assert(input@.take(input.len() as int) =~= input@);
        crate::bits::lemma_pack_after_bytes(head_bytes, coded(tree@, input@));
    }
    bs.into_file()
}

/// Decodes the file `input`: the result of `decoded`.
pub fn decode(input: &[u8]) -> (r: Result<Vec<u8>, FormatError>)
    ensures
        match decoded(input@) {
            Ok(bytes) => r.is_ok() && r.unwrap()@ == bytes,
            Err(e) => r == Err::<Vec<u8>, FormatError>(e),
        },
{
    let (freq, count_bytes) = match read_freq_table(input) {
        Ok(pair) => pair,
        Err(e) => {
            return Err(e);
        },
    };
    if sum_counts(&freq) != count_bytes as u64 {
        return Err(FormatError::CorruptHeader);
    }
    let tree = build_tree(freq.as_slice());
    proof {
        lemma_huffman_tree(freq@);
    }
    let body = vstd::slice::slice_subrange(input, HEADER_LEN, input.len());
    assert(body@ =~= input@.skip(HEADER_LEN as int));
    let mut bs = BitStream::new(body, Mode::Read);
    let ghost bits = bits_of(body@);
    let mut out: Vec<u8> = Vec::new();
    let mut left: u32 = count_bytes;
    if left == 0 {
        proof {
            lemma_walked_step(tree@, bits, 0, tree.len() - 1, 0, Seq::empty());
        }
        return Ok(out);
    }
    let root = tree.len() - 1;
    let mut cur_node: usize = root;
    proof {
        bs.lemma_pos_in_range();
    }
    while left > 0
        invariant
            bs.wf(),
            bs.mode() == Mode::Read,
            bs.bits() == bits,
            0 <= bs.pos() <= bits.len(),
            tree_ok(tree@, 256),
            root == tree.len() - 1,
            256 <= cur_node < tree.len(),
            decoded(input@) == walked(
                tree@,
                bits,
                bs.pos(),
                cur_node as int,
                left as int,
                out@,
            ),
        decreases bits.len() - bs.pos(),
    {
        let ghost pos = bs.pos();
        proof {
            lemma_walked_step(tree@, bits, pos, cur_node as int, left as int, out@);
            assert(node_ok(tree@, 256, cur_node as int));
        }
        let seq = match bs.read_bit_sequence(1) {
            Ok(seq) => seq,
            Err(_) => {
                return Err(FormatError::TruncatedStream);
            },
        };
        proof {
            assert(bits.subrange(pos, pos + 1) =~= seq![bits[pos]]);
            crate::bits::lemma_pack_one_bit(bits[pos]);
        }
        let next = if seq[0] == 0 {
            tree[cur_node].left
        } else {
            tree[cur_node].right
        };
        match next {
            None => {
                return Err(FormatError::CodeOutOfRange);
            },
            Some(child) => {
                if child < 256 {
                    out.push(child as u8);
                    cur_node = root;
                    left -= 1;
                } else {
                    cur_node = child;
                }
            },
        }
    }
    proof {
        lemma_walked_step(tree@, bits, bs.pos(), cur_node as int, 0, out@);
    }
    Ok(out)
}

/// The node that leaves first is fixed by the counts and the places of the
/// nodes that wait, not by the order in which they wait: two lists that
/// hold the same nodes have the same least node.  So equal counts are
/// always taken in the order of the places, the lower place first.
pub proof fn lemma_least_is_fixed(first: Seq<(u32, usize)>, second: Seq<(u32, usize)>)
    requires
        first.len() >= 1,
        second.len() >= 1,
        forall|i: int| 0 <= i < first.len() ==> second.contains(#[trigger] first[i]),
        forall|j: int| 0 <= j < second.len() ==> first.contains(#[trigger] second[j]),
    ensures
        first[least_index(first)] == second[least_index(second)],
{
    lemma_least_index(first);
    lemma_least_index(second);
    let a = first[least_index(first)];
    let b = second[least_index(second)];
    assert(second.contains(a));
    assert(first.contains(b));
    let j = choose|j: int| 0 <= j < second.len() && second[j] == a;
    let i = choose|i: int| 0 <= i < first.len() && first[i] == b;
    assert(!weight_lt(second[j], b));
    assert(!weight_lt(first[i], a));
}

/// Among nodes that wait, each once, the node that leaves first comes
/// before every other in the order of the counts and, for equal counts, of
/// the places.
pub proof fn lemma_least_is_strict(pending: Seq<(u32, usize)>, j: int)
    requires
        forall|a: int, b: int|
            0 <= a < b < pending.len() ==> (#[trigger] pending[a]).1 != (#[trigger] pending[b]).1,
        0 <= j < pending.len(),
        j != least_index(pending),
    ensures
        weight_lt(pending[least_index(pending)], pending[j]),
{
    lemma_least_index(pending);
    let k = least_index(pending);
    assert(!weight_lt(pending[j], pending[k]));
    if j < k {
        assert(pending[j].1 != pending[k].1);
    } else {
        assert(pending[k].1 != pending[j].1);
    }
}

/// The file is fixed by the input: equal inputs have equal files, with the
/// same counts, the same tree and the same codes.
pub proof fn lemma_same_input_same_file(first: Seq<u8>, second: Seq<u8>)
    requires
        first == second,
    ensures
        counts(first) == counts(second),
        huffman_tree(counts(first)) == huffman_tree(counts(second)),
        encoded(first) == encoded(second),
{
}

} // verus!
