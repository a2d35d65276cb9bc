//! Permutations of the numbers below a bound.

use vstd::prelude::*;
use vstd::seq_lib::{to_multiset_build, to_multiset_remove};
use vstd::set_lib::{lemma_int_range, lemma_subset_equality, set_int_range};

verus! {

/// A sequence of machine indices as a sequence of numbers.
pub open spec fn ints(s: Seq<usize>) -> Seq<int> {
    Seq::new(s.len(), |i: int| s[i] as int)
}

/// `p` holds each number from 0 up to `n`, `n` itself left out, once.
pub open spec fn is_permutation(p: Seq<int>, n: int) -> bool {
    &&& p.len() == n
    &&& forall|k: int| 0 <= k < n ==> 0 <= #[trigger] p[k] < n
    &&& forall|a: int, b: int| 0 <= a < b < n ==> p[a] != p[b]
}

/// Every number below `n` stands somewhere in a permutation of them.
pub proof fn lemma_permutation_onto(p: Seq<int>, n: int, v: int) -> (k: int)
    requires
        is_permutation(p, n),
        0 <= v < n,
    ensures
        0 <= k < n,
        p[k] == v,
{
    let held = p.to_set();
    let all = set_int_range(0, n);
    p.unique_seq_to_set();
    lemma_int_range(0, n);
    assert forall|x: int| held.contains(x) implies all.contains(x) by {
        let i = choose|i: int| 0 <= i < p.len() && p[i] == x;
        assert(0 <= p[i] < n);
    }
    lemma_subset_equality(held, all);
    assert(all.contains(v));
    assert(p.contains(v));
    choose|k: int| 0 <= k < p.len() && p[k] == v
}

/// A sequence and its rearrangement by a permutation hold the same items
/// equally often.
pub proof fn lemma_permuted_multiset<A>(a: Seq<A>, b: Seq<A>, p: Seq<int>)
    requires
        is_permutation(p, a.len() as int),
        b.len() == a.len(),
        forall|k: int| 0 <= k < b.len() ==> b[k] == a[#[trigger] p[k]],
    ensures
        a.to_multiset() == b.to_multiset(),
    decreases a.len(),
{
    let n = a.len() as int;
    if n == 0 {
        assert(a =~= b);
    } else {
        let j = lemma_permutation_onto(p, n, n - 1);
        let front = a.drop_last();
        let others = b.remove(j);
        let smaller = p.remove(j);
        assert forall|k: int| 0 <= k < n - 1 implies 0 <= #[trigger] smaller[k] < n - 1 by {
            let orig = if k < j {
                k
            } else {
                k + 1
            };
            assert(smaller[k] == p[orig]);
            if orig < j {
                assert(p[orig] != p[j]);
            } else {
                assert(p[j] != p[orig]);
            }
        }
        assert forall|x: int, y: int| 0 <= x < y < n - 1 implies smaller[x] != smaller[y] by {
            let ox = if x < j {
                x
            } else {
                x + 1
            };
            let oy = if y < j {
                y
            } else {
                y + 1
            };
            assert(smaller[x] == p[ox] && smaller[y] == p[oy]);
        }
        assert forall|k: int| 0 <= k < others.len() implies others[k] == front[#[trigger] smaller[k]] by {
            let orig = if k < j {
                k
            } else {
                k + 1
            };
            assert(smaller[k] == p[orig]);
            assert(others[k] == b[orig]);
        }
        lemma_permuted_multiset(front, others, smaller);
        assert(a =~= front.push(a[n - 1]));
        to_multiset_build(front, a[n - 1]);
        to_multiset_remove(b, j);
        b.to_multiset_ensures();
        assert(b.to_multiset().contains(b[j]));
        assert(b[j] == a[p[j]]);
        assert(b.to_multiset() =~= others.to_multiset().insert(b[j]));
    }
}

/// A sequence that holds the same items as a permutation, equally often, is
/// a permutation too.
pub proof fn lemma_same_items_permutation(p: Seq<int>, q: Seq<int>, n: int)
    requires
        is_permutation(p, n),
        p.to_multiset() == q.to_multiset(),
    ensures
        is_permutation(q, n),
{
    p.to_multiset_ensures();
    q.to_multiset_ensures();
    assert forall|k: int| 0 <= k < q.len() implies 0 <= #[trigger] q[k] < n by {
        assert(q.to_multiset().contains(q[k]));
        assert(p.contains(q[k]));
    }
    p.lemma_multiset_has_no_duplicates();
    q.lemma_multiset_has_no_duplicates_conv();
}

} // verus!
