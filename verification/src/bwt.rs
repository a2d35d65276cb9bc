//! The block transform of Burrows and Wheeler.
//!
//! A block of at most 256 bytes becomes the last column of the table of its
//! rotations in sorted order, followed by one byte: the row of the table
//! that holds the block itself.  A file is the records of its blocks, one
//! after the other.

use vstd::prelude::*;
use vstd::relations::sorted_by;
use vstd::seq_lib::lemma_sorted_unique;

use rayon::iter::{IntoParallelRefIterator, ParallelIterator};

use crate::error::FormatError;
use crate::order::{lemma_lex_total_ordering, lex_le, lex_order};
use crate::perm::{ints, is_permutation, lemma_permuted_multiset};
use crate::utils::{
    build_sa, build_t, is_stable_order, is_suffix_array, key, radix_sort, row_before, stable_rank,
    views,
};

verus! {

/// The number of bytes of a block, but for the last block of a file, which
/// may be shorter.
pub const BLOCK: usize = 256;

/// The number of bytes of the record of a whole block: the block and the
/// byte with its row.
pub const RECORD: usize = 257;

/// The number of blocks that are transformed side by side.
pub const BATCH_SIZE: usize = 10000;

/// The block twice over.
pub open spec fn doubled(block: Seq<u8>) -> Seq<u8> {
    block + block
}

/// The block turned to the left by `p` places: it starts with the byte at
/// `p` and, after the last byte, goes on with the first.
pub open spec fn rotation(block: Seq<u8>, p: int) -> Seq<u8> {
    doubled(block).subrange(p, p + block.len())
}

/// The rotations of a block, by the number of places turned.
pub open spec fn rotations(block: Seq<u8>) -> Seq<Seq<u8>> {
    Seq::new(block.len(), |p: int| rotation(block, p))
}

/// The rotations of a block in lexicographic order.
pub open spec fn sorted_rotations(block: Seq<u8>) -> Seq<Seq<u8>> {
    rotations(block).sort_by(lex_order())
}

/// The transform of a block: the last byte of each rotation, the rotations
/// taken in lexicographic order.
pub open spec fn last_column(block: Seq<u8>) -> Seq<u8> {
    Seq::new(block.len(), |k: int| sorted_rotations(block)[k][block.len() - 1])
}

/// Row `k` of the sorted rotations is the first that holds the block itself.
pub open spec fn is_first_row(block: Seq<u8>, k: int) -> bool {
    &&& 0 <= k < block.len()
    &&& sorted_rotations(block)[k] == block
    &&& forall|j: int| 0 <= j < k ==> sorted_rotations(block)[j] != block
}

/// Rotations named in lexicographic order, each once, are the sorted
/// rotations.
pub proof fn lemma_sorted_rows(block: Seq<u8>, q: Seq<int>)
    requires
        is_permutation(q, block.len() as int),
        forall|a: int, b: int|
            0 <= a < b < block.len() ==> lex_le(
                rotation(block, #[trigger] q[a]),
                rotation(block, #[trigger] q[b]),
            ),
    ensures
        sorted_rotations(block).len() == block.len(),
        forall|k: int|
            0 <= k < block.len() ==> #[trigger] sorted_rotations(block)[k] == rotation(block, q[k]),
{
    let n = block.len();
    let rows = Seq::new(n, |k: int| rotation(block, q[k]));
    let all = rotations(block);
    lemma_permuted_multiset(all, rows, q);
    lemma_lex_total_ordering();
    all.lemma_sort_by_ensures(lex_order());
    assert(sorted_by(rows, lex_order())) by {
        assert forall|a: int, b: int| 0 <= a < b < rows.len() implies (lex_order())(
            rows[a],
            rows[b],
        ) by {
            assert(lex_le(rotation(block, q[a]), rotation(block, q[b])));
        }
    }
    lemma_sorted_unique(rows, sorted_rotations(block), lex_order());
}

/// The table of the rotations of the first `n` bytes of `bytes`: row `i` is
/// the block turned to the left by `i` places, behind one byte that holds
/// `i`.
pub fn build_matrix(bytes: &[u8], n: usize) -> (matrix: Vec<Vec<u8>>)
    requires
        n <= bytes.len(),
        n <= 256,
    ensures
        matrix.len() == n,
        forall|i: int|
            0 <= i < n ==> (#[trigger] matrix@[i])@ == seq![i as u8] + rotation(
                bytes@.take(n as int),
                i,
            ),
{
    let mut matrix: Vec<Vec<u8>> = Vec::new();
    let ghost block = bytes@.take(n as int);
    let mut i: usize = 0;
    while i < n
        invariant
            i <= n,
            n <= bytes.len(),
            n <= 256,
            block == bytes@.take(n as int),
            matrix.len() == i,
            forall|r: int|
                0 <= r < i ==> (#[trigger] matrix@[r])@ == seq![r as u8] + rotation(block, r),
        decreases n - i,
    {
        let mut row: Vec<u8> = Vec::new();
        row.push(i as u8);
        let mut c: usize = 0;
        let ghost want = rotation(block, i as int);
        while c < n
            invariant
                c <= n,
                i < n,
                n <= 256,
                n <= bytes.len(),
                block == bytes@.take(n as int),
                want == rotation(block, i as int),
                row@ == seq![i as u8] + want.take(c as int),
            decreases n - c,
        {
            let from = if c + i < n {
                c + i
            } else {
                c + i - n
            };
            row.push(bytes[from]);
            assert(row@ =~= seq![i as u8] + want.take(c + 1));
            c += 1;
        }
        assert(want.take(n as int) =~= want);
        matrix.push(row);
        i += 1;
    }
    matrix
}

/// Transforms one block by sorting the table of its rotations.  The result
/// is the last column of the sorted table and the row that holds the block
/// itself; where several rows hold it, the first of them.
pub fn encode_naive(block: &[u8]) -> (r: (Vec<u8>, u8))
    requires
        block.len() <= 256,
    ensures
        r.0@ == last_column(block@),
        block.len() > 0 ==> is_first_row(block@, r.1 as int),
        block.len() == 0 ==> r.1 == 0,
{
    let n = block.len();
    let mut a = build_matrix(block, n);
    let ghost rows = views(a@);
    assert(block@.take(n as int) =~= block@);
    let width = n + 1;
    radix_sort(&mut a, width);
    let ghost order: Seq<int> = choose|order: Seq<int>|
        #![trigger is_stable_order(rows, order, 1, width as int)]
        is_stable_order(rows, order, 1, width as int) && forall|k: int|
            0 <= k < n ==> (#[trigger] a@[k])@ == rows[order[k]];
    proof {
        assert forall|i: int| 0 <= i < n implies key(#[trigger] rows[i], 1, n + 1) == rotation(
            block@,
            i,
        ) by {
            assert(key(rows[i], 1, n + 1) =~= rotation(block@, i));
        }
        assert forall|x: int, y: int| 0 <= x < y < n implies lex_le(
            rotation(block@, #[trigger] order[x]),
            rotation(block@, #[trigger] order[y]),
        ) by {
            assert(row_before(rows, order[x], order[y], 1, n + 1));
            crate::order::lemma_lex_refl(rotation(block@, order[x]));
        }
        lemma_sorted_rows(block@, order);
    }
    let mut bwt: Vec<u8> = Vec::new();
    let mut primary: usize = 0;
    let mut i: usize = 0;
    while i < n
        invariant
            i <= n,
            n == block.len(),
            n <= 256,
            a.len() == n,
            rows.len() == n,
            is_permutation(order, n as int),
            forall|k: int| 0 <= k < n ==> (#[trigger] a@[k])@ == rows[order[k]],
            forall|r: int|
                0 <= r < n ==> #[trigger] rows[r] == seq![r as u8] + rotation(block@, r),
            bwt.len() == i,
            forall|k: int| 0 <= k < i ==> #[trigger] bwt@[k] == rotation(block@, order[k])[n - 1],
            primary == 0 || primary < i,
            forall|k: int| 0 <= k < i && order[k] == 0 ==> primary == k,
        decreases n - i,
    {
        let row = &a[i];
        assert(row@ == rows[order[i as int]]);
        bwt.push(row[n]);
        if row[0] == 0 {
            primary = i;
        }
        i += 1;
    }
    proof {
        assert(bwt@ =~= last_column(block@)) by {
            assert forall|k: int| 0 <= k < n implies bwt@[k] == last_column(block@)[k] by {
                assert(sorted_rotations(block@)[k] == rotation(block@, order[k]));
            }
        }
        if n > 0 {
            let k0 = crate::perm::lemma_permutation_onto(order, n as int, 0);
            assert(primary == k0);
            assert(rotation(block@, 0) =~= block@);
            assert(sorted_rotations(block@)[k0] == rotation(block@, order[k0]));
            assert forall|j: int| 0 <= j < k0 implies sorted_rotations(block@)[j] != block@ by {
                assert(sorted_rotations(block@)[j] == rotation(block@, order[j]));
                assert(row_before(rows, order[j], order[k0], 1, n + 1));
                assert(key(rows[order[j]], 1, n + 1) == rotation(block@, order[j]));
                assert(key(rows[0], 1, n + 1) == rotation(block@, 0));
            }
        }
    }
    (bwt, primary as u8)
}

/// Of the first `idx` offsets of the suffix array `sa`, `kept` holds those
/// below `n`, in their order: `place` says where each stood.
#[verifier::opaque]
spec fn keeps(sa: Seq<usize>, n: int, idx: int, kept: Seq<int>, place: Seq<int>) -> bool {
    &&& place.len() == kept.len()
    &&& forall|c: int|
        0 <= c < kept.len() ==> 0 <= #[trigger] place[c] < idx && kept[c] == sa[place[c]] && 0
            <= kept[c] < n
    &&& forall|c: int, d: int|
        0 <= c < d < kept.len() ==> #[trigger] place[c] < #[trigger] place[d]
    &&& forall|i: int|
        0 <= i < idx && (#[trigger] sa[i]) < n ==> exists|c: int|
            0 <= c < kept.len() && #[trigger] place[c] == i
}

/// Before any offset is seen none is kept.
proof fn lemma_keeps_none(sa: Seq<usize>, n: int)
    ensures
        keeps(sa, n, 0, Seq::empty(), Seq::empty()),
{
    reveal(keeps);
}

/// An offset that is not below `n` is passed over.
proof fn lemma_keeps_skip(sa: Seq<usize>, n: int, idx: int, kept: Seq<int>, place: Seq<int>)
    requires
        keeps(sa, n, idx, kept, place),
        0 <= idx < sa.len(),
        sa[idx] >= n,
    ensures
        keeps(sa, n, idx + 1, kept, place),
{
    reveal(keeps);
    assert forall|i: int| 0 <= i < idx + 1 && (#[trigger] sa[i]) < n implies exists|c: int|
        0 <= c < kept.len() && #[trigger] place[c] == i by {
        assert(i < idx);
    }
}

/// An offset below `n` is kept, and was not kept before.
proof fn lemma_keeps_take(sa: Seq<usize>, n: int, idx: int, kept: Seq<int>, place: Seq<int>)
    requires
        keeps(sa, n, idx, kept, place),
        is_permutation(ints(sa), sa.len() as int),
        0 <= idx < sa.len(),
        sa[idx] < n,
    ensures
        keeps(sa, n, idx + 1, kept.push(sa[idx] as int), place.push(idx)),
        forall|c: int| 0 <= c < kept.len() ==> #[trigger] kept[c] != sa[idx],
{
    reveal(keeps);
    let more = kept.push(sa[idx] as int);
    let places = place.push(idx);
    let order = ints(sa);
    assert(order[idx] == sa[idx]);
    assert forall|c: int| 0 <= c < kept.len() implies #[trigger] kept[c] != sa[idx] by {
        assert(order[place[c]] == sa[place[c]]);
        assert(order[place[c]] != order[idx]);
    }
    assert forall|c: int| 0 <= c < more.len() implies 0 <= #[trigger] places[c] < idx + 1
        && more[c] == sa[places[c]] && 0 <= more[c] < n by {
        if c < kept.len() {
            assert(places[c] == place[c] && more[c] == kept[c]);
        }
    }
    assert forall|c: int, d: int| 0 <= c < d < more.len() implies #[trigger] places[c]
        < #[trigger] places[d] by {
        assert(places[c] == place[c]);
        if d < kept.len() {
            assert(places[d] == place[d]);
        }
    }
    assert forall|i: int| 0 <= i < idx + 1 && (#[trigger] sa[i]) < n implies exists|c: int|
        0 <= c < more.len() && #[trigger] places[c] == i by {
        if i < idx {
            let c = choose|c: int| 0 <= c < kept.len() && #[trigger] place[c] == i;
            assert(places[c] == i);
        } else {
            assert(places[kept.len() as int] == i);
        }
    }
}

/// Once the whole suffix array of the doubled block is seen, the offsets
/// kept are those of the rotations in lexicographic order, each once.
proof fn lemma_keeps_all(text: Seq<u8>, sa: Seq<usize>, idx: int, kept: Seq<int>, place: Seq<int>)
    requires
        is_suffix_array(doubled(text), sa),
        sa.len() == 2 * text.len(),
        keeps(sa, text.len() as int, idx, kept, place),
        0 <= idx <= sa.len(),
        kept.len() <= text.len(),
        kept.len() == text.len() || idx == sa.len(),
    ensures
        kept.len() == text.len(),
        is_permutation(kept, text.len() as int),
        forall|c: int, d: int|
            0 <= c < d < text.len() ==> lex_le(
                rotation(text, #[trigger] kept[c]),
                rotation(text, #[trigger] kept[d]),
            ),
{
    reveal(keeps);
    let n = text.len() as int;
    let whole = doubled(text);
    let order = ints(sa);
    let cnt = kept.len() as int;
    assert forall|c: int, d: int| 0 <= c < d < cnt implies kept[c] != kept[d] by {
        assert(place[c] < place[d]);
        assert(order[place[c]] == sa[place[c]] && order[place[d]] == sa[place[d]]);
        assert(order[place[c]] != order[place[d]]);
    }
    if cnt < n {
        let held = kept.to_set();
        let all = vstd::set_lib::set_int_range(0, n);
        vstd::set_lib::lemma_int_range(0, n);
        kept.lemma_cardinality_of_set();
        vstd::seq_lib::seq_to_set_is_finite(kept);
        assert forall|v: int| all.contains(v) implies held.contains(v) by {
            let i = crate::perm::lemma_permutation_onto(order, 2 * n, v);
            assert(sa[i] == v);
            let c = choose|c: int| 0 <= c < cnt && #[trigger] place[c] == i;
            assert(kept[c] == v);
        }
        vstd::set_lib::lemma_len_subset(all, held);
    }
    assert(cnt == n);
    assert forall|c: int| 0 <= c < n implies 0 <= #[trigger] kept[c] < n by {
        assert(0 <= place[c]);
    }
    assert forall|c: int, d: int| 0 <= c < d < n implies lex_le(
        rotation(text, #[trigger] kept[c]),
        rotation(text, #[trigger] kept[d]),
    ) by {
        let sc = whole.skip(kept[c]);
        let sd = whole.skip(kept[d]);
        assert(place[c] < place[d]);
        assert(lex_le(whole.skip(sa[place[c]] as int), whole.skip(sa[place[d]] as int)));
        assert(lex_le(sc, sd));
        crate::order::lemma_lex_take(sc, sd, n);
        assert(sc.take(n) =~= rotation(text, kept[c]));
        assert(sd.take(n) =~= rotation(text, kept[d]));
    }
}

/// The doubled block, byte by byte.
fn twice(text: &[u8]) -> (out: Vec<u8>)
    requires
        text.len() <= 256,
    ensures
        out@ == doubled(text@),
{
    let n = text.len();
    let mut out: Vec<u8> = Vec::new();
    let mut j: usize = 0;
    while j < 2 * n
        invariant
            j <= 2 * n,
            n == text.len(),
            n <= 256,
            out.len() == j,
            forall|i: int| 0 <= i < j ==> #[trigger] out@[i] == doubled(text@)[i],
        decreases 2 * n - j,
    {
        let from = if j < n {
            j
        } else {
            j - n
        };
        out.push(text[from]);
        j += 1;
    }
    assert(out@ =~= doubled(text@));
    out
}

/// The block turned to the left by `q` places is the block itself.
#[verifier::opaque]
pub open spec fn repeats_at(block: Seq<u8>, q: int) -> bool {
    rotation(block, q) == block
}

/// Whether the block turned to the left by `q` places is the block itself.
fn holds_block(text: &[u8], q: usize) -> (same: bool)
    requires
        q < text.len(),
        text.len() <= 256,
    ensures
        same == repeats_at(text@, q as int),
{
    let n = text.len();
    let mut j: usize = 0;
    while j < n
        invariant
            j <= n,
            q < n,
            n == text.len(),
            n <= 256,
            forall|i: int| 0 <= i < j ==> rotation(text@, q as int)[i] == text@[i],
        decreases n - j,
    {
        let from = if q + j < n {
            q + j
        } else {
            q + j - n
        };
        assert(rotation(text@, q as int)[j as int] == text@[from as int]);
        if text[from] != text[j] {
            assert(rotation(text@, q as int)[j as int] != text@[j as int]);
            assert(rotation(text@, q as int) != text@);
            reveal(repeats_at);
            return false;
        }
        j += 1;
    }
    assert(rotation(text@, q as int) =~= text@);
    reveal(repeats_at);
    true
}

/// The rows that hold the block stand side by side in the sorted table: a
/// row is the first of them if the rows from it up to one that holds the
/// block all hold it, and the row before it, if there is one, does not.
pub proof fn lemma_first_of_adjacent(block: Seq<u8>, first: int, row: int)
    requires
        0 <= first <= row < block.len(),
        sorted_rotations(block).len() == block.len(),
        forall|j: int| first <= j <= row ==> #[trigger] sorted_rotations(block)[j] == block,
        first == 0 || sorted_rotations(block)[first - 1] != block,
    ensures
        is_first_row(block, first),
{
    let rows = sorted_rotations(block);
    lemma_lex_total_ordering();
    rotations(block).lemma_sort_by_ensures(lex_order());
    assert(rows[first] == block);
    assert forall|j: int| 0 <= j < first implies rows[j] != block by {
        if j < first - 1 && rows[j] == block {
            assert((lex_order())(rows[j], rows[first - 1]));
            assert((lex_order())(rows[first - 1], rows[first]));
            crate::order::lemma_lex_antisym(rows[first - 1], block);
        }
    }
}

/// The first of the rows that hold the block, found from one of them: the
/// rows before it are looked at, one by one, as long as they hold the block
/// too.  `offsets` names, for each row, the places by which its rotation is
/// turned.
fn first_row(text: &[u8], offsets: &Vec<usize>, row: usize) -> (first: usize)
    requires
        1 <= text.len() <= 256,
        offsets.len() == text.len(),
        row < text.len(),
        forall|c: int| 0 <= c < text.len() ==> (#[trigger] offsets@[c]) < text.len(),
        repeats_at(text@, offsets@[row as int] as int),
    ensures
        first <= row,
        forall|j: int|
            first <= j <= row ==> repeats_at(text@, (#[trigger] offsets@[j]) as int),
        first == 0 || !repeats_at(text@, offsets@[first - 1] as int),
{
    let n = text.len();
    let mut first: usize = row;
    let mut more: bool = if first > 0 {
        holds_block(text, offsets[first - 1])
    } else {
        false
    };
    while more
        invariant
            first <= row < n,
            n == text.len(),
            1 <= n <= 256,
            offsets.len() == n,
            forall|c: int| 0 <= c < n ==> (#[trigger] offsets@[c]) < n,
            forall|j: int|
                first <= j <= row ==> repeats_at(text@, (#[trigger] offsets@[j]) as int),
            more ==> first > 0 && repeats_at(text@, offsets@[first - 1] as int),
            !more ==> first == 0 || !repeats_at(text@, offsets@[first - 1] as int),
        decreases first,
    {
        first -= 1;
        more = if first > 0 {
            holds_block(text, offsets[first - 1])
        } else {
            false
        };
    }
    first
}

/// Transforms one block by way of the suffix array of the doubled block.
/// The suffixes that start in the first half stand, in the array, in the
/// order of the rotations.  The result is the last column of the sorted
/// table of rotations and the row that holds the block itself; where
/// several rows hold it, the first of them, as the sorted table gives it.
/// The suffix that starts at the first byte names a row that holds the
/// block; the first such row is found from there.
pub fn encode_block(text: &[u8]) -> (r: (Vec<u8>, u8))
    requires
        text.len() <= 256,
    ensures
        r.0@ == last_column(text@),
        text.len() > 0 ==> is_first_row(text@, r.1 as int),
        text.len() == 0 ==> r.1 == 0,
{
    let n = text.len();
    let doubled_text = twice(text);
    let sa2 = build_sa(doubled_text.as_slice());
    let mut bwt: Vec<u8> = Vec::new();
    let mut offsets: Vec<usize> = Vec::new();
    let mut primary: usize = 0;
    let mut cnt: usize = 0;
    let mut idx: usize = 0;
    let ghost mut kept: Seq<int> = Seq::empty();
    let ghost mut place: Seq<int> = Seq::empty();
    proof {
        lemma_keeps_none(sa2@, n as int);
    }
    while idx < sa2.len() && cnt < n
        invariant
            idx <= sa2.len(),
            sa2.len() == 2 * n,
            n == text.len(),
            n <= 256,
            is_suffix_array(doubled(text@), sa2@),
            cnt <= n,
            bwt.len() == cnt,
            offsets.len() == cnt,
            kept.len() == cnt,
            keeps(sa2@, n as int, idx as int, kept, place),
            primary == 0 || primary < cnt,
            forall|c: int| 0 <= c < cnt ==> #[trigger] offsets@[c] == kept[c],
            forall|c: int|
                0 <= c < cnt ==> #[trigger] bwt@[c] == rotation(text@, kept[c])[n - 1],
            forall|c: int| 0 <= c < cnt && #[trigger] kept[c] == 0 ==> primary == c,
        decreases sa2.len() - idx,
    {
        let p = sa2[idx];
        if p < n {
            let prev = if p == 0 {
                n - 1
            } else {
                p - 1
            };
            proof {
                lemma_keeps_take(sa2@, n as int, idx as int, kept, place);
                assert(rotation(text@, p as int)[n - 1] == text@[prev as int]);
                kept = kept.push(p as int);
                place = place.push(idx as int);
            }
            bwt.push(text[prev]);
            offsets.push(p);
            if p == 0 {
                primary = cnt;
            }
            cnt += 1;
        } else {
            proof {
                lemma_keeps_skip(sa2@, n as int, idx as int, kept, place);
            }
        }
        idx += 1;
    }
    proof {
        lemma_keeps_all(text@, sa2@, idx as int, kept, place);
        lemma_sorted_rows(text@, kept);
        assert(bwt@ =~= last_column(text@));
        if n > 0 {
            let k0 = crate::perm::lemma_permutation_onto(kept, n as int, 0);
            assert(primary == k0);
            assert(rotation(text@, 0) =~= text@);
            assert(sorted_rotations(text@)[k0] == rotation(text@, kept[k0]));
            assert forall|c: int| 0 <= c < n implies (#[trigger] offsets@[c]) < n by {
                assert(0 <= kept[c] < n);
            }
            assert(offsets@[k0] == kept[k0]);
            reveal(repeats_at);
        }
    }
    if n == 0 {
        return (bwt, 0);
    }
    let first = first_row(text, &offsets, primary);
    proof {
        reveal(repeats_at);
        assert forall|j: int| first <= j <= primary implies #[trigger] sorted_rotations(
            text@,
        )[j] == text@ by {
            assert(offsets@[j] == kept[j]);
            assert(sorted_rotations(text@)[j] == rotation(text@, kept[j]));
        }
        if first > 0 {
            assert(offsets@[first - 1] == kept[first - 1]);
            assert(sorted_rotations(text@)[first - 1] == rotation(text@, kept[first - 1]));
        }
        lemma_first_of_adjacent(text@, first as int, primary as int);
    }
    (bwt, first as u8)
}

/// The index that follows each index of `permuted` on the way back: the
/// index of the byte that a stable sort of the bytes brings to this place.
pub open spec fn successor(permuted: Seq<u8>) -> Seq<int> {
    Seq::new(
        permuted.len(),
        |k: int| choose|i: int| 0 <= i < permuted.len() && stable_rank(permuted, i) == k,
    )
}

/// The bytes met on `count` steps along `next`, the start `pos` left out.
pub open spec fn walk(next: Seq<int>, permuted: Seq<u8>, pos: int, count: nat) -> Seq<u8>
    decreases count,
{
    if count == 0 {
        Seq::empty()
    } else {
        let to = next[pos];
        seq![permuted[to]] + walk(next, permuted, to, (count - 1) as nat)
    }
}

/// The block whose transform is `permuted` with the row `primary`.
pub open spec fn inverse(permuted: Seq<u8>, primary: int) -> Seq<u8> {
    walk(successor(permuted), permuted, primary, permuted.len())
}

/// A table that names, at each place, the byte that is sorted to this place
/// is the table of successors.
pub proof fn lemma_successor(permuted: Seq<u8>, t: Seq<usize>)
    requires
        t.len() == permuted.len(),
        forall|k: int|
            0 <= k < permuted.len() ==> (#[trigger] t[k]) < permuted.len() && stable_rank(
                permuted,
                t[k] as int,
            ) == k,
    ensures
        ints(t) == successor(permuted),
{
    let succ = successor(permuted);
    assert forall|k: int| 0 <= k < permuted.len() implies ints(t)[k] == succ[k] by {
        let i = t[k] as int;
        assert(0 <= i < permuted.len() && stable_rank(permuted, i) == k);
        let j = succ[k];
        assert(0 <= j < permuted.len() && stable_rank(permuted, j) == k);
        if i != j {
            if crate::utils::sorts_before(permuted, i, j) {
                crate::utils::lemma_stable_rank_order(permuted, i, j);
            } else {
                crate::utils::lemma_stable_rank_order(permuted, j, i);
            }
        }
    }
    assert(ints(t) =~= succ);
}

/// Turns a transformed block back into the block.  Fails, with
/// `PrimaryIndexOutOfRange`, where `primary` is no row of the block.
pub fn decode_block(permuted: &[u8], primary: u8) -> (r: Result<Vec<u8>, FormatError>)
    ensures
        (primary as int) < permuted.len() ==> r.is_ok() && r.unwrap()@ == inverse(
            permuted@,
            primary as int,
        ),
        (primary as int) >= permuted.len() ==> r == Err::<Vec<u8>, FormatError>(
            FormatError::PrimaryIndexOutOfRange,
        ),
{
    let n = permuted.len();
    if primary as usize >= n {
        return Err(FormatError::PrimaryIndexOutOfRange);
    }
    let t = build_t(permuted);
    let ghost next = successor(permuted@);
    proof {
        lemma_successor(permuted@, t@);
    }
    let mut pos: usize = primary as usize;
    let mut res: Vec<u8> = Vec::new();
    let mut r: usize = 0;
    while r < n
        invariant
            r <= n,
            n == permuted.len(),
            t.len() == n,
            pos < n,
            next == ints(t@),
            forall|k: int| 0 <= k < n ==> (#[trigger] t@[k]) < n,
            inverse(permuted@, primary as int) == res@ + walk(
                next,
                permuted@,
                pos as int,
                (n - r) as nat,
            ),
        decreases n - r,
    {
        let ghost before = res@;
        let ghost from = pos as int;
        pos = t[pos];
        res.push(permuted[pos]);
        proof {
            assert(next[from] == pos);
            assert(res@ + walk(next, permuted@, pos as int, (n - r - 1) as nat) =~= before + walk(
                next,
                permuted@,
                from,
                (n - r) as nat,
            ));
        }
        r += 1;
    }
    assert(res@ + Seq::<u8>::empty() =~= res@);
    Ok(res)
}

/// The row that stands for the block in its record: the first of the sorted
/// rotations that holds the block.
pub open spec fn row_of(block: Seq<u8>) -> int {
    choose|k: int| is_first_row(block, k)
}

/// The record of a block: its transform, then the byte with its row.
pub open spec fn record(block: Seq<u8>) -> Seq<u8> {
    last_column(block).push(row_of(block) as u8)
}

/// The number of blocks of a file of `len` bytes.
pub open spec fn block_count(len: int) -> int {
    (len + 255) / 256
}

/// Block `j` of a file: 256 bytes, or what is left of the file.
pub open spec fn block_at(input: Seq<u8>, j: int) -> Seq<u8> {
    input.subrange(
        256 * j,
        if 256 * j + 256 <= input.len() {
            256 * j + 256
        } else {
            input.len() as int
        },
    )
}

/// The records of the first `j` blocks of a file.
pub open spec fn encoded_upto(input: Seq<u8>, j: int) -> Seq<u8>
    decreases j,
{
    if j <= 0 {
        Seq::empty()
    } else {
        encoded_upto(input, j - 1) + record(block_at(input, j - 1))
    }
}

/// The transformed file: the records of all the blocks of `input`.
pub open spec fn encoded(input: Seq<u8>) -> Seq<u8> {
    encoded_upto(input, block_count(input.len() as int))
}

/// The number of records of a transformed file of `len` bytes.
pub open spec fn record_count(len: int) -> int {
    (len + 256) / 257
}

/// Record `j` of a transformed file: 257 bytes, or what is left of the file.
pub open spec fn record_at(input: Seq<u8>, j: int) -> Seq<u8> {
    input.subrange(
        257 * j,
        if 257 * j + 257 <= input.len() {
            257 * j + 257
        } else {
            input.len() as int
        },
    )
}

/// The block of a record, whose last byte names the row, or the error where
/// this byte names no row.
pub open spec fn decoded_record(rec: Seq<u8>) -> Result<Seq<u8>, FormatError> {
    let size = rec.len() - 1;
    if rec[size] < size {
        Ok(inverse(rec.take(size), rec[size] as int))
    } else {
        Err(FormatError::PrimaryIndexOutOfRange)
    }
}

/// The blocks of the first `j` records of a transformed file, or the error
/// of the first record that has one.
pub open spec fn decoded_upto(input: Seq<u8>, j: int) -> Result<Seq<u8>, FormatError>
    decreases j,
{
    if j <= 0 {
        Ok(Seq::empty())
    } else {
        match decoded_upto(input, j - 1) {
            Err(e) => Err(e),
            Ok(head) => match decoded_record(record_at(input, j - 1)) {
                Err(e) => Err(e),
                Ok(block) => Ok(head + block),
            },
        }
    }
}

/// The file that the transformed file `input` stands for, or the error of
/// its first record that has one.
pub open spec fn decoded(input: Seq<u8>) -> Result<Seq<u8>, FormatError> {
    decoded_upto(input, record_count(input.len() as int))
}

/// Only one row is the first to hold the block: whichever way finds the
/// first row finds the row of the record.
pub proof fn lemma_row_unique(block: Seq<u8>, k: int)
    requires
        is_first_row(block, k),
    ensures
        row_of(block) == k,
{
    let r = row_of(block);
    assert(is_first_row(block, r));
    if r < k {
        assert(sorted_rotations(block)[r] != block);
    } else if k < r {
        assert(sorted_rotations(block)[k] != block);
    }
}

/// Transforms one block of a file, by the suffix array or by the sorted
/// table; both ways give the same record.
pub fn transform_block(block: &Vec<u8>, suffix: bool) -> (r: (Vec<u8>, u8))
    requires
        1 <= block.len() <= 256,
    ensures
        r.0@.push(r.1) == record(block@),
{
    let r = if suffix {
        encode_block(block.as_slice())
    } else {
        encode_naive(block.as_slice())
    };
    proof {
        lemma_row_unique(block@, r.1 as int);
    }
    r
}

/// Transforms the blocks of a batch side by side, on the threads of rayon:
/// `par_iter`, `map` and `collect` of its parallel iterators.  What is
/// taken on trust is that the vector collected holds, for each block and in
/// the order of the blocks, what `transform_block` returns for it: rayon
/// collects an indexed iterator into a vector by filling each place of the
/// vector with the item of this place, as a sequential `collect` would,
/// and `transform_block` is verified.
#[verifier::external_body]
fn transform_batch(batch: &Vec<Vec<u8>>, suffix: bool) -> (results: Vec<(Vec<u8>, u8)>)
    requires
        forall|b: int| 0 <= b < batch.len() ==> 1 <= (#[trigger] batch@[b]).len() <= 256,
    ensures
        results.len() == batch.len(),
        forall|b: int|
            0 <= b < batch.len() ==> (#[trigger] results@[b]).0@.push(results@[b].1) == record(
                batch@[b]@,
            ),
{
    batch.par_iter().map(|block| transform_block(block, suffix)).collect()
}

/// Transforms a file block by block.  The blocks are taken in batches of
/// `BATCH_SIZE`; the blocks of a batch are transformed side by side and
/// their records written in the order of the blocks.
fn encode_with(input: &[u8], suffix: bool) -> (out: Vec<u8>)
    ensures
        out@ == encoded(input@),
{
    let len = input.len();
    let total = if len % BLOCK == 0 {
        len / BLOCK
    } else {
        len / BLOCK + 1
    };
    assert(total == block_count(len as int));
    let mut out: Vec<u8> = Vec::new();
    let mut done: usize = 0;
    while done < total
        invariant
            done <= total,
            len == input.len(),
            total == block_count(len as int),
            out@ == encoded_upto(input@, done as int),
        decreases total - done,
    {
        let mut batch: Vec<Vec<u8>> = Vec::new();
        let mut j: usize = done;
        while j < total && batch.len() < BATCH_SIZE
            invariant
                done <= j <= total,
                len == input.len(),
                total == block_count(len as int),
                batch.len() == j - done,
                batch.len() <= BATCH_SIZE,
                forall|b: int|
                    0 <= b < batch.len() ==> (#[trigger] batch@[b])@ == block_at(input@, done + b)
                        && 1 <= batch@[b].len() <= 256,
            decreases total - j,
        {
            let start = BLOCK * j;
            let end = if len - start > BLOCK {
                start + BLOCK
            } else {
                len
            };
            let block = vstd::slice::slice_to_vec(vstd::slice::slice_subrange(input, start, end));
            batch.push(block);
            j += 1;
        }
        let results = transform_batch(&batch, suffix);
        let mut b: usize = 0;
        while b < results.len()
            invariant
                b <= results.len(),
                results.len() == batch.len(),
                batch.len() == j - done,
                forall|b: int|
                    0 <= b < batch.len() ==> (#[trigger] batch@[b])@ == block_at(input@, done + b),
                forall|b: int|
                    0 <= b < batch.len() ==> (#[trigger] results@[b]).0@.push(results@[b].1)
                        == record(batch@[b]@),
                out@ == encoded_upto(input@, done + b),
            decreases results.len() - b,
        {
            let ghost before = out@;
            let item = &results[b];
            out.extend_from_slice(item.0.as_slice());
            out.push(item.1);
            proof {
                assert(batch@[b as int]@ == block_at(input@, done + b));
                assert(out@ =~= before + results@[b as int].0@.push(results@[b as int].1));
            }
            b += 1;
        }
        done = j;
    }
    out
}

/// Transforms a file, each block by sorting the table of its rotations.
pub fn encode(input: &[u8]) -> (out: Vec<u8>)
    ensures
        out@ == encoded(input@),
{
    encode_with(input, false)
}

/// Transforms a file, each block by way of the suffix array of the doubled
/// block.
#[allow(non_snake_case)]
pub fn encode_SA(input: &[u8]) -> (out: Vec<u8>)
    ensures
        out@ == encoded(input@),
{
    encode_with(input, true)
}

/// Once a record has an error, the file has it.
pub proof fn lemma_error_stays(input: Seq<u8>, j: int, m: int)
    requires
        j <= m,
        decoded_upto(input, j).is_err(),
    ensures
        decoded_upto(input, m) == decoded_upto(input, j),
    decreases m - j,
{
    if j < m {
        lemma_error_stays(input, j, m - 1);
    }
}

/// Turns a transformed file back into the file, record by record.  Fails,
/// with `PrimaryIndexOutOfRange`, where the last byte of a record names no
/// row of its block.
pub fn decode(input: &[u8]) -> (r: Result<Vec<u8>, FormatError>)
    ensures
        match decoded(input@) {
            Ok(bytes) => r.is_ok() && r.unwrap()@ == bytes,
            Err(e) => r == Err::<Vec<u8>, FormatError>(e),
        },
{
    let len = input.len();
    let total = if len % RECORD == 0 {
        len / RECORD
    } else {
        len / RECORD + 1
    };
    assert(total == record_count(len as int));
    let mut out: Vec<u8> = Vec::new();
    let mut done: usize = 0;
    while done < total
        invariant
            done <= total,
            len == input.len(),
            total == record_count(len as int),
            decoded_upto(input@, done as int) == Ok::<Seq<u8>, FormatError>(out@),
        decreases total - done,
    {
        let start = RECORD * done;
        let end = if len - start > RECORD {
            start + RECORD
        } else {
            len
        };
        let rec = vstd::slice::slice_subrange(input, start, end);
        let size = rec.len() - 1;
        let permuted = vstd::slice::slice_subrange(rec, 0, size);
        assert(permuted@ =~= rec@.take(size as int));
        match decode_block(permuted, rec[size]) {
            Ok(block) => {
                let ghost before = out@;
                out.extend_from_slice(block.as_slice());
                assert(out@ =~= before + block@);
            },
            Err(e) => {
                proof {
                    lemma_error_stays(input@, done + 1, total as int);
                }
                return Err(e);
            },
        }
        done += 1;
    }
    Ok(out)
}

} // verus!
