//! Sorting tools of the block transform: the stable counting sort of bytes,
//! the sort of rows column by column, and the suffix array.

use vstd::prelude::*;

use crate::order::{
    lemma_lex_antisym, lemma_lex_common_head, lemma_lex_heads_differ, lemma_lex_refl,
    lemma_lex_short_left, lemma_lex_short_right, lemma_lex_total, lex_le,
};
use crate::perm::{
    ints, is_permutation, lemma_permutation_onto, lemma_same_items_permutation,
};

verus! {

/// How many of the bytes of `s` are at least `lo` and less than `hi`.
pub open spec fn occurrences(s: Seq<u8>, lo: int, hi: int) -> int
    decreases s.len(),
{
    if s.len() == 0 {
        0
    } else {
        occurrences(s.drop_last(), lo, hi) + if lo <= s.last() < hi {
            1int
        } else {
            0int
        }
    }
}

/// How many of the bytes of `s` are `v`.
pub open spec fn count_of(s: Seq<u8>, v: int) -> int {
    occurrences(s, v, v + 1)
}

/// The place of the byte at `i` once the bytes of `s` are sorted and equal
/// bytes keep their order: the number of smaller bytes, and of equal bytes
/// before it.
pub open spec fn stable_rank(s: Seq<u8>, i: int) -> int {
    occurrences(s, 0, s[i] as int) + occurrences(s.take(i), s[i] as int, s[i] + 1)
}

/// The byte at `i` is sorted before the byte at `j`: it is smaller, or it is
/// equal and stands earlier.
pub open spec fn sorts_before(s: Seq<u8>, i: int, j: int) -> bool {
    s[i] < s[j] || (s[i] == s[j] && i < j)
}

/// A sequence holds no more bytes of a range than it holds bytes.
pub proof fn lemma_occurrences_bounds(s: Seq<u8>, lo: int, hi: int)
    ensures
        0 <= occurrences(s, lo, hi) <= s.len(),
    decreases s.len(),
{
    if s.len() > 0 {
        lemma_occurrences_bounds(s.drop_last(), lo, hi);
    }
}

/// The bytes of a range are those of its lower and of its upper part.
pub proof fn lemma_occurrences_split(s: Seq<u8>, lo: int, mid: int, hi: int)
    requires
        lo <= mid <= hi,
    ensures
        occurrences(s, lo, hi) == occurrences(s, lo, mid) + occurrences(s, mid, hi),
    decreases s.len(),
{
    if s.len() > 0 {
        lemma_occurrences_split(s.drop_last(), lo, mid, hi);
    }
}

/// Every byte of a sequence is a byte of the whole range.
pub proof fn lemma_occurrences_all(s: Seq<u8>)
    ensures
        occurrences(s, 0, 256) == s.len(),
    decreases s.len(),
{
    if s.len() > 0 {
        lemma_occurrences_all(s.drop_last());
    }
}

/// A head of `s` holds no more bytes of a range than `s`, and one less if
/// the byte at `i`, which it leaves out, is in the range.
pub proof fn lemma_occurrences_take(s: Seq<u8>, i: int, lo: int, hi: int)
    requires
        0 <= i < s.len(),
    ensures
        occurrences(s.take(i), lo, hi) + (if lo <= s[i] < hi {
            1int
        } else {
            0int
        }) <= occurrences(s, lo, hi),
    decreases s.len(),
{
    if i == s.len() - 1 {
        assert(s.take(i) =~= s.drop_last());
    } else {
        assert(s.drop_last().take(i) =~= s.take(i));
        lemma_occurrences_take(s.drop_last(), i, lo, hi);
    }
}

/// Of two heads of `s` the longer holds at least as many bytes of a range,
/// and one more if the byte at `i`, which only it holds, is in the range.
pub proof fn lemma_occurrences_heads(s: Seq<u8>, i: int, j: int, lo: int, hi: int)
    requires
        0 <= i < j <= s.len(),
    ensures
        occurrences(s.take(i), lo, hi) + (if lo <= s[i] < hi {
            1int
        } else {
            0int
        }) <= occurrences(s.take(j), lo, hi),
{
    assert(s.take(j).take(i) =~= s.take(i));
    lemma_occurrences_take(s.take(j), i, lo, hi);
}

/// The place of a byte in the sorted order is a place of the sequence.
pub proof fn lemma_stable_rank_bounds(s: Seq<u8>, i: int)
    requires
        0 <= i < s.len(),
    ensures
        0 <= stable_rank(s, i) < s.len(),
{
    let v = s[i] as int;
    lemma_occurrences_bounds(s, 0, v);
    lemma_occurrences_bounds(s.take(i), v, v + 1);
    lemma_occurrences_take(s, i, v, v + 1);
    lemma_occurrences_split(s, 0, v, v + 1);
    lemma_occurrences_split(s, 0, v + 1, 256);
    lemma_occurrences_bounds(s, v + 1, 256);
    lemma_occurrences_all(s);
}

/// A byte that is sorted before another has the smaller place.
pub proof fn lemma_stable_rank_order(s: Seq<u8>, i: int, j: int)
    requires
        0 <= i < s.len(),
        0 <= j < s.len(),
        sorts_before(s, i, j),
    ensures
        stable_rank(s, i) < stable_rank(s, j),
{
    let v = s[i] as int;
    let w = s[j] as int;
    if v < w {
        lemma_occurrences_take(s, i, v, v + 1);
        lemma_occurrences_split(s, 0, v, v + 1);
        lemma_occurrences_split(s, 0, v + 1, w);
        lemma_occurrences_bounds(s, v + 1, w);
        lemma_occurrences_bounds(s.take(j), w, w + 1);
    } else {
        lemma_occurrences_heads(s, i, j, v, v + 1);
    }
}

/// The places in the sorted order, one for each byte, are a permutation.
pub proof fn lemma_stable_rank_permutation(s: Seq<u8>)
    ensures
        is_permutation(Seq::new(s.len(), |i: int| stable_rank(s, i)), s.len() as int),
{
    let ranks = Seq::new(s.len(), |i: int| stable_rank(s, i));
    assert forall|k: int| 0 <= k < s.len() implies 0 <= #[trigger] ranks[k] < s.len() by {
        lemma_stable_rank_bounds(s, k);
    }
    assert forall|a: int, b: int| 0 <= a < b < s.len() implies ranks[a] != ranks[b] by {
        if sorts_before(s, a, b) {
            lemma_stable_rank_order(s, a, b);
        } else {
            lemma_stable_rank_order(s, b, a);
        }
    }
}

/// The order in which a stable sort takes the bytes of `array`: the result
/// holds at each place the index of the byte that is sorted to this place.
/// So the bytes, taken in the order of the result, are sorted, and equal
/// bytes come in the order in which they stand in `array`.
pub fn build_t(array: &[u8]) -> (t: Vec<usize>)
    ensures
        t.len() == array.len(),
        forall|i: int|
            0 <= i < array.len() ==> 0 <= #[trigger] stable_rank(array@, i) < array.len() && t@[stable_rank(
                array@,
                i,
            )] == i,
        forall|k: int|
            0 <= k < array.len() ==> (#[trigger] t@[k]) < array.len() && stable_rank(
                array@,
                t@[k] as int,
            ) == k,
{
    let n = array.len();
    let ghost s = array@;
    let mut c: Vec<usize> = vec![0usize; 256];
    let mut i: usize = 0;
    assert(s.take(0) =~= Seq::<u8>::empty());
    while i < n
        invariant
            i <= n,
            n == s.len(),
            s == array@,
            c.len() == 256,
            forall|v: int| 0 <= v < 256 ==> #[trigger] c@[v] == count_of(s.take(i as int), v),
        decreases n - i,
    {
        let x = array[i] as usize;
        proof {
            assert(s.take(i + 1).drop_last() =~= s.take(i as int));
            lemma_occurrences_bounds(s.take(i as int), x as int, x + 1);
        }
        c.set(x, c[x] + 1);
        i += 1;
    }
    assert(s.take(n as int) =~= s);
    proof {
        lemma_occurrences_split(s, 0, 0, 1);
    }
    let mut v: usize = 1;
    while v < 256
        invariant
            1 <= v <= 256,
            c.len() == 256,
            n == s.len(),
            forall|u: int| 0 <= u < v ==> #[trigger] c@[u] == occurrences(s, 0, u) + count_of(s, u),
            forall|u: int| v <= u < 256 ==> #[trigger] c@[u] == count_of(s, u),
        decreases 256 - v,
    {
        proof {
            lemma_occurrences_split(s, 0, v - 1, v as int);
            lemma_occurrences_split(s, 0, v as int, v + 1);
            lemma_occurrences_bounds(s, 0, v + 1);
        }
        c.set(v, c[v] + c[v - 1]);
        v += 1;
    }
    let mut t: Vec<usize> = vec![0usize; n];
    let mut m: usize = n;
    while m > 0
        invariant
            m <= n,
            n == s.len(),
            s == array@,
            c.len() == 256,
            t.len() == n,
            forall|u: int|
                0 <= u < 256 ==> #[trigger] c@[u] == occurrences(s, 0, u) + count_of(
                    s.take(m as int),
                    u,
                ),
            forall|j: int|
                m <= j < n ==> 0 <= #[trigger] stable_rank(s, j) < n && t@[stable_rank(s, j)] == j,
        decreases m,
    {
        m -= 1;
        let el = array[m] as usize;
        proof {
            let longer = s.take(m + 1);
            assert(longer.drop_last() =~= s.take(m as int));
            assert(longer.last() == el);
            assert forall|u: int| 0 <= u < 256 implies count_of(longer, u) == count_of(
                s.take(m as int),
                u,
            ) + if u == el {
                1int
            } else {
                0int
            } by {}
            lemma_stable_rank_bounds(s, m as int);
            assert(c@[el as int] - 1 == stable_rank(s, m as int));
            assert forall|j: int| m < j < n implies stable_rank(s, j) != stable_rank(s, m as int) by {
                if sorts_before(s, m as int, j) {
                    lemma_stable_rank_order(s, m as int, j);
                } else {
                    lemma_stable_rank_order(s, j, m as int);
                }
            }
        }
        t.set(c[el] - 1, m);
        c.set(el, c[el] - 1);
    }
    proof {
        let ranks = Seq::new(s.len(), |i: int| stable_rank(s, i));
        lemma_stable_rank_permutation(s);
        assert forall|k: int| 0 <= k < n implies (#[trigger] t@[k]) < n && stable_rank(
            s,
            t@[k] as int,
        ) == k by {
            let i = lemma_permutation_onto(ranks, n as int, k);
            assert(ranks[i] == stable_rank(s, i));
        }
    }
    t
}

/// The rows that an array of byte vectors holds.
pub open spec fn views(array: Seq<Vec<u8>>) -> Seq<Seq<u8>> {
    Seq::new(array.len(), |i: int| array[i]@)
}

/// The part of a row by which it is sorted: its bytes from column `lo` up
/// to column `hi`, `hi` itself left out; empty where there are no such
/// columns.
pub open spec fn key(row: Seq<u8>, lo: int, hi: int) -> Seq<u8> {
    if 0 <= lo <= hi <= row.len() {
        row.subrange(lo, hi)
    } else {
        Seq::empty()
    }
}

/// Row `i` is sorted before row `j`: its key comes first, or the keys are
/// equal and row `i` stands earlier.
pub open spec fn row_before(rows: Seq<Seq<u8>>, i: int, j: int, lo: int, hi: int) -> bool {
    let a = key(rows[i], lo, hi);
    let b = key(rows[j], lo, hi);
    (lex_le(a, b) && a != b) || (a == b && i < j)
}

/// `order` names the rows in the order of a stable sort by their keys: each
/// row once, and each before all those that it is sorted before.
pub open spec fn is_stable_order(rows: Seq<Seq<u8>>, order: Seq<int>, lo: int, hi: int) -> bool {
    &&& is_permutation(order, rows.len() as int)
    &&& forall|a: int, b: int|
        0 <= a < b < rows.len() ==> row_before(rows, #[trigger] order[a], #[trigger] order[b], lo, hi)
}

/// If a byte of one row is sorted before a byte of another, or is equal to
/// it while the keys behind compare so, then the keys that start with these
/// bytes compare so.
proof fn lemma_row_before_extends(rows: Seq<Seq<u8>>, i: int, j: int, col: int, hi: int)
    requires
        0 <= i < rows.len(),
        0 <= j < rows.len(),
        0 <= col < hi,
        hi <= rows[i].len(),
        hi <= rows[j].len(),
        rows[i][col] < rows[j][col] || (rows[i][col] == rows[j][col] && row_before(
            rows,
            i,
            j,
            col + 1,
            hi,
        )),
    ensures
        row_before(rows, i, j, col, hi),
{
    let a = key(rows[i], col, hi);
    let b = key(rows[j], col, hi);
    let a1 = key(rows[i], col + 1, hi);
    let b1 = key(rows[j], col + 1, hi);
    assert(a.drop_first() =~= a1);
    assert(b.drop_first() =~= b1);
    assert(a[0] == rows[i][col] && b[0] == rows[j][col]);
    assert(a =~= seq![a[0]] + a1);
    assert(b =~= seq![b[0]] + b1);
}

/// The column `col` of the rows.
fn column_of(array: &Vec<Vec<u8>>, col: usize) -> (column: Vec<u8>)
    requires
        forall|r: int| 0 <= r < array.len() ==> (#[trigger] array@[r]).len() > col,
    ensures
        column.len() == array.len(),
        forall|r: int| 0 <= r < array.len() ==> #[trigger] column@[r] == array@[r]@[col as int],
{
    let mut column: Vec<u8> = Vec::new();
    let mut r: usize = 0;
    while r < array.len()
        invariant
            r <= array.len(),
            column.len() == r,
            forall|r: int| 0 <= r < array.len() ==> (#[trigger] array@[r]).len() > col,
            forall|q: int| 0 <= q < r ==> #[trigger] column@[q] == array@[q]@[col as int],
        decreases array.len() - r,
    {
        column.push(array[r][col]);
        r += 1;
    }
    column
}

/// The rows taken in the order `t`, which names each row once.
fn gather(array: &mut Vec<Vec<u8>>, t: &Vec<usize>)
    requires
        t.len() == old(array).len(),
        is_permutation(ints(t@), t.len() as int),
    ensures
        final(array).len() == old(array).len(),
        forall|k: int|
            0 <= k < t.len() ==> (#[trigger] final(array)@[k])@ == old(array)@[t@[k] as int]@,
{
    let n = array.len();
    let ghost rows = views(array@);
    let ghost order = ints(t@);
    let mut b: Vec<Vec<u8>> = Vec::new();
    let mut k: usize = 0;
    while k < n
        invariant
            k <= n,
            n == t.len(),
            array.len() == n,
            rows.len() == n,
            b.len() == k,
            order == ints(t@),
            is_permutation(order, n as int),
            forall|q: int| 0 <= q < k ==> (#[trigger] b@[q])@ == rows[order[q]],
            forall|q: int| k <= q < n ==> (#[trigger] array@[order[q]])@ == rows[order[q]],
        decreases n - k,
    {
        let from = t[k];
        assert(from as int == order[k as int]);
        let mut row: Vec<u8> = Vec::new();
        core::mem::swap(&mut row, &mut array[from]);
        b.push(row);
        proof {
            assert forall|q: int| k + 1 <= q < n implies (#[trigger] array@[order[q]])@
                == rows[order[q]] by {
                assert(order[k as int] != order[q]);
            }
        }
        k += 1;
    }
    *array = b;
}

/// Sorts the rows by their bytes in the columns from 1 up to `block`,
/// `block` itself left out; the byte in column 0 takes no part.  The sort is
/// stable: rows that agree in these columns keep their order.  It goes
/// through the columns from the last to the first, with one stable counting
/// sort for each.
pub fn radix_sort(array: &mut Vec<Vec<u8>>, block: usize)
    requires
        forall|r: int| 0 <= r < old(array).len() ==> (#[trigger] old(array)@[r]).len() >= block,
    ensures
        final(array).len() == old(array).len(),
        exists|order: Seq<int>|
            #![trigger is_stable_order(views(old(array)@), order, 1, block as int)]
            is_stable_order(views(old(array)@), order, 1, block as int) && forall|k: int|
                0 <= k < old(array).len() ==> (#[trigger] final(array)@[k])@ == old(
                    array,
                )@[order[k]]@,
{
    let n = array.len();
    let ghost rows = views(array@);
    let ghost hi = block as int;
    let ghost mut order: Seq<int> = Seq::new(n as nat, |k: int| k);
    let mut col: usize = if block < 1 {
        1
    } else {
        block
    };
    proof {
        assert forall|a: int, b: int| 0 <= a < b < n implies row_before(
            rows,
            #[trigger] order[a],
            #[trigger] order[b],
            col as int,
            hi,
        ) by {
            assert(key(rows[a], col as int, hi) =~= key(rows[b], col as int, hi));
        }
    }
    while col > 1
        invariant
            1 <= col,
            col <= hi || col == 1,
            hi == block as int,
            n == rows.len(),
            array.len() == n,
            forall|r: int| 0 <= r < n ==> (#[trigger] rows[r]).len() >= block,
            is_stable_order(rows, order, col as int, hi),
            forall|k: int| 0 <= k < n ==> (#[trigger] array@[k])@ == rows[order[k]],
        decreases col,
    {
        col -= 1;
        let column = column_of(array, col);
        let t = build_t(column.as_slice());
        let ghost next = Seq::new(n as nat, |k: int| order[t@[k] as int]);
        proof {
            assert forall|a: int, b: int| 0 <= a < b < n implies t@[a] != t@[b] by {}
            assert forall|a: int, b: int| 0 <= a < b < n implies next[a] != next[b] by {
                assert(t@[a] != t@[b]);
                if t@[a] < t@[b] {
                    assert(order[t@[a] as int] != order[t@[b] as int]);
                } else {
                    assert(order[t@[b] as int] != order[t@[a] as int]);
                }
            }
            assert forall|a: int, b: int| 0 <= a < b < n implies row_before(
                rows,
                #[trigger] next[a],
                #[trigger] next[b],
                col as int,
                hi,
            ) by {
                let i = t@[a] as int;
                let j = t@[b] as int;
                if !sorts_before(column@, i, j) {
                    lemma_stable_rank_order(column@, j, i);
                }
                assert(column@[i] == rows[order[i]][col as int]);
                assert(column@[j] == rows[order[j]][col as int]);
                if column@[i] == column@[j] {
                    assert(row_before(rows, order[i], order[j], col + 1, hi));
                }
                lemma_row_before_extends(rows, order[i], order[j], col as int, hi);
            }
        }
        gather(array, &t);
        proof {
            order = next;
        }
    }
}

/// The first `h` bytes of the suffix of `text` that starts at `i`, or the
/// whole suffix where it is shorter.
pub open spec fn head(text: Seq<u8>, i: int, h: int) -> Seq<u8> {
    if h <= text.len() - i {
        text.skip(i).take(h)
    } else {
        text.skip(i)
    }
}

/// The pair by which the suffix at `i` is sorted in the round that looks at
/// `2 * k` bytes: the rank of its first `k` bytes, and that of the `k` bytes
/// behind them plus one, or zero where the suffix ends before them.
pub open spec fn rank_pair_of(rank: Seq<usize>, i: int, k: int) -> (usize, usize) {
    (
        rank[i],
        if i + k < rank.len() {
            (rank[i + k] + 1) as usize
        } else {
            0usize
        },
    )
}

/// The order of pairs: by the first part, then by the second.
pub open spec fn pair_le(a: (usize, usize), b: (usize, usize)) -> bool {
    a.0 < b.0 || (a.0 == b.0 && a.1 <= b.1)
}

/// The ranks order the suffixes as their first `h` bytes do.
pub open spec fn ranks_follow(text: Seq<u8>, rank: Seq<usize>, h: int) -> bool {
    &&& rank.len() == text.len()
    &&& forall|x: int, y: int|
        0 <= x < text.len() && 0 <= y < text.len() ==> ((#[trigger] rank[x] <= #[trigger] rank[y])
            <==> lex_le(head(text, x, h), head(text, y, h)))
}

/// The suffixes named by `sa` stand in the order of their first `h` bytes.
pub open spec fn sorted_by_heads(text: Seq<u8>, sa: Seq<usize>, h: int) -> bool {
    forall|x: int, y: int|
        0 <= x < y < sa.len() ==> lex_le(
            head(text, #[trigger] sa[x] as int, h),
            head(text, #[trigger] sa[y] as int, h),
        )
}

/// `sa` is the suffix array of `text`: it names each suffix once, and each
/// before all the suffixes that come after it in the lexicographic order.
pub open spec fn is_suffix_array(text: Seq<u8>, sa: Seq<usize>) -> bool {
    &&& is_permutation(ints(sa), text.len() as int)
    &&& forall|x: int, y: int|
        0 <= x < y < sa.len() ==> lex_le(
            text.skip(#[trigger] sa[x] as int),
            text.skip(#[trigger] sa[y] as int),
        )
}

/// The pairs of two suffixes compare as the first `2 * h` bytes of the
/// suffixes do, if the ranks follow the first `h` bytes.
proof fn lemma_pair_order(text: Seq<u8>, rank: Seq<usize>, h: int, a: int, b: int)
    requires
        ranks_follow(text, rank, h),
        forall|j: int| 0 <= j < rank.len() ==> #[trigger] rank[j] < usize::MAX,
        h >= 1,
        0 <= a < text.len(),
        0 <= b < text.len(),
    ensures
        pair_le(rank_pair_of(rank, a, h), rank_pair_of(rank, b, h)) == lex_le(
            head(text, a, 2 * h),
            head(text, b, 2 * h),
        ),
{
    let n = text.len() as int;
    let x1 = head(text, a, h);
    let y1 = head(text, b, h);
    let x2 = if a + h < n {
        head(text, a + h, h)
    } else {
        Seq::<u8>::empty()
    };
    let y2 = if b + h < n {
        head(text, b + h, h)
    } else {
        Seq::<u8>::empty()
    };
    assert(head(text, a, 2 * h) =~= x1 + x2);
    assert(head(text, b, 2 * h) =~= y1 + y2);
    lemma_lex_refl(x1);
    lemma_lex_total(x1, y1);
    if lex_le(x1, y1) && lex_le(y1, x1) {
        lemma_lex_antisym(x1, y1);
    }
    if a + h < n {
        assert(rank[a + h] < usize::MAX);
    }
    if b + h < n {
        assert(rank[b + h] < usize::MAX);
    }
    if x1 == y1 {
        assert(rank[a] <= rank[b] && rank[b] <= rank[a]);
        lemma_lex_common_head(x1, x2, y2);
        if a + h < n && b + h < n {
            assert((rank[a + h] <= rank[b + h]) == lex_le(x2, y2));
        } else if a + h < n {
            assert(x2.len() > 0);
        }
    } else {
        assert(!(rank[a] <= rank[b] && rank[b] <= rank[a]));
        if x1.len() == y1.len() {
            lemma_lex_heads_differ(x1, x2, y1, y2);
        } else if x1.len() < y1.len() {
            assert(x2 =~= Seq::<u8>::empty());
            assert(x1 + x2 =~= x1);
            lemma_lex_short_left(x1, y1, y2);
        } else {
            assert(y2 =~= Seq::<u8>::empty());
            assert(y1 + y2 =~= y1);
            lemma_lex_short_right(x1, x2, y1);
        }
    }
}

/// Two sequences stand in the order in which their heads stand, where the
/// heads differ.
proof fn lemma_heads_decide(text: Seq<u8>, a: int, b: int, h: int)
    requires
        0 <= a <= text.len(),
        0 <= b <= text.len(),
        0 <= h,
        lex_le(head(text, a, h), head(text, b, h)),
        head(text, a, h) != head(text, b, h),
    ensures
        lex_le(text.skip(a), text.skip(b)),
{
    let x = text.skip(a);
    let y = text.skip(b);
    lemma_lex_total(x, y);
    if !lex_le(x, y) {
        crate::order::lemma_lex_take(y, x, h);
        assert(head(text, b, h) =~= y.take(if h <= y.len() { h } else { y.len() as int }));
        assert(head(text, a, h) =~= x.take(if h <= x.len() { h } else { x.len() as int }));
        lemma_lex_antisym(head(text, a, h), head(text, b, h));
    }
}

/// The pair by which the suffix at `i` is sorted.
fn rank_pair(rank: &Vec<usize>, i: usize, k: usize) -> (pair: (usize, usize))
    requires
        i < rank.len(),
        forall|j: int| 0 <= j < rank.len() ==> #[trigger] rank@[j] < usize::MAX,
    ensures
        pair == rank_pair_of(rank@, i as int, k as int),
{
    let second = if k < rank.len() - i {
        rank[i + k] + 1
    } else {
        0
    };
    (rank[i], second)
}

/// Sorts the suffixes named by `sa` by their pairs, with the sort of the
/// standard library, `sort_by_key` of slices.  Its documentation promises
/// that the slice holds the same items afterwards, in the order of their
/// keys, and that items with equal keys keep their order; pairs compare by
/// the first part and then by the second.
#[verifier::external_body]
fn sort_by_rank_pair(sa: &mut Vec<usize>, rank: &Vec<usize>, k: usize)
    requires
        forall|j: int| 0 <= j < old(sa).len() ==> #[trigger] old(sa)@[j] < rank.len(),
        forall|j: int| 0 <= j < rank.len() ==> #[trigger] rank@[j] < usize::MAX,
    ensures
        final(sa)@.to_multiset() == old(sa)@.to_multiset(),
        forall|a: int, b: int|
            0 <= a < b < final(sa).len() ==> pair_le(
                rank_pair_of(rank@, #[trigger] final(sa)@[a] as int, k as int),
                rank_pair_of(rank@, #[trigger] final(sa)@[b] as int, k as int),
            ),
        exists|from: Seq<int>|
            is_permutation(from, old(sa).len() as int) && (forall|a: int|
                0 <= a < old(sa).len() ==> final(sa)@[a] == old(sa)@[#[trigger] from[a]]) && (forall|
                a: int,
                b: int,
            |
                0 <= a < b < old(sa).len() && rank_pair_of(rank@, final(sa)@[a] as int, k as int)
                    == rank_pair_of(rank@, final(sa)@[b] as int, k as int) ==> #[trigger] from[a]
                    < #[trigger] from[b]),
{
    sa.sort_by_key(|&i| rank_pair(rank, i, k));
}

/// The ranks of the suffixes by their pairs, for suffixes that stand in the
/// order of their pairs: suffixes with equal pairs get equal ranks, and the
/// rank grows by one from one pair to the next.
fn new_ranks(sa: &Vec<usize>, rank: &Vec<usize>, k: usize) -> (next: Vec<usize>)
    requires
        sa.len() == rank.len(),
        sa.len() >= 1,
        is_permutation(ints(sa@), sa.len() as int),
        forall|j: int| 0 <= j < rank.len() ==> #[trigger] rank@[j] < usize::MAX,
        forall|a: int, b: int|
            0 <= a < b < sa.len() ==> pair_le(
                rank_pair_of(rank@, #[trigger] sa@[a] as int, k as int),
                rank_pair_of(rank@, #[trigger] sa@[b] as int, k as int),
            ),
    ensures
        next.len() == sa.len(),
        forall|x: int| 0 <= x < sa.len() ==> next@[#[trigger] sa@[x] as int] <= x,
        forall|x: int, y: int|
            0 <= x <= y < sa.len() ==> next@[#[trigger] sa@[x] as int] <= next@[#[trigger] sa@[y] as int]
                <= next@[sa@[x] as int] + (y - x),
        forall|x: int, y: int|
            0 <= x <= y < sa.len() ==> ((next@[#[trigger] sa@[x] as int] == next@[#[trigger] sa@[y] as int])
                <==> rank_pair_of(rank@, sa@[x] as int, k as int) == rank_pair_of(
                rank@,
                sa@[y] as int,
                k as int,
            )),
{
    let n = sa.len();
    let ghost order = ints(sa@);
    let mut next: Vec<usize> = vec![0usize; n];
    let mut i: usize = 1;
    assert(order[0] == sa@[0]);
    while i < n
        invariant
            1 <= i <= n,
            n == sa.len(),
            n == rank.len(),
            next.len() == n,
            order == ints(sa@),
            is_permutation(order, n as int),
            forall|j: int| 0 <= j < rank.len() ==> #[trigger] rank@[j] < usize::MAX,
            forall|a: int, b: int|
                0 <= a < b < sa.len() ==> pair_le(
                    rank_pair_of(rank@, #[trigger] sa@[a] as int, k as int),
                    rank_pair_of(rank@, #[trigger] sa@[b] as int, k as int),
                ),
            forall|x: int| 0 <= x < i ==> next@[#[trigger] sa@[x] as int] <= x,
            forall|x: int, y: int|
                0 <= x <= y < i ==> next@[#[trigger] sa@[x] as int] <= next@[#[trigger] sa@[y] as int]
                    <= next@[sa@[x] as int] + (y - x),
            forall|x: int, y: int|
                0 <= x <= y < i ==> ((next@[#[trigger] sa@[x] as int] == next@[#[trigger] sa@[y] as int])
                    <==> rank_pair_of(rank@, sa@[x] as int, k as int) == rank_pair_of(
                    rank@,
                    sa@[y] as int,
                    k as int,
                )),
        decreases n - i,
    {
        let a = sa[i - 1];
        let b = sa[i];
        assert(order[i - 1] == a && order[i as int] == b);
        let prev = rank_pair(rank, a, k);
        let now = rank_pair(rank, b, k);
        let step: usize = if prev.0 != now.0 || prev.1 != now.1 {
            1
        } else {
            0
        };
        let ghost before = next@;
        next.set(b, next[a] + step);
        proof {
            assert forall|x: int| 0 <= x < i implies next@[#[trigger] sa@[x] as int] == before[sa@[x] as int] by {
                assert(order[x] != order[i as int]);
            }
            assert forall|x: int, y: int| 0 <= x <= y < i + 1 implies ((next@[#[trigger] sa@[x] as int]
                == next@[#[trigger] sa@[y] as int]) <==> rank_pair_of(rank@, sa@[x] as int, k as int)
                == rank_pair_of(rank@, sa@[y] as int, k as int)) by {
                if y == i && x < i {
                    let px = rank_pair_of(rank@, sa@[x] as int, k as int);
                    assert(before[sa@[x] as int] <= before[sa@[i - 1] as int]);
                    if x < i - 1 {
                        assert(pair_le(px, prev));
                    }
                    assert(pair_le(prev, now));
                    assert(pair_le(px, now));
                }
            }
        }
        i += 1;
    }
    next
}

/// The suffix array of `text`, by rank doubling.  The ranks start as the
/// bytes themselves.  Each round sorts the suffixes by the rank of their
/// first `k` bytes and that of the `k` bytes behind them, ranks them anew
/// by these pairs, and doubles `k`; it is the last round when no two
/// suffixes share a rank.
pub fn build_sa(text: &[u8]) -> (sa: Vec<usize>)
    ensures
        sa.len() == text.len(),
        is_suffix_array(text@, sa@),
{
    let n = text.len();
    let mut sa: Vec<usize> = Vec::new();
    let mut rank: Vec<usize> = Vec::new();
    let mut i: usize = 0;
    while i < n
        invariant
            i <= n,
            n == text.len(),
            sa.len() == i,
            rank.len() == i,
            forall|j: int| 0 <= j < i ==> #[trigger] sa@[j] == j,
            forall|j: int| 0 <= j < i ==> #[trigger] rank@[j] == text@[j],
        decreases n - i,
    {
        sa.push(i);
        rank.push(text[i] as usize);
        i += 1;
    }
    let mut k: usize = 1;
    proof {
        assert forall|x: int, y: int| 0 <= x < n && 0 <= y < n implies ((#[trigger] rank@[x]
            <= #[trigger] rank@[y]) <==> lex_le(head(text@, x, 1), head(text@, y, 1))) by {
            let hx = head(text@, x, 1);
            let hy = head(text@, y, 1);
            assert(hx[0] == text@[x] && hy[0] == text@[y]);
            assert(hx.drop_first() =~= Seq::<u8>::empty());
            assert(lex_le(hx.drop_first(), hy.drop_first()));
        }
    }
    loop
        invariant_except_break
            1 <= k,
            n == text.len(),
            sa.len() == n,
            is_permutation(ints(sa@), n as int),
            ranks_follow(text@, rank@, k as int),
            forall|j: int| 0 <= j < rank.len() ==> #[trigger] rank@[j] < usize::MAX,
            k > 1 ==> sorted_by_heads(text@, sa@, k as int),
        ensures
            sa.len() == n,
            is_suffix_array(text@, sa@),
        decreases n - k,
    {
        if k >= n {
            proof {
                assert forall|x: int, y: int| 0 <= x < y < n implies lex_le(
                    text@.skip(#[trigger] sa@[x] as int),
                    text@.skip(#[trigger] sa@[y] as int),
                ) by {
                    assert(ints(sa@)[x] == sa@[x] && ints(sa@)[y] == sa@[y]);
                    let sx = text@.skip(sa@[x] as int);
                    let sy = text@.skip(sa@[y] as int);
                    assert(head(text@, sa@[x] as int, k as int) =~= sx);
                    assert(head(text@, sa@[y] as int, k as int) =~= sy);
                }
            }
            break ;
        }
        let ghost old_sa = sa@;
        let ghost old_rank = rank@;
        proof {
            assert forall|j: int| 0 <= j < sa.len() implies #[trigger] sa@[j] < rank.len() by {
                assert(ints(sa@)[j] == sa@[j]);
            }
        }
        sort_by_rank_pair(&mut sa, &rank, k);
        proof {
            assert(ints(old_sa).to_multiset() =~= ints(sa@).to_multiset()) by {
                lemma_ints_multiset(old_sa, sa@);
            }
            lemma_same_items_permutation(ints(old_sa), ints(sa@), n as int);
        }
        let next = new_ranks(&sa, &rank, k);
        let ghost order = ints(sa@);
        proof {
            assert forall|x: int, y: int| 0 <= x < n && 0 <= y < n implies ((#[trigger] next@[x]
                <= #[trigger] next@[y]) <==> lex_le(
                head(text@, x, 2 * k),
                head(text@, y, 2 * k),
            )) by {
                let px = lemma_permutation_onto(order, n as int, x);
                let py = lemma_permutation_onto(order, n as int, y);
                assert(sa@[px] == x && sa@[py] == y);
                lemma_pair_order(text@, old_rank, k as int, x, y);
                lemma_pair_order(text@, old_rank, k as int, y, x);
                if px <= py {
                    if px < py {
                        assert(pair_le(
                            rank_pair_of(old_rank, sa@[px] as int, k as int),
                            rank_pair_of(old_rank, sa@[py] as int, k as int),
                        ));
                    }
                    assert(next@[sa@[px] as int] <= next@[sa@[py] as int]);
                } else {
                    assert(pair_le(
                        rank_pair_of(old_rank, sa@[py] as int, k as int),
                        rank_pair_of(old_rank, sa@[px] as int, k as int),
                    ));
                    assert(next@[sa@[py] as int] <= next@[sa@[px] as int]);
                }
            }
            assert forall|x: int, y: int| 0 <= x < y < n implies lex_le(
                head(text@, #[trigger] sa@[x] as int, 2 * k),
                head(text@, #[trigger] sa@[y] as int, 2 * k),
            ) by {
                assert(order[x] == sa@[x] && order[y] == sa@[y]);
                lemma_pair_order(text@, old_rank, k as int, sa@[x] as int, sa@[y] as int);
            }
            assert forall|j: int| 0 <= j < n implies #[trigger] next@[j] < usize::MAX by {
                let pj = lemma_permutation_onto(order, n as int, j);
                assert(next@[sa@[pj] as int] <= pj);
            }
        }
        rank = next;
        assert(order[n - 1] == sa@[n - 1]);
        if rank[sa[n - 1]] == n - 1 {
            proof {
                assert forall|x: int, y: int| 0 <= x < y < n implies lex_le(
                    text@.skip(#[trigger] sa@[x] as int),
                    text@.skip(#[trigger] sa@[y] as int),
                ) by {
                    assert(order[x] == sa@[x] && order[y] == sa@[y]);
                    assert(rank@[sa@[x] as int] <= x);
                    assert(rank@[sa@[n - 1] as int] <= rank@[sa@[y] as int] + (n - 1 - y));
                    assert(rank@[sa@[y] as int] <= rank@[sa@[x] as int] + (y - x));
                    assert(rank@[sa@[x] as int] < rank@[sa@[y] as int]);
                    let hx = head(text@, sa@[x] as int, 2 * k);
                    let hy = head(text@, sa@[y] as int, 2 * k);
                    if hx == hy {
                        lemma_lex_refl(hx);
                    }
                    lemma_heads_decide(text@, sa@[x] as int, sa@[y] as int, 2 * k);
                }
            }
            break ;
        }
        proof {
            let wide: int = if k >= n - k {
                n as int
            } else {
                k + k
            };
            assert forall|x: int| 0 <= x < n implies head(text@, x, wide) =~= head(
                text@,
                x,
                2 * k,
            ) by {}
            assert(ranks_follow(text@, rank@, wide));
            assert(sorted_by_heads(text@, sa@, wide));
        }
        k = if k >= n - k {
            n
        } else {
            k + k
        };
    }
    sa
}

/// Sequences of indices that hold the same items hold the same numbers.
proof fn lemma_ints_multiset(a: Seq<usize>, b: Seq<usize>)
    requires
        a.to_multiset() == b.to_multiset(),
    ensures
        ints(a).to_multiset() == ints(b).to_multiset(),
{
    assert forall|v: int| ints(a).to_multiset().count(v) == ints(b).to_multiset().count(v) by {
        lemma_ints_count(a, v);
        lemma_ints_count(b, v);
    }
    assert(ints(a).to_multiset() =~= ints(b).to_multiset());
}

/// A number stands as often in `ints(a)` as it does, as an index, in `a`.
proof fn lemma_ints_count(a: Seq<usize>, v: int)
    ensures
        ints(a).to_multiset().count(v) == if 0 <= v <= usize::MAX {
            a.to_multiset().count(v as usize)
        } else {
            0
        },
    decreases a.len(),
{
    broadcast use vstd::seq_lib::group_to_multiset_ensures;

    if a.len() == 0 {
        assert(ints(a) =~= Seq::<int>::empty());
        assert(a =~= Seq::<usize>::empty());
    } else {
        let rest = a.drop_last();
        lemma_ints_count(rest, v);
        assert(a =~= rest.push(a.last()));
        assert(ints(a) =~= ints(rest).push(a.last() as int));
    }
}

} // verus!
