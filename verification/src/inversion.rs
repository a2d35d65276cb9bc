//! Why the block transform can be undone, and why its two ways agree.

use vstd::prelude::*;

use crate::bwt::{
    block_at, block_count, decoded, decoded_record, decoded_upto, encoded, encoded_upto,
    doubled, inverse, is_first_row, last_column, lemma_row_unique, lemma_sorted_rows, record,
    record_at, record_count, rotation, row_of, sorted_rotations, successor, walk,
};
use crate::error::FormatError;
use crate::order::{
    lemma_lex_antisym, lemma_lex_common_head, lemma_lex_refl, lemma_lex_take, lemma_lex_total,
    lemma_lex_trans, lex_le,
};
use crate::perm::{is_permutation, lemma_permutation_onto, lemma_same_items_permutation};
use crate::utils::{
    lemma_stable_rank_order, lemma_stable_rank_permutation, sorts_before, stable_rank,
};
use vstd::relations::{total_ordering};

verus! {

/// The order of the numbers of places turned: by the rotation, and for
/// equal rotations by the number.
pub open spec fn turn_order(block: Seq<u8>) -> spec_fn(int, int) -> bool {
    |p: int, q: int|
        lex_le(rotation(block, p), rotation(block, q)) && (rotation(block, p) == rotation(block, q)
            ==> p <= q)
}

/// The order of the numbers of places turned is a total order.
proof fn lemma_turn_order_total(block: Seq<u8>)
    ensures
        total_ordering(turn_order(block)),
{
    let r = turn_order(block);
    assert forall|p: int| #[trigger] r(p, p) by {
        lemma_lex_refl(rotation(block, p));
    }
    assert forall|p: int, q: int| #[trigger] r(p, q) && #[trigger] r(q, p) implies p == q by {
        lemma_lex_antisym(rotation(block, p), rotation(block, q));
    }
    assert forall|p: int, q: int, s: int| #[trigger] r(p, q) && #[trigger] r(q, s) implies r(
        p,
        s,
    ) by {
        lemma_lex_trans(rotation(block, p), rotation(block, q), rotation(block, s));
        if rotation(block, p) == rotation(block, s) {
            lemma_lex_antisym(rotation(block, p), rotation(block, q));
        }
    }
    assert forall|p: int, q: int| #[trigger] r(p, q) || #[trigger] r(q, p) by {
        lemma_lex_total(rotation(block, p), rotation(block, q));
        lemma_lex_refl(rotation(block, p));
    }
}

/// The sorted rotations are the rotations by the numbers of a permutation,
/// and stand in lexicographic order.
pub proof fn lemma_rotation_order(block: Seq<u8>) -> (turns: Seq<int>)
    ensures
        is_permutation(turns, block.len() as int),
        sorted_rotations(block).len() == block.len(),
        forall|k: int|
            0 <= k < block.len() ==> #[trigger] sorted_rotations(block)[k] == rotation(
                block,
                turns[k],
            ),
        forall|a: int, b: int|
            0 <= a < b < block.len() ==> lex_le(
                #[trigger] sorted_rotations(block)[a],
                #[trigger] sorted_rotations(block)[b],
            ),
{
    let n = block.len();
    let ids = Seq::new(n, |i: int| i);
    let r = turn_order(block);
    lemma_turn_order_total(block);
    let turns = ids.sort_by(r);
    ids.lemma_sort_by_ensures(r);
    lemma_same_items_permutation(ids, turns, n as int);
    assert forall|a: int, b: int| 0 <= a < b < n implies lex_le(
        rotation(block, #[trigger] turns[a]),
        rotation(block, #[trigger] turns[b]),
    ) by {
        assert(r(turns[a], turns[b]));
    }
    lemma_sorted_rows(block, turns);
    turns
}

/// The table of successors names a byte for each place, each byte once, and
/// the bytes in sorted order, equal bytes in the order in which they stand.
pub proof fn lemma_successor_sorts(permuted: Seq<u8>)
    ensures
        is_permutation(successor(permuted), permuted.len() as int),
        forall|k: int|
            0 <= k < permuted.len() ==> stable_rank(permuted, #[trigger] successor(permuted)[k])
                == k,
        forall|a: int, b: int|
            0 <= a < b < permuted.len() ==> sorts_before(
                permuted,
                #[trigger] successor(permuted)[a],
                #[trigger] successor(permuted)[b],
            ),
{
    let n = permuted.len() as int;
    let t = successor(permuted);
    let ranks = Seq::new(permuted.len(), |i: int| stable_rank(permuted, i));
    lemma_stable_rank_permutation(permuted);
    assert forall|k: int| 0 <= k < n implies 0 <= #[trigger] t[k] < n && stable_rank(
        permuted,
        t[k],
    ) == k by {
        let i = lemma_permutation_onto(ranks, n, k);
        assert(ranks[i] == stable_rank(permuted, i));
    }
    assert forall|a: int, b: int| 0 <= a < b < n implies sorts_before(
        permuted,
        #[trigger] t[a],
        #[trigger] t[b],
    ) by {
        if !sorts_before(permuted, t[a], t[b]) {
            if t[a] != t[b] {
                lemma_stable_rank_order(permuted, t[b], t[a]);
            }
        }
    }
}

/// Turning a rotation to the right by one place gives the rotation by one
/// place less; turning it to the left gives the rotation by one place more.
proof fn lemma_turn_by_one(block: Seq<u8>, p: int)
    requires
        0 <= p < block.len(),
    ensures
        seq![rotation(block, p).last()] + rotation(block, p).drop_last() == rotation(
            block,
            if p == 0 {
                block.len() - 1
            } else {
                p - 1
            },
        ),
        rotation(block, p).drop_first().push(rotation(block, p)[0]) == rotation(block, p + 1),
        rotation(block, block.len() as int) == rotation(block, 0),
{
    let n = block.len() as int;
    let x = rotation(block, p);
    let before = rotation(
        block,
        if p == 0 {
            n - 1
        } else {
            p - 1
        },
    );
    assert(seq![x.last()] + x.drop_last() =~= before);
    assert(x.drop_first().push(x[0]) =~= rotation(block, p + 1));
    assert(rotation(block, n) =~= rotation(block, 0));
}

/// Rows that stand in lexicographic order still do so after each has been
/// turned to the right by one place, if they are taken in the sorted order
/// of their last bytes, rows with equal last bytes in their own order.
proof fn lemma_turned_rows_sorted(rows: Seq<Seq<u8>>, n: int, i: int, j: int)
    requires
        n >= 1,
        rows.len() == n,
        0 <= i < n,
        0 <= j < n,
        rows[i].len() == n,
        rows[j].len() == n,
        i < j ==> lex_le(rows[i], rows[j]),
        rows[i][n - 1] < rows[j][n - 1] || (rows[i][n - 1] == rows[j][n - 1] && i < j),
    ensures
        lex_le(
            seq![rows[i][n - 1]] + rows[i].drop_last(),
            seq![rows[j][n - 1]] + rows[j].drop_last(),
        ),
{
    let x = seq![rows[i][n - 1]] + rows[i].drop_last();
    let y = seq![rows[j][n - 1]] + rows[j].drop_last();
    if rows[i][n - 1] == rows[j][n - 1] {
        lemma_lex_take(rows[i], rows[j], n - 1);
        assert(rows[i].take(n - 1) =~= rows[i].drop_last());
        assert(rows[j].take(n - 1) =~= rows[j].drop_last());
        lemma_lex_common_head(seq![rows[i][n - 1]], rows[i].drop_last(), rows[j].drop_last());
    } else {
        assert(x[0] == rows[i][n - 1] && y[0] == rows[j][n - 1]);
    }
}

/// The number of places of the rotation that comes before the rotation by
/// `p` places when the block is turned to the left place by place.
pub open spec fn turn_before(p: int, n: int) -> int {
    if p == 0 {
        n - 1
    } else {
        p - 1
    }
}

/// The rotations that the way back leads to, each turned to the right by one
/// place, are the sorted rotations again.
proof fn lemma_turned_back(block: Seq<u8>, turns: Seq<int>) -> (back: Seq<int>)
    requires
        block.len() >= 1,
        is_permutation(turns, block.len() as int),
        sorted_rotations(block).len() == block.len(),
        forall|k: int|
            0 <= k < block.len() ==> #[trigger] sorted_rotations(block)[k] == rotation(
                block,
                turns[k],
            ),
        forall|a: int, b: int|
            0 <= a < b < block.len() ==> lex_le(
                #[trigger] sorted_rotations(block)[a],
                #[trigger] sorted_rotations(block)[b],
            ),
    ensures
        back.len() == block.len(),
        forall|k: int|
            0 <= k < block.len() ==> #[trigger] back[k] == turn_before(
                turns[successor(last_column(block))[k]],
                block.len() as int,
            ),
        forall|k: int|
            0 <= k < block.len() ==> #[trigger] sorted_rotations(block)[k] == rotation(
                block,
                back[k],
            ),
{
    let n = block.len() as int;
    let rows = sorted_rotations(block);
    let last = last_column(block);
    let t = successor(last);
    lemma_successor_sorts(last);
    let back = Seq::new(n as nat, |k: int| turn_before(turns[t[k]], n));
    assert forall|a: int, b: int| 0 <= a < b < n implies back[a] != back[b] by {
        assert(t[a] != t[b]);
        if t[a] < t[b] {
            assert(turns[t[a]] != turns[t[b]]);
        } else {
            assert(turns[t[b]] != turns[t[a]]);
        }
    }
    assert forall|a: int, b: int| 0 <= a < b < n implies lex_le(
        rotation(block, #[trigger] back[a]),
        rotation(block, #[trigger] back[b]),
    ) by {
        let i = t[a];
        let j = t[b];
        assert(sorts_before(last, i, j));
        assert(rows[i] == rotation(block, turns[i]));
        assert(rows[j] == rotation(block, turns[j]));
        lemma_turn_by_one(block, turns[i]);
        lemma_turn_by_one(block, turns[j]);
        if i < j {
            assert(lex_le(rows[i], rows[j]));
        }
        lemma_turned_rows_sorted(rows, n, i, j);
    }
    lemma_sorted_rows(block, back);
    back
}

/// The number of places of the rotation in the row that the way back leads
/// to from the row `k`, and that of the rotation in the row `k` itself.
proof fn lemma_turns_of_step(block: Seq<u8>, k: int) -> (p: int)
    requires
        block.len() >= 1,
        0 <= k < block.len(),
    ensures
        0 <= p < block.len(),
        0 <= successor(last_column(block))[k] < block.len(),
        sorted_rotations(block)[successor(last_column(block))[k]] == rotation(block, p),
        sorted_rotations(block)[k] == rotation(block, turn_before(p, block.len() as int)),
{
    let turns = lemma_rotation_order(block);
    let back = lemma_turned_back(block, turns);
    lemma_successor_sorts(last_column(block));
    let to = successor(last_column(block))[k];
    assert(sorted_rotations(block)[to] == rotation(block, turns[to]));
    assert(sorted_rotations(block)[k] == rotation(block, back[k]));
    turns[to]
}

/// A sequence turned to the right by one place and then to the left by one
/// place is the sequence again.
proof fn lemma_right_then_left(x: Seq<u8>, y: Seq<u8>)
    requires
        x.len() >= 1,
        y == seq![x.last()] + x.drop_last(),
    ensures
        y.drop_first().push(y[0]) == x,
{
    assert(y.drop_first().push(y[0]) =~= x);
}

/// One step of the way back leads from a row of the sorted rotations to the
/// row that holds the same rotation turned to the left by one place.
pub proof fn lemma_step_turns_left(block: Seq<u8>, k: int)
    requires
        block.len() >= 1,
        0 <= k < block.len(),
    ensures
        0 <= successor(last_column(block))[k] < block.len(),
        sorted_rotations(block)[successor(last_column(block))[k]] == sorted_rotations(
            block,
        )[k].drop_first().push(sorted_rotations(block)[k][0]),
{
    let p = lemma_turns_of_step(block, k);
    lemma_turn_by_one(block, p);
    lemma_right_then_left(
        rotation(block, p),
        rotation(block, turn_before(p, block.len() as int)),
    );
}

/// The way back from a row that holds the rotation by `j` places meets the
/// bytes of the block from the place `j` on.
proof fn lemma_way_back(block: Seq<u8>, pos: int, j: int)
    requires
        block.len() >= 1,
        0 <= j <= block.len(),
        0 <= pos < block.len(),
        sorted_rotations(block)[pos] == rotation(block, j),
    ensures
        walk(
            successor(last_column(block)),
            last_column(block),
            pos,
            (block.len() - j) as nat,
        ) == block.skip(j),
    decreases block.len() - j,
{
    let n = block.len() as int;
    let last = last_column(block);
    let t = successor(last);
    if j == n {
        assert(block.skip(j) =~= Seq::<u8>::empty());
    } else {
        lemma_step_turns_left(block, pos);
        let to = t[pos];
        lemma_turn_by_one(block, j);
        assert(sorted_rotations(block)[to] == rotation(block, j + 1));
        lemma_way_back(block, to, j + 1);
        assert(last[to] == rotation(block, j + 1)[n - 1]);
        assert(rotation(block, j + 1)[n - 1] == block[j]);
        assert(seq![block[j]] + block.skip(j + 1) =~= block.skip(j));
    }
}

/// The inverse transform gives the block back: from the last column of the
/// sorted rotations of a block, and from any row that holds the block
/// itself, the way back leads through the bytes of the block.
pub proof fn lemma_inverse_gives_block(block: Seq<u8>, row: int)
    requires
        0 <= row < block.len(),
        sorted_rotations(block)[row] == block,
    ensures
        inverse(last_column(block), row) == block,
{
    assert(rotation(block, 0) =~= block);
    lemma_way_back(block, row, 0);
    assert(block.skip(0) =~= block);
}

/// Some row of the sorted rotations is the first that holds the block.
pub proof fn lemma_rows_exist(block: Seq<u8>)
    requires
        block.len() >= 1,
    ensures
        0 <= row_of(block) < block.len(),
        sorted_rotations(block)[row_of(block)] == block,
        is_first_row(block, row_of(block)),
{
    let rows = sorted_rotations(block);
    let turns = lemma_rotation_order(block);
    let k = lemma_permutation_onto(turns, block.len() as int, 0);
    assert(rotation(block, 0) =~= block);
    assert(rows[k] == block);
    assert(rows.contains(block));
    rows.index_of_first_ensures(block);
    let row = rows.index_of_first(block).unwrap();
    assert(is_first_row(block, row));
    lemma_row_unique(block, row);
}

/// The record of a block of at most 256 bytes stands for the block.
pub proof fn lemma_record_round_trip(block: Seq<u8>)
    requires
        1 <= block.len() <= 256,
    ensures
        record(block).len() == block.len() + 1,
        decoded_record(record(block)) == Ok::<Seq<u8>, FormatError>(block),
{
    let rec = record(block);
    let n = block.len() as int;
    lemma_rows_exist(block);
    let row = row_of(block);
    assert(rec.take(n) =~= last_column(block));
    assert(rec[n] == row);
    lemma_inverse_gives_block(block, row);
}

/// The suffixes of the doubled block that start in its first half stand in
/// the order of the rotations: offsets that name each rotation once, in the
/// lexicographic order of the suffixes that start there, name the sorted
/// rotations row by row.  So the suffix array gives the table that sorting
/// the rotations gives.
pub proof fn lemma_suffixes_order_rotations(block: Seq<u8>, offsets: Seq<int>)
    requires
        is_permutation(offsets, block.len() as int),
        forall|c: int, d: int|
            0 <= c < d < block.len() ==> lex_le(
                doubled(block).skip(#[trigger] offsets[c]),
                doubled(block).skip(#[trigger] offsets[d]),
            ),
    ensures
        sorted_rotations(block).len() == block.len(),
        forall|k: int|
            0 <= k < block.len() ==> #[trigger] sorted_rotations(block)[k] == rotation(
                block,
                offsets[k],
            ),
{
    let n = block.len() as int;
    let whole = doubled(block);
    assert forall|c: int, d: int| 0 <= c < d < n implies lex_le(
        rotation(block, #[trigger] offsets[c]),
        rotation(block, #[trigger] offsets[d]),
    ) by {
        let sc = whole.skip(offsets[c]);
        let sd = whole.skip(offsets[d]);
        lemma_lex_take(sc, sd, n);
        assert(sc.take(n) =~= rotation(block, offsets[c]));
        assert(sd.take(n) =~= rotation(block, offsets[d]));
    }
    lemma_sorted_rows(block, offsets);
}

/// The two ways of the transform agree on every block: the pair that
/// sorting the table gives and the pair that the suffix array gives, each
/// the last column of the sorted rotations with the first row that holds
/// the block, are one pair, and its row is the row of the record.
pub proof fn lemma_ways_agree(
    block: Seq<u8>,
    by_table: (Seq<u8>, int),
    by_suffixes: (Seq<u8>, int),
)
    requires
        by_table.0 == last_column(block),
        is_first_row(block, by_table.1),
        by_suffixes.0 == last_column(block),
        is_first_row(block, by_suffixes.1),
    ensures
        by_table == by_suffixes,
        by_table.1 == row_of(block),
        by_table.0.push(by_table.1 as u8) == record(block),
{
    lemma_row_unique(block, by_table.1);
    lemma_row_unique(block, by_suffixes.1);
}

/// The length of the records of the first `j` blocks.
proof fn lemma_encoded_len(input: Seq<u8>, j: int)
    requires
        0 <= j <= block_count(input.len() as int),
    ensures
        encoded_upto(input, j).len() == (if 256 * j <= input.len() {
            257 * j
        } else {
            input.len() + j
        }),
    decreases j,
{
    if j > 0 {
        lemma_encoded_len(input, j - 1);
        let block = block_at(input, j - 1);
        lemma_record_round_trip(block);
    }
}

/// The records of the first blocks are the head of the records of more
/// blocks.
proof fn lemma_encoded_head(input: Seq<u8>, j: int, m: int)
    requires
        0 <= j <= m <= block_count(input.len() as int),
    ensures
        encoded_upto(input, j).len() <= encoded_upto(input, m).len(),
        encoded_upto(input, m).take(encoded_upto(input, j).len() as int)
            == encoded_upto(input, j),
    decreases m - j,
{
    if j < m {
        lemma_encoded_head(input, j, m - 1);
        let shorter = encoded_upto(input, m - 1);
        let whole = encoded_upto(input, m);
        let head = encoded_upto(input, j);
        assert(whole.take(head.len() as int) =~= shorter.take(head.len() as int));
    } else {
        assert(encoded_upto(input, m).take(encoded_upto(input, j).len() as int)
            =~= encoded_upto(input, j));
    }
}

/// The first records of a transformed file stand for the first blocks of
/// the file.
proof fn lemma_decoded_upto(input: Seq<u8>, j: int)
    requires
        0 <= j <= block_count(input.len() as int),
    ensures
        decoded_upto(encoded(input), j) == Ok::<Seq<u8>, FormatError>(
            input.take(if 256 * j <= input.len() {
                256 * j
            } else {
                input.len() as int
            }),
        ),
    decreases j,
{
    let count = block_count(input.len() as int);
    let file = encoded(input);
    if j == 0 {
        assert(input.take(0) =~= Seq::<u8>::empty());
    } else {
        lemma_decoded_upto(input, j - 1);
        let block = block_at(input, j - 1);
        lemma_record_round_trip(block);
        lemma_encoded_len(input, j - 1);
        lemma_encoded_len(input, j);
        lemma_encoded_len(input, count);
        lemma_encoded_head(input, j, count);
        let head = encoded_upto(input, j - 1);
        let upto = encoded_upto(input, j);
        assert(upto == head + record(block));
        assert(file.take(upto.len() as int) == upto);
        assert(record_at(file, j - 1) =~= record(block)) by {
            assert(head.len() == 257 * (j - 1));
            if j < count {
                assert(upto.len() == 257 * j);
            } else {
                assert(upto.len() == file.len());
            }
            assert forall|i: int| 0 <= i < record(block).len() implies record_at(
                file,
                j - 1,
            )[i] == record(block)[i] by {
                assert(file.take(upto.len() as int)[head.len() + i] == upto[head.len() + i]);
            }
        }
        let before = input.take(256 * (j - 1));
        assert(before + block =~= input.take(
            if 256 * j <= input.len() {
                256 * j
            } else {
                input.len() as int
            },
        ));
    }
}

/// Decoding gives back what was encoded: every file, transformed block by
/// block, is found again by `decoded`; and both ways of the transform give
/// this transformed file.
pub proof fn lemma_round_trip(input: Seq<u8>)
    ensures
        decoded(encoded(input)) == Ok::<Seq<u8>, FormatError>(input),
{
    let count = block_count(input.len() as int);
    lemma_encoded_len(input, count);
    lemma_decoded_upto(input, count);
    assert(record_count(encoded(input).len() as int) == count);
    assert(input.take(input.len() as int) =~= input);
}

/// The two ways give the same file, byte for byte: whatever file the
/// transform by the sorted table gives for an input, the transform by the
/// suffix array gives for it too.
pub proof fn lemma_files_agree(input: Seq<u8>, by_table: Seq<u8>, by_suffixes: Seq<u8>)
    requires
        by_table == encoded(input),
        by_suffixes == encoded(input),
    ensures
        by_table == by_suffixes,
{
}

/// The transformed file is fixed by the input: equal inputs have equal
/// files, block for block and row for row.
pub proof fn lemma_same_input_same_file(first: Seq<u8>, second: Seq<u8>)
    requires
        first == second,
    ensures
        encoded(first) == encoded(second),
{
}

} // verus!
