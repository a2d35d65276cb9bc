//! Why the decoder of the Huffman file finds the bytes that were encoded.

use vstd::prelude::*;

use crate::bits::{bits_of, le_bytes, lemma_bits_of_pack, lemma_le_round_trip, pack};
use crate::error::FormatError;
use crate::huffman::{
    code_of, coded, counts, decoded, encoded, header, huffman_tree, lemma_counts_sum,
    lemma_huffman_tree, lemma_walked_step, node, node_ok, parsed_counts, rooted, table_bytes, table_entry, walked, HEADER_LEN,
};
use crate::utils::{count_of, lemma_occurrences_all, lemma_occurrences_bounds, lemma_occurrences_take};

verus! {

/// The first `k` counts take four bytes each, and the count of the byte `v`
/// stands at the place `4 * v`.
proof fn lemma_table_bytes(freq: Seq<u32>, k: int, v: int)
    requires
        0 <= v < k <= freq.len(),
    ensures
        table_bytes(freq, k).len() == 4 * k,
        table_bytes(freq, k).subrange(4 * v, 4 * v + 4) == le_bytes(freq[v]),
    decreases k,
{
    lemma_table_len(freq, k - 1);
    if v < k - 1 {
        lemma_table_bytes(freq, k - 1, v);
        assert(table_bytes(freq, k).subrange(4 * v, 4 * v + 4) =~= table_bytes(
            freq,
            k - 1,
        ).subrange(4 * v, 4 * v + 4));
    } else {
        assert(table_bytes(freq, k).subrange(4 * v, 4 * v + 4) =~= le_bytes(freq[v]));
    }
}

/// The first `k` counts take four bytes each.
proof fn lemma_table_len(freq: Seq<u32>, k: int)
    requires
        0 <= k <= freq.len(),
    ensures
        table_bytes(freq, k).len() == 4 * k,
    decreases k,
{
    if k > 0 {
        lemma_table_len(freq, k - 1);
    }
}

/// The head of a file is read as it was written: a file that starts with
/// the head for 256 counts and their total holds these counts and this
/// total, and what follows the head is its body.
pub proof fn lemma_header_parses(freq: Seq<u32>, total: u32, body: Seq<u8>)
    requires
        freq.len() == 256,
    ensures
        (header(freq, total) + body).len() == HEADER_LEN + body.len(),
        parsed_counts(header(freq, total) + body) == freq,
        table_entry(header(freq, total) + body, 256) == total,
        (header(freq, total) + body).skip(HEADER_LEN as int) == body,
{
    let head = header(freq, total);
    let file = head + body;
    lemma_table_len(freq, 256);
    assert forall|v: int| 0 <= v < 256 implies table_entry(file, v) == freq[v] by {
        lemma_table_bytes(freq, 256, v);
        assert(file.subrange(4 * v, 4 * v + 4) =~= table_bytes(freq, 256).subrange(
            4 * v,
            4 * v + 4,
        ));
        lemma_le_round_trip(freq[v]);
    }
    assert(parsed_counts(file) =~= freq);
    assert(file.subrange(1024, 1028) =~= le_bytes(total));
    lemma_le_round_trip(total);
    assert(file.skip(HEADER_LEN as int) =~= body);
}

/// The codes of the first bytes of an input are the head of the codes of
/// the input.
proof fn lemma_coded_head(tree: Seq<node>, input: Seq<u8>, i: int)
    requires
        0 <= i <= input.len(),
    ensures
        coded(tree, input.take(i)).len() <= coded(tree, input).len(),
        coded(tree, input).take(coded(tree, input.take(i)).len() as int) == coded(
            tree,
            input.take(i),
        ),
    decreases input.len() - i,
{
    if i == input.len() {
        assert(input.take(i) =~= input);
        assert(coded(tree, input).take(coded(tree, input).len() as int) =~= coded(tree, input));
    } else {
        lemma_coded_head(tree, input, i + 1);
        let longer = input.take(i + 1);
        assert(longer.drop_last() =~= input.take(i));
        let head = coded(tree, input.take(i));
        assert(coded(tree, longer) == head + code_of(tree, input[i] as int));
        assert(coded(tree, input).take(head.len() as int) =~= coded(tree, longer).take(
            head.len() as int,
        ));
        assert(coded(tree, longer).take(head.len() as int) =~= head);
    }
}

/// The bits of the code of an inner node lead from the root to this node.
proof fn lemma_descend(
    tree: Seq<node>,
    bits: Seq<bool>,
    pos: int,
    y: int,
    count: int,
    out: Seq<u8>,
)
    requires
        rooted(tree, 256),
        256 <= y < tree.len(),
        count > 0,
        0 <= pos,
        pos + code_of(tree, y).len() <= bits.len(),
        bits.subrange(pos, pos + code_of(tree, y).len()) == code_of(tree, y),
    ensures
        walked(tree, bits, pos, tree.len() - 1, count, out) == walked(
            tree,
            bits,
            pos + code_of(tree, y).len(),
            y,
            count,
            out,
        ),
    decreases tree.len() - y,
{
    assert(node_ok(tree, 256, y));
    match tree[y].parent {
        None => {
            assert(y == tree.len() - 1);
        },
        Some(p) => {
            let up = code_of(tree, p as int);
            let step = tree[p as int].right == Some(y as usize);
            assert(code_of(tree, y) == up.push(step));
            assert(bits.subrange(pos, pos + up.len()) =~= code_of(tree, y).take(up.len() as int));
            assert(code_of(tree, y).take(up.len() as int) =~= up);
            lemma_descend(tree, bits, pos, p as int, count, out);
            let at = pos + up.len();
            assert(bits[at] == bits.subrange(pos, pos + code_of(tree, y).len())[up.len() as int]);
            assert(bits[at] == step);
            lemma_walked_step(tree, bits, at, p as int, count, out);
        },
    }
}

/// The bits of the code of a byte that occurs lead from the root to the
/// leaf of this byte, where the byte is found and the way starts again.
proof fn lemma_code_found(
    tree: Seq<node>,
    bits: Seq<bool>,
    pos: int,
    s: u8,
    count: int,
    out: Seq<u8>,
)
    requires
        rooted(tree, 256),
        tree.len() > 256,
        tree[s as int].freq != 0,
        count > 0,
        0 <= pos,
        pos + code_of(tree, s as int).len() <= bits.len(),
        bits.subrange(pos, pos + code_of(tree, s as int).len()) == code_of(tree, s as int),
    ensures
        code_of(tree, s as int).len() >= 1,
        walked(tree, bits, pos, tree.len() - 1, count, out) == walked(
            tree,
            bits,
            pos + code_of(tree, s as int).len(),
            tree.len() - 1,
            count - 1,
            out.push(s),
        ),
{
    let x = s as int;
    assert(node_ok(tree, 256, x));
    assert(tree[x].parent.is_some());
    let p = tree[x].parent.unwrap();
    let up = code_of(tree, p as int);
    let step = tree[p as int].right == Some(x as usize);
    assert(code_of(tree, x) == up.push(step));
    assert(bits.subrange(pos, pos + up.len()) =~= code_of(tree, x).take(up.len() as int));
    assert(code_of(tree, x).take(up.len() as int) =~= up);
    lemma_descend(tree, bits, pos, p as int, count, out);
    let at = pos + up.len();
    assert(bits[at] == bits.subrange(pos, pos + code_of(tree, x).len())[up.len() as int]);
    assert(bits[at] == step);
    lemma_walked_step(tree, bits, at, p as int, count, out);
}

/// The bits of the codes of an input lead through the bytes of the input.
proof fn lemma_walk_all(tree: Seq<node>, bits: Seq<bool>, input: Seq<u8>, i: int)
    requires
        rooted(tree, 256),
        input.len() > 0 ==> tree.len() > 256,
        forall|j: int| 0 <= j < input.len() ==> tree[#[trigger] input[j] as int].freq != 0,
        0 <= i <= input.len(),
        coded(tree, input).len() <= bits.len(),
        bits.take(coded(tree, input).len() as int) == coded(tree, input),
    ensures
        walked(
            tree,
            bits,
            coded(tree, input.take(i)).len() as int,
            tree.len() - 1,
            input.len() - i,
            input.take(i),
        ) == Ok::<Seq<u8>, FormatError>(input),
    decreases input.len() - i,
{
    let pos = coded(tree, input.take(i)).len() as int;
    if i == input.len() {
        assert(input.take(i) =~= input);
        lemma_walked_step(tree, bits, pos, tree.len() - 1, 0, input);
    } else {
        let s = input[i];
        let longer = input.take(i + 1);
        assert(longer.drop_last() =~= input.take(i));
        assert(longer =~= input.take(i).push(s));
        let code = code_of(tree, s as int);
        assert(coded(tree, longer) == coded(tree, input.take(i)) + code);
        lemma_coded_head(tree, input, i + 1);
        let all = coded(tree, input);
        assert(bits.subrange(pos, pos + code.len()) =~= code) by {
            assert forall|k: int| 0 <= k < code.len() implies bits[pos + k] == code[k] by {
                assert(bits.take(all.len() as int)[pos + k] == all[pos + k]);
                assert(all.take(coded(tree, longer).len() as int)[pos + k] == coded(
                    tree,
                    longer,
                )[pos + k]);
            }
        }
        lemma_code_found(tree, bits, pos, s, input.len() - i, input.take(i));
        lemma_walk_all(tree, bits, input, i + 1);
    }
}

/// Decoding gives back what was encoded: the file that stands for an input
/// of no more bytes than a count can say stands, for the decoder, for this
/// input.  So it is for the empty input, whose file is the head alone, and
/// for an input of one byte value, whose codes are single bits.
pub proof fn lemma_round_trip(input: Seq<u8>)
    requires
        input.len() <= u32::MAX,
    ensures
        decoded(encoded(input)) == Ok::<Seq<u8>, FormatError>(input),
{
    let freq = counts(input);
    let total = input.len() as u32;
    let tree = huffman_tree(freq);
    let body = pack(coded(tree, input));
    lemma_header_parses(freq, total, body);
    lemma_counts_sum(input, 256);
    assert(freq.take(256) =~= freq);
    lemma_occurrences_all(input);
    lemma_huffman_tree(freq);
    let bits = bits_of(body);
    lemma_bits_of_pack(coded(tree, input));
    assert(bits.take(coded(tree, input).len() as int) =~= coded(tree, input));
    assert forall|j: int| 0 <= j < input.len() implies tree[#[trigger] input[j] as int].freq
        != 0 by {
        let v = input[j] as int;
        lemma_occurrences_take(input, j, v, v + 1);
        lemma_occurrences_bounds(input.take(j), v, v + 1);
        lemma_occurrences_bounds(input, v, v + 1);
        assert(freq[v] == count_of(input, v));
    }
    assert(input.take(0) =~= Seq::<u8>::empty());
    lemma_walk_all(tree, bits, input, 0);
}

} // verus!
