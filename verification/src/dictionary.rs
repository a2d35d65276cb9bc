//! Why the LZW decoder finds the bytes that were encoded: the decoder's
//! table follows the encoder's dictionary, one entry behind.

use vstd::prelude::*;

use crate::bits::{
    bit, bit_or_zero, bits_of, byte_or_zero, le_bytes, le_word, lemma_bits_of_pack,
    lemma_byte_ext, lemma_le_round_trip, pack,
};
use crate::error::FormatError;
use crate::lzw::{
    code_at, code_bits, decoded, decoder_next, decoder_run, decoder_start, dict_key,
    encoded_bits, encoder_finish, encoder_run, encoder_start, encoder_step,
    initial_dict, initial_table, lemma_decoder_run_step, lemma_word_of_prefix, read_width,
    width_for, word_for, word_of, DecoderState, EncoderState, CLEAR_CODE, END_CODE, MAX_SIZE,
    MAX_WIDTH, MIN_WIDTH,
};

verus! {

/// A code below two to the power `w` has no bit at `w` or above: the bits of
/// its four bytes there are zero.
proof fn lemma_high_bits_zero(c: u32, w: u32, t: u8)
    by (bit_vector)
    requires
        9 <= w <= 22,
        c < (1u32 << w),
        t < 8,
    ensures
        t >= w ==> (((c & 0xff) as u8) >> t) & 1u8 == 0,
        8 + t >= w ==> ((((c >> 8) & 0xff) as u8) >> t) & 1u8 == 0,
        16 + t >= w ==> ((((c >> 16) & 0xff) as u8) >> t) & 1u8 == 0,
        ((((c >> 24) & 0xff) as u8) >> t) & 1u8 == 0,
        (0u8 >> t) & 1u8 == 0,
{
}

/// The codewords for a dictionary of `size` entries are wide enough for every
/// code below `size`.
proof fn lemma_width_limit(size: int)
    requires
        258 <= size <= MAX_SIZE,
    ensures
        9 <= width_for(size) <= 22,
        size < MAX_SIZE ==> size < (1u32 << (width_for(size) as u32)),
        size <= (1u32 << (width_for(size) as u32)),
{
    let w = width_for(size) as u32;
    assert(1u32 << w == (if w == 9 {
        512u32
    } else if w == 10 {
        1024u32
    } else if w == 11 {
        2048u32
    } else if w == 12 {
        4096u32
    } else if w == 13 {
        8192u32
    } else if w == 14 {
        16384u32
    } else if w == 15 {
        32768u32
    } else if w == 16 {
        65536u32
    } else if w == 17 {
        131072u32
    } else if w == 18 {
        262144u32
    } else if w == 19 {
        524288u32
    } else if w == 20 {
        1048576u32
    } else if w == 21 {
        2097152u32
    } else {
        4194304u32
    })) by (bit_vector)
        requires
            9 <= w <= 22,
    ;
}

/// A code that fits in a codeword is read as it was written.
pub proof fn lemma_code_read(bits: Seq<bool>, pos: int, width: int, code: u32)
    requires
        9 <= width <= 22,
        0 <= pos,
        pos + width <= bits.len(),
        bits.subrange(pos, pos + width) == code_bits(code, width),
        code < (1u32 << (width as u32)),
    ensures
        code_at(bits, pos, width) == code,
{
    reveal(code_at);
    let whole = le_bytes(code);
    let cut = bits_of(whole).take(width);
    let packed = pack(cut);
    lemma_bits_of_pack(cut);
    assert forall|j: int| 0 <= j < 4 implies byte_or_zero(packed, j) == whole[j] by {
        let x = byte_or_zero(packed, j);
        assert forall|t: u8| t < 8 implies bit(x, t) == bit(whole[j], t) by {
            lemma_high_bits_zero(code, width as u32, t);
            let i = 8 * j + t;
            assert(i / 8 == j && i % 8 == t as int);
            if j < packed.len() {
                assert(bits_of(packed)[i] == bit_or_zero(cut, i));
                if i < width {
                    assert(cut[i] == bits_of(whole)[i]);
                }
            }
        }
        lemma_byte_ext(x, whole[j]);
    }
    lemma_le_round_trip(code);
    assert(le_word(packed) == le_word(whole));
}

/// `code` stands for a word while the codes below `size` are in use: it is
/// a byte, or a code learnt, and not one of the two reserved codes.
pub open spec fn is_word_code(code: int, size: int) -> bool {
    0 <= code < 256 || 258 <= code < size
}

/// The key under which the encoder holds the word of an entry of the table.
pub open spec fn entry_key(entry: (u8, Option<usize>)) -> u64 {
    match entry.1 {
        Some(p) => dict_key(Some(p as u32), entry.0),
        None => dict_key(None, entry.0),
    }
}

/// The table starts with the one-byte words and the two reserved places,
/// and every entry behind them continues the word of an earlier code, not
/// of a reserved one.
pub open spec fn table_ok(table: Seq<(u8, Option<usize>)>) -> bool {
    &&& 258 <= table.len() <= MAX_SIZE
    &&& table.take(258) == initial_table()
    &&& forall|k: int|
        258 <= k < table.len() ==> match (#[trigger] table[k]).1 {
            Some(p) => p < k && p != 256 && p != 257,
            None => false,
        }
}

/// The dictionary holds the words of the table and no others: each byte
/// under itself, and each entry learnt under its key with its code.
pub open spec fn dict_follows(dict: Map<u64, u32>, table: Seq<(u8, Option<usize>)>) -> bool {
    &&& forall|c: u64| c < 256 ==> #[trigger] dict.contains_key(c) && dict[c] == c
    &&& forall|k: int|
        258 <= k < table.len() ==> dict.contains_key(entry_key(#[trigger] table[k]))
            && dict[entry_key(table[k])] == k
    &&& forall|key: u64|
        #[trigger] dict.contains_key(key) ==> key < 256 || exists|k: int|
            258 <= k < table.len() && entry_key(#[trigger] table[k]) == key
}

/// The table as the encoder's dictionary has it: the decoder's table and,
/// once a code was read, the entry that the encoder made when it wrote this
/// code, which the decoder can make only with the next code.
pub open spec fn ahead(d: DecoderState, word: Seq<u8>) -> Seq<(u8, Option<usize>)> {
    match d.prev {
        None => d.table,
        Some(p) => d.table.push((word[0], Some(p))),
    }
}

/// The decoder, having read all that the encoder wrote, follows the
/// encoder; `word` is the word that the encoder has read and not yet
/// written.
pub open spec fn follows(e: EncoderState, d: DecoderState, word: Seq<u8>) -> bool {
    match e.cur {
        None => e == encoder_start() && d == decoder_start() && word.len() == 0,
        Some(i) => {
            &&& word.len() >= 1
            &&& table_ok(d.table)
            &&& table_ok(ahead(d, word))
            &&& e.size == ahead(d, word).len()
            &&& e.size < MAX_SIZE
            &&& (d.prev.is_none() <==> e.size == 258)
            &&& match d.prev {
                Some(p) => is_word_code(p as int, d.table.len() as int),
                None => true,
            }
            &&& dict_follows(e.dict, ahead(d, word))
            &&& is_word_code(i as int, e.size)
            &&& word == word_of(ahead(d, word), i as int)
        },
    }
}

/// Different words have different keys, and the key of a one-byte word is
/// the byte.
proof fn lemma_key_injective(pa: u32, ca: u8, pb: u32, cb: u8)
    ensures
        dict_key(Some(pa), ca) >= 256,
        dict_key(None, ca) == ca,
        dict_key(Some(pa), ca) == dict_key(Some(pb), cb) ==> pa == pb && ca == cb,
{
}

/// In a table that starts as it should, the word of a byte is the byte.
proof fn lemma_word_of_byte(table: Seq<(u8, Option<usize>)>, c: int)
    requires
        table_ok(table),
        0 <= c < 256,
    ensures
        word_of(table, c) == seq![c as u8],
{
    assert(table[c] == table.take(258)[c]);
}

/// The word of a code has at least one byte, and the word of a code learnt
/// starts as the word that it continues.
proof fn lemma_word_first(table: Seq<(u8, Option<usize>)>, code: int)
    requires
        table_ok(table),
        0 <= code < table.len(),
    ensures
        word_of(table, code).len() >= 1,
        code >= 258 ==> word_of(table, code) == word_of(
            table,
            table[code].1.unwrap() as int,
        ).push(table[code].0) && word_of(table, code)[0] == word_of(
            table,
            table[code].1.unwrap() as int,
        )[0],
    decreases code,
{
    if code >= 258 {
        let p = table[code].1.unwrap() as int;
        lemma_word_first(table, p);
    } else {
        assert(table[code] == table.take(258)[code]);
    }
}

/// The decoder reads the code that the encoder wrote for its word, finds
/// the word, and has then the table that the encoder had.
proof fn lemma_decoder_reads(
    e: EncoderState,
    d: DecoderState,
    word: Seq<u8>,
    out: Seq<u8>,
    full: Seq<bool>,
    pos: int,
) -> (next: DecoderState)
    requires
        follows(e, d, word),
        e.cur.is_some(),
        0 <= pos,
        pos + width_for(e.size) <= full.len(),
        full.subrange(pos, pos + width_for(e.size)) == code_bits(
            e.cur.unwrap(),
            width_for(e.size),
        ),
    ensures
        decoder_run(d, full, pos, out) == decoder_run(
            next,
            full,
            pos + width_for(e.size),
            out + word,
        ),
        next.prev == Some(e.cur.unwrap() as usize),
        next.table == ahead(d, word),
{
    let i = e.cur.unwrap();
    let w = width_for(e.size);
    let t = ahead(d, word);
    lemma_width_limit(e.size);
    assert(read_width(d) == w);
    lemma_code_read(full, pos, w, i);
    lemma_decoder_run_step(d, full, pos, out);
    assert(i != END_CODE && i != CLEAR_CODE);
    match d.prev {
        None => {
            lemma_word_of_byte(t, i as int);
            let next = decoder_next(d, i as int, word);
            assert(word_for(d, i as int) == Some(word));
            next
        },
        Some(p) => {
            assert(d.table.len() + 1 == e.size);
            assert(t.take(d.table.len() as int) =~= d.table);
            lemma_word_first(t, i as int);
            if i < d.table.len() {
                lemma_word_of_prefix(d.table, t, i as int);
                assert(word_for(d, i as int) == Some(word));
            } else {
                lemma_word_of_prefix(d.table, t, p as int);
                lemma_word_first(t, p as int);
                let shorter = word_of(d.table, p as int);
                assert(word == shorter.push(word[0]));
                assert(word[0] == shorter[0]);
                assert(word_for(d, i as int) == Some(word));
            }
            let next = decoder_next(d, i as int, word);
            assert(next.table =~= t);
            next
        },
    }
}

/// At the start, and after `CLEAR_CODE`, the decoder follows an encoder
/// that has read the one byte `c`.
proof fn lemma_follows_fresh(c: u8)
    ensures
        follows(
            EncoderState { dict: initial_dict(), size: 258, cur: Some(c as u32) },
            decoder_start(),
            seq![c],
        ),
{
    let table = initial_table();
    assert(table.take(258) =~= table);
    lemma_word_of_byte(table, c as int);
}

/// The decoder reads `CLEAR_CODE` where the encoder wrote it, and starts
/// over.
proof fn lemma_decoder_clears(d: DecoderState, out: Seq<u8>, full: Seq<bool>, pos: int)
    requires
        d.prev.is_some(),
        d.table.len() + 1 == MAX_SIZE,
        0 <= pos,
        pos + MAX_WIDTH <= full.len(),
        full.subrange(pos, pos + MAX_WIDTH) == code_bits(CLEAR_CODE, MAX_WIDTH as int),
    ensures
        decoder_run(d, full, pos, out) == decoder_run(
            decoder_start(),
            full,
            pos + MAX_WIDTH,
            out,
        ),
{
    lemma_width_limit(MAX_SIZE as int);
    lemma_code_read(full, pos, MAX_WIDTH as int, CLEAR_CODE);
    lemma_decoder_run_step(d, full, pos, out);
}

/// The decoder reads `END_CODE` where the encoder wrote it, and is done
/// with what it has found.
proof fn lemma_decoder_ends(d: DecoderState, out: Seq<u8>, full: Seq<bool>, pos: int)
    requires
        258 <= d.table.len() < MAX_SIZE,
        0 <= pos,
        pos + read_width(d) <= full.len(),
        full.subrange(pos, pos + read_width(d)) == code_bits(END_CODE, read_width(d)),
    ensures
        decoder_run(d, full, pos, out) == Ok::<Seq<u8>, FormatError>(out),
{
    lemma_width_limit(d.table.len() as int + 1);
    lemma_width_limit(258);
    lemma_code_read(full, pos, read_width(d), END_CODE);
    lemma_decoder_run_step(d, full, pos, out);
}

/// When the word read so far, followed by `c`, is in the dictionary, the
/// decoder still follows: nothing was written, and the match has grown.
proof fn lemma_step_grows(e: EncoderState, d: DecoderState, word: Seq<u8>, c: u8)
    requires
        follows(e, d, word),
        e.dict.contains_key(dict_key(e.cur, c)),
    ensures
        follows(encoder_step(e, c).0, d, word.push(c)),
        encoder_step(e, c).1 == Seq::<bool>::empty(),
{
    let key = dict_key(e.cur, c);
    match e.cur {
        None => {
            assert(word.push(c) =~= seq![c]);
            assert(e.dict[key] == c);
            lemma_follows_fresh(c);
        },
        Some(i) => {
            let t = ahead(d, word);
            lemma_key_injective(i, c, 0, 0);
            let k = choose|k: int| 258 <= k < t.len() && entry_key(#[trigger] t[k]) == key;
            let p = t[k].1.unwrap();
            lemma_key_injective(p as u32, t[k].0, i, c);
            assert(e.dict[key] == k);
            lemma_word_first(t, k);
            assert(word_of(t, k) == word.push(c));
            assert(ahead(d, word.push(c)) =~= t);
        },
    }
}

/// A dictionary that holds the words of a table holds those of the table
/// with one more entry, once it has learnt the word of this entry under the
/// next code.
proof fn lemma_dict_learns(dict: Map<u64, u32>, table: Seq<(u8, Option<usize>)>, i: u32, c: u8)
    requires
        dict_follows(dict, table),
        258 <= table.len() < MAX_SIZE,
        i < table.len(),
        !dict.contains_key(dict_key(Some(i), c)),
    ensures
        dict_follows(
            dict.insert(dict_key(Some(i), c), table.len() as u32),
            table.push((c, Some(i as usize))),
        ),
{
    let key = dict_key(Some(i), c);
    let learnt = dict.insert(key, table.len() as u32);
    let longer = table.push((c, Some(i as usize)));
    lemma_key_injective(i, c, 0, 0);
    assert(entry_key(longer[table.len() as int]) == key);
    assert forall|b: u64| b < 256 implies #[trigger] learnt.contains_key(b) && learnt[b] == b by {
        assert(dict.contains_key(b));
    }
    assert forall|k: int| 258 <= k < longer.len() implies learnt.contains_key(
        entry_key(#[trigger] longer[k]),
    ) && learnt[entry_key(longer[k])] == k by {
        if k < table.len() {
            assert(longer[k] == table[k]);
            assert(dict.contains_key(entry_key(table[k])));
            assert(entry_key(table[k]) != key);
        }
    }
    assert forall|k2: u64| #[trigger] learnt.contains_key(k2) implies k2 < 256 || exists|k: int|
        258 <= k < longer.len() && entry_key(#[trigger] longer[k]) == k2 by {
        if k2 == key {
            assert(entry_key(longer[table.len() as int]) == k2);
        } else if k2 >= 256 {
            assert(dict.contains_key(k2));
            let k = choose|k: int| 258 <= k < table.len() && entry_key(#[trigger] table[k]) == k2;
            assert(longer[k] == table[k]);
            assert(entry_key(longer[k]) == k2);
        }
    }
}

/// When the encoder has written the code of its word and learnt the word
/// followed by `c`, the decoder that has read the code follows it.
proof fn lemma_follows_learnt(
    e: EncoderState,
    d: DecoderState,
    word: Seq<u8>,
    c: u8,
    read: DecoderState,
)
    requires
        follows(e, d, word),
        e.cur.is_some(),
        !e.dict.contains_key(dict_key(e.cur, c)),
        e.size + 1 != MAX_SIZE,
        read.prev == Some(e.cur.unwrap() as usize),
        read.table == ahead(d, word),
    ensures
        follows(encoder_step(e, c).0, read, seq![c]),
{
    let key = dict_key(e.cur, c);
    let i = e.cur.unwrap();
    let t = ahead(d, word);
    let e2 = encoder_step(e, c).0;
    let t2 = ahead(read, seq![c]);
    assert(t2 == t.push((c, Some(i as usize))));
    assert(t2.take(258) =~= t.take(258));
    lemma_key_injective(i, c, 0, 0);
    assert(e2.dict == e.dict.insert(key, e.size as u32));
    lemma_dict_learns(e.dict, t, i, c);
    assert(dict_follows(e2.dict, t2));
    lemma_word_of_byte(t2, c as int);
    assert(table_ok(t2));
    assert(e2.cur == Some(c as u32));
    assert(seq![c] == word_of(t2, c as int));
    assert(is_word_code(i as int, read.table.len() as int));
}

/// When the word read so far, followed by `c`, is not in the dictionary,
/// the decoder reads what the encoder writes and follows it again.
proof fn lemma_step_writes(
    e: EncoderState,
    d: DecoderState,
    word: Seq<u8>,
    out: Seq<u8>,
    c: u8,
    full: Seq<bool>,
    pos: int,
) -> (next: DecoderState)
    requires
        follows(e, d, word),
        !e.dict.contains_key(dict_key(e.cur, c)),
        0 <= pos,
        pos + encoder_step(e, c).1.len() <= full.len(),
        full.subrange(pos, pos + encoder_step(e, c).1.len()) == encoder_step(e, c).1,
    ensures
        follows(encoder_step(e, c).0, next, seq![c]),
        decoder_run(d, full, pos, out) == decoder_run(
            next,
            full,
            pos + encoder_step(e, c).1.len(),
            out + word,
        ),
{
    lemma_key_injective(0, c, 0, 0);
    assert(e.cur.is_some()) by {
        if e.cur.is_none() {
            assert(initial_dict().contains_key(c as u64));
        }
    }
    let i = e.cur.unwrap();
    let w = width_for(e.size);
    let more = encoder_step(e, c).1;
    lemma_width_limit(e.size);
    assert(more.len() >= w);
    assert(full.subrange(pos, pos + w) =~= code_bits(i, w)) by {
        assert forall|j: int| 0 <= j < w implies full[pos + j] == code_bits(i, w)[j] by {
            assert(full.subrange(pos, pos + more.len())[j] == more[j]);
        }
    }
    let read = lemma_decoder_reads(e, d, word, out, full, pos);
    if e.size + 1 == MAX_SIZE {
        assert(more.len() == w + MAX_WIDTH);
        assert(full.subrange(pos + w, pos + w + MAX_WIDTH) =~= code_bits(
            CLEAR_CODE,
            MAX_WIDTH as int,
        )) by {
            assert forall|j: int| 0 <= j < MAX_WIDTH implies full[pos + w + j] == code_bits(
                CLEAR_CODE,
                MAX_WIDTH as int,
            )[j] by {
                assert(full.subrange(pos, pos + more.len())[w + j] == more[w + j]);
            }
        }
        lemma_decoder_clears(read, out + word, full, pos + w);
        lemma_follows_fresh(c);
        decoder_start()
    } else {
        assert(more.len() == w);
        lemma_follows_learnt(e, d, word, c, read);
        read
    }
}

/// The decoder follows the encoder through the whole input: on any bits
/// that start with those written for `input`, it comes, having read them,
/// to a state that follows the encoder's, and has found all of `input` but
/// the word that the encoder has not yet written.
proof fn lemma_follow(input: Seq<u8>, full: Seq<bool>) -> (r: (DecoderState, Seq<u8>, Seq<u8>))
    requires
        encoder_run(input).1.len() <= full.len(),
        full.take(encoder_run(input).1.len() as int) == encoder_run(input).1,
    ensures
        follows(encoder_run(input).0, r.0, r.2),
        input == r.1 + r.2,
        decoder_run(decoder_start(), full, 0, Seq::empty()) == decoder_run(
            r.0,
            full,
            encoder_run(input).1.len() as int,
            r.1,
        ),
    decreases input.len(),
{
    if input.len() == 0 {
        assert(input =~= Seq::<u8>::empty() + Seq::<u8>::empty());
        (decoder_start(), Seq::empty(), Seq::empty())
    } else {
        let shorter = input.drop_last();
        let c = input.last();
        let (e, bits) = encoder_run(shorter);
        let (e2, more) = encoder_step(e, c);
        assert(encoder_run(input) == (e2, bits + more));
        assert(full.take(bits.len() as int) =~= bits) by {
            assert forall|j: int| 0 <= j < bits.len() implies full[j] == bits[j] by {
                assert(full.take((bits + more).len() as int)[j] == (bits + more)[j]);
            }
        }
        let (d, out, word) = lemma_follow(shorter, full);
        let pos = bits.len() as int;
        assert(input =~= shorter.push(c));
        if e.dict.contains_key(dict_key(e.cur, c)) {
            lemma_step_grows(e, d, word, c);
            assert(input =~= out + word.push(c));
            assert(bits + more =~= bits);
            (d, out, word.push(c))
        } else {
            assert(full.subrange(pos, pos + more.len()) =~= more) by {
                assert forall|j: int| 0 <= j < more.len() implies full[pos + j] == more[j] by {
                    assert(full.take((bits + more).len() as int)[pos + j] == (bits + more)[pos
                        + j]);
                }
            }
            let next = lemma_step_writes(e, d, word, out, c, full, pos);
            assert(input =~= (out + word) + seq![c]);
            (next, out + word, seq![c])
        }
    }
}

/// The decoder reads what the encoder writes at the end of the input, and
/// is done with the whole input.
proof fn lemma_finish(
    e: EncoderState,
    d: DecoderState,
    word: Seq<u8>,
    out: Seq<u8>,
    full: Seq<bool>,
    pos: int,
)
    requires
        follows(e, d, word),
        0 <= pos,
        pos + encoder_finish(e).len() <= full.len(),
        full.subrange(pos, pos + encoder_finish(e).len()) == encoder_finish(e),
    ensures
        decoder_run(d, full, pos, out) == Ok::<Seq<u8>, FormatError>(out + word),
{
    let finish = encoder_finish(e);
    lemma_width_limit(258);
    match e.cur {
        None => {
            assert(out + word =~= out);
            lemma_decoder_ends(d, out, full, pos);
        },
        Some(i) => {
            let w = width_for(e.size);
            lemma_width_limit(e.size);
            lemma_width_limit(e.size + 1);
            assert(full.subrange(pos, pos + w) =~= code_bits(i, w)) by {
                assert forall|j: int| 0 <= j < w implies full[pos + j] == code_bits(i, w)[j] by {
                    assert(full.subrange(pos, pos + finish.len())[j] == finish[j]);
                }
            }
            let read = lemma_decoder_reads(e, d, word, out, full, pos);
            if e.size + 1 == MAX_SIZE {
                assert(full.subrange(pos + w, pos + w + MAX_WIDTH) =~= code_bits(
                    CLEAR_CODE,
                    MAX_WIDTH as int,
                )) by {
                    assert forall|j: int| 0 <= j < MAX_WIDTH implies full[pos + w + j]
                        == code_bits(CLEAR_CODE, MAX_WIDTH as int)[j] by {
                        assert(full.subrange(pos, pos + finish.len())[w + j] == finish[w + j]);
                    }
                }
                lemma_decoder_clears(read, out + word, full, pos + w);
                let at = pos + w + MAX_WIDTH;
                assert(full.subrange(at, at + MIN_WIDTH) =~= code_bits(
                    END_CODE,
                    MIN_WIDTH as int,
                )) by {
                    assert forall|j: int| 0 <= j < MIN_WIDTH implies full[at + j] == code_bits(
                        END_CODE,
                        MIN_WIDTH as int,
                    )[j] by {
                        assert(full.subrange(pos, pos + finish.len())[w + MAX_WIDTH + j]
                            == finish[w + MAX_WIDTH + j]);
                    }
                }
                lemma_decoder_ends(decoder_start(), out + word, full, at);
            } else {
                let w2 = width_for(e.size + 1);
                assert(read_width(read) == w2);
                assert(full.subrange(pos + w, pos + w + w2) =~= code_bits(END_CODE, w2)) by {
                    assert forall|j: int| 0 <= j < w2 implies full[pos + w + j] == code_bits(
                        END_CODE,
                        w2,
                    )[j] by {
                        assert(full.subrange(pos, pos + finish.len())[w + j] == finish[w + j]);
                    }
                }
                lemma_decoder_ends(read, out + word, full, pos + w);
            }
        },
    }
}

/// Decoding gives back what was encoded: the decoder finds, in the file
/// that holds the bits written for an input, this input.  So it is for the
/// empty input, for inputs long enough for the codewords to grow wider, and
/// for those that fill the dictionary, after which both sides start over.
pub proof fn lemma_round_trip(input: Seq<u8>)
    ensures
        decoded(pack(encoded_bits(input))) == Ok::<Seq<u8>, FormatError>(input),
{
    let all = encoded_bits(input);
    let full = bits_of(pack(all));
    let (e, bits) = encoder_run(input);
    let finish = encoder_finish(e);
    lemma_bits_of_pack(all);
    assert(full.take(all.len() as int) =~= all);
    assert(full.take(bits.len() as int) =~= bits) by {
        assert forall|j: int| 0 <= j < bits.len() implies full[j] == bits[j] by {
            assert(full.take(all.len() as int)[j] == all[j]);
        }
    }
    let (d, out, word) = lemma_follow(input, full);
    let pos = bits.len() as int;
    assert(full.subrange(pos, pos + finish.len()) =~= finish) by {
        assert forall|j: int| 0 <= j < finish.len() implies full[pos + j] == finish[j] by {
            assert(full.take(all.len() as int)[pos + j] == all[pos + j]);
        }
    }
    lemma_finish(e, d, word, out, full, pos);
}

} // verus!
