//! LZW coding with codewords of growing width.
//!
//! The dictionary starts with the 256 one-byte words and two reserved codes,
//! `CLEAR_CODE` and `END_CODE`, so that the first free code is 258.  A code
//! is written with as many bits as the size of the dictionary asks for, from
//! 9 up to 22.  When the dictionary is full the encoder writes `CLEAR_CODE`
//! and both sides start over.  The file is the bare bit stream.

use vstd::prelude::*;

use crate::bits::{bits_of, from_le_bytes, le_bytes, le_word, pack, to_le_bytes};
use crate::error::FormatError;
use crate::{BitStream, Mode};
use std::collections::HashMap;

verus! {

broadcast use vstd::std_specs::hash::group_hash_axioms;

/// The code that tells the decoder to forget its dictionary.
pub const CLEAR_CODE: u32 = 256;

/// The code that ends the stream.
pub const END_CODE: u32 = 257;

/// The first code that stands for a word of more than one byte.
pub const FIRST_CODE: u32 = 258;

/// The width of a codeword while the dictionary is small.
pub const MIN_WIDTH: usize = 9;

/// The largest width of a codeword.
pub const MAX_WIDTH: usize = 22;

/// The size at which the dictionary is full: two to the power `MAX_WIDTH`.
pub const MAX_SIZE: u32 = 4194304;

/// The width of the codewords written while the dictionary has `size`
/// entries: the least width from 9 to 22 whose codes reach up to `size`.
pub open spec fn width_for(size: int) -> int {
    if size < 512 {
        9
    } else if size < 1024 {
        10
    } else if size < 2048 {
        11
    } else if size < 4096 {
        12
    } else if size < 8192 {
        13
    } else if size < 16384 {
        14
    } else if size < 32768 {
        15
    } else if size < 65536 {
        16
    } else if size < 131072 {
        17
    } else if size < 262144 {
        18
    } else if size < 524288 {
        19
    } else if size < 1048576 {
        20
    } else if size < 2097152 {
        21
    } else {
        22
    }
}

/// The bits that stand for `code` in a codeword of `width` bits.
pub open spec fn code_bits(code: u32, width: int) -> Seq<bool> {
    bits_of(le_bytes(code)).take(width)
}

/// The code that the `width` bits from position `pos` of `bits` stand for.
#[verifier::opaque]
pub open spec fn code_at(bits: Seq<bool>, pos: int, width: int) -> u32 {
    le_word(pack(bits.subrange(pos, pos + width)))
}

/// The key under which the encoder's dictionary holds the word that is the
/// word of code `prev`, or the empty word, followed by the byte `c`.
pub open spec fn dict_key(prev: Option<u32>, c: u8) -> u64 {
    match prev {
        None => c as u64,
        Some(p) => ((p as u64 + 1) * 256 + c as u64) as u64,
    }
}

/// The encoder's dictionary before any word was learnt: each one-byte word
/// under its own byte as code.
pub open spec fn initial_dict() -> Map<u64, u32> {
    Map::new(|k: u64| k < 256, |k: u64| k as u32)
}

/// What the encoder knows between two bytes of input.
pub struct EncoderState {
    /// The words learnt, each under the key of its last byte and of the code
    /// of the rest.
    pub dict: Map<u64, u32>,
    /// The number of codes in use, the two reserved ones included.
    pub size: int,
    /// The code of the longest word that matches the input read and not yet
    /// written; `None` before the first byte.
    pub cur: Option<u32>,
}

/// The encoder's state before the first byte.
pub open spec fn encoder_start() -> EncoderState {
    EncoderState { dict: initial_dict(), size: 258, cur: None }
}

/// The bits that the encoder writes when the word of code `code` ends, while
/// its dictionary has `size` entries: the code itself and, if the entry that
/// follows fills the dictionary, `CLEAR_CODE`.
pub open spec fn emitted(code: u32, size: int) -> Seq<bool> {
    if size + 1 == MAX_SIZE {
        code_bits(code, width_for(size)) + code_bits(CLEAR_CODE, MAX_WIDTH as int)
    } else {
        code_bits(code, width_for(size))
    }
}

/// The state and the bits written after one more byte `c` of input.  If the
/// word read so far, followed by `c`, is in the dictionary, the match grows
/// and nothing is written.  Otherwise the code of the word is written, the
/// longer word enters the dictionary under the next free code, and the
/// match starts over with `c` alone.  If that entry fills the dictionary,
/// `CLEAR_CODE` follows and the dictionary is the initial one again.
pub open spec fn encoder_step(st: EncoderState, c: u8) -> (EncoderState, Seq<bool>) {
    let key = dict_key(st.cur, c);
    if st.dict.contains_key(key) {
        (EncoderState { dict: st.dict, size: st.size, cur: Some(st.dict[key]) }, Seq::empty())
    } else {
        let code = st.cur.unwrap();
        if st.size + 1 == MAX_SIZE {
            (
                EncoderState { dict: initial_dict(), size: 258, cur: Some(c as u32) },
                emitted(code, st.size),
            )
        } else {
            (
                EncoderState {
                    dict: st.dict.insert(key, st.size as u32),
                    size: st.size + 1,
                    cur: Some(c as u32),
                },
                emitted(code, st.size),
            )
        }
    }
}

/// The state of the encoder after the bytes of `input`, and the bits
/// written until then.
pub open spec fn encoder_run(input: Seq<u8>) -> (EncoderState, Seq<bool>)
    decreases input.len(),
{
    if input.len() == 0 {
        (encoder_start(), Seq::empty())
    } else {
        let (st, bits) = encoder_run(input.drop_last());
        let (next, more) = encoder_step(st, input.last());
        (next, bits + more)
    }
}

/// The bits with which the encoder ends the stream: the code of the word
/// still unwritten, if there is one, counted as one more entry of the
/// dictionary, and then `END_CODE`.
pub open spec fn encoder_finish(st: EncoderState) -> Seq<bool> {
    match st.cur {
        None => code_bits(END_CODE, width_for(st.size)),
        Some(code) => if st.size + 1 == MAX_SIZE {
            emitted(code, st.size) + code_bits(END_CODE, MIN_WIDTH as int)
        } else {
            emitted(code, st.size) + code_bits(END_CODE, width_for(st.size + 1))
        },
    }
}

/// All the bits that stand for `input`.
pub open spec fn encoded_bits(input: Seq<u8>) -> Seq<bool> {
    encoder_run(input).1 + encoder_finish(encoder_run(input).0)
}

/// The decoder's table before any word was learnt: the 256 one-byte words
/// and an empty place for each reserved code.
pub open spec fn initial_table() -> Seq<(u8, Option<usize>)> {
    Seq::new(258, |i: int| (if i < 256 { i as u8 } else { 0u8 }, None::<usize>))
}

/// Every entry of the table that continues a word continues an earlier one.
pub open spec fn chained(table: Seq<(u8, Option<usize>)>) -> bool {
    forall|k: int|
        0 <= k < table.len() ==> match (#[trigger] table[k]).1 {
            Some(p) => p < k,
            None => true,
        }
}

/// The word of code `code`: the word of the entry that it continues, if any,
/// followed by its own byte.
pub open spec fn word_of(table: Seq<(u8, Option<usize>)>, code: int) -> Seq<u8>
    decreases code,
{
    if 0 <= code < table.len() {
        match table[code].1 {
            Some(p) => if p < code {
                word_of(table, p as int).push(table[code].0)
            } else {
                seq![table[code].0]
            },
            None => seq![table[code].0],
        }
    } else {
        Seq::empty()
    }
}

/// The word of an entry that may not be in the table yet.
pub open spec fn entry_word(table: Seq<(u8, Option<usize>)>, entry: (u8, Option<usize>)) -> Seq<
    u8,
> {
    match entry.1 {
        Some(p) => word_of(table, p as int).push(entry.0),
        None => seq![entry.0],
    }
}

/// What the decoder knows between two codewords.
pub struct DecoderState {
    /// The words learnt, by code: the last byte of each, and the code of
    /// the rest.
    pub table: Seq<(u8, Option<usize>)>,
    /// The code read last; `None` at the start and after `CLEAR_CODE`.
    pub prev: Option<usize>,
}

/// The decoder's state before the first codeword.
pub open spec fn decoder_start() -> DecoderState {
    DecoderState { table: initial_table(), prev: None }
}

/// The width of the codeword that the decoder reads next.  The encoder is
/// one entry ahead as soon as it has written a code.
pub open spec fn read_width(st: DecoderState) -> int {
    match st.prev {
        None => MIN_WIDTH as int,
        Some(_) => width_for(st.table.len() as int + 1),
    }
}

/// The word that `code` stands for in the state `st`, or `None` if the
/// encoder cannot have written `code` there.  After `CLEAR_CODE` or at the
/// start only a one-byte word can come.  Later a code of the table stands
/// for its word, and the code that would be learnt next stands for the word
/// read last followed by its own first byte; but once the encoder's
/// dictionary is full, nothing can come.
pub open spec fn word_for(st: DecoderState, code: int) -> Option<Seq<u8>> {
    match st.prev {
        None => if 0 <= code < 256 {
            Some(seq![code as u8])
        } else {
            None
        },
        Some(p) => if st.table.len() + 1 >= MAX_SIZE || code == CLEAR_CODE || code == END_CODE {
            None
        } else if 0 <= code < st.table.len() {
            Some(word_of(st.table, code))
        } else if code == st.table.len() {
            Some(word_of(st.table, p as int).push(word_of(st.table, p as int)[0]))
        } else {
            None
        },
    }
}

/// The state after `code`, which stands for `word`, was read in `st`.
pub open spec fn decoder_next(st: DecoderState, code: int, word: Seq<u8>) -> DecoderState {
    match st.prev {
        None => DecoderState { table: st.table, prev: Some(code as usize) },
        Some(p) => DecoderState {
            table: st.table.push((word[0], Some(p))),
            prev: Some(code as usize),
        },
    }
}

/// The result of decoding `bits` from position `pos` on, in the state `st`
/// and with `out` already decoded.  `END_CODE` ends the decoding and
/// whatever follows it is ignored.
#[verifier::opaque]
pub open spec fn decoder_run(st: DecoderState, bits: Seq<bool>, pos: int, out: Seq<u8>) -> Result<
    Seq<u8>,
    FormatError,
>
    decreases bits.len() - pos,
{
    let width = read_width(st);
    if pos < 0 || pos + width > bits.len() {
        Err(FormatError::TruncatedStream)
    } else {
        let code = code_at(bits, pos, width);
        if code == END_CODE {
            Ok(out)
        } else if code == CLEAR_CODE {
            decoder_run(decoder_start(), bits, pos + width, out)
        } else {
            match word_for(st, code as int) {
                None => Err(FormatError::CodeOutOfRange),
                Some(word) => decoder_run(
                    decoder_next(st, code as int, word),
                    bits,
                    pos + width,
                    out + word,
                ),
            }
        }
    }
}

/// The bytes that the file `input` stands for, or the reason why it stands
/// for none.
pub open spec fn decoded(input: Seq<u8>) -> Result<Seq<u8>, FormatError> {
    decoder_run(decoder_start(), bits_of(input), 0, Seq::empty())
}

/// Two to the power of each width of a codeword.
proof fn lemma_shl_width(w: u32)
    by (bit_vector)
    requires
        9 <= w <= 22,
    ensures
        1u32 << w == (if w == 9 {
            512u32
        } else if w == 10 {
            1024u32
        } else if w == 11 {
            2048u32
        } else if w == 12 {
            4096u32
        } else if w == 13 {
            8192u32
        } else if w == 14 {
            16384u32
        } else if w == 15 {
            32768u32
        } else if w == 16 {
            65536u32
        } else if w == 17 {
            131072u32
        } else if w == 18 {
            262144u32
        } else if w == 19 {
            524288u32
        } else if w == 20 {
            1048576u32
        } else if w == 21 {
            2097152u32
        } else {
            4194304u32
        }),
{
}

/// The code that the bytes of a codeword stand for, the least significant
/// byte first.
fn from_le_bytes_to_u32(seq: &[u8]) -> (c: u32)
    requires
        seq.len() <= 4,
    ensures
        c == le_word(seq@),
{
    from_le_bytes(seq)
}

/// Fills an empty dictionary with the one-byte words.
fn seed_dict(dict: &mut HashMap<u64, u32>)
    requires
        old(dict)@ == Map::<u64, u32>::empty(),
    ensures
        final(dict)@ == initial_dict(),
{
    let mut i: u32 = 0;
    while i < 256
        invariant
            i <= 256,
            dict@ == Map::<u64, u32>::new(|k: u64| k < i, |k: u64| k as u32),
        decreases 256 - i,
    {
        dict.insert(i as u64, i);
        i += 1;
        assert(dict@ =~= Map::<u64, u32>::new(|k: u64| k < i, |k: u64| k as u32));
    }
    assert(dict@ =~= initial_dict());
}

/// The key of the dictionary for the word of `prev` followed by `c`.
fn key_of(prev: Option<u32>, c: u8) -> (key: u64)
    ensures
        key == dict_key(prev, c),
{
    match prev {
        None => c as u64,
        Some(p) => (p as u64 + 1) * 256 + c as u64,
    }
}

/// Writes `code` in a codeword of `width` bits.
fn write_code(ds: &mut BitStream, code: u32, width: usize)
    requires
        old(ds).wf(),
        old(ds).mode() == Mode::Write,
        width <= 32,
    ensures
        final(ds).wf(),
        final(ds).mode() == Mode::Write,
        final(ds).bits() == old(ds).bits() + code_bits(code, width as int),
{
    let bytes = to_le_bytes(code);
    ds.write_bit_sequence(bytes.as_slice(), width);
}

/// Writes `code`, the code of a word that has ended while the dictionary had
/// `size` entries and the codewords `width` bits, and `CLEAR_CODE` behind it
/// if the dictionary is full with the entry that follows.
fn write_ended(ds: &mut BitStream, code: u32, size: u32, width: usize)
    requires
        old(ds).wf(),
        old(ds).mode() == Mode::Write,
        258 <= size < MAX_SIZE,
        width == width_for(size as int),
    ensures
        final(ds).wf(),
        final(ds).mode() == Mode::Write,
        final(ds).bits() == old(ds).bits() + emitted(code, size as int),
{
    let ghost before = ds.bits();
    write_code(ds, code, width);
    if size + 1 == MAX_SIZE {
        write_code(ds, CLEAR_CODE, MAX_WIDTH);
        assert(ds.bits() =~= before + emitted(code, size as int));
    }
}

/// The width of the codewords once the dictionary has grown from `size`
/// entries, written with `width` bits, to one more.
fn grown_width(size: u32, width: usize) -> (w: usize)
    requires
        258 <= size < MAX_SIZE,
        width == width_for(size as int),
    ensures
        w == width_for(size + 1),
{
    proof {
        lemma_shl_width(width as u32);
    }
    if width < MAX_WIDTH && size + 1 == (1u32 << (width as u32)) {
        width + 1
    } else {
        width
    }
}

/// Encodes `input`.  The result holds the bits of `encoded_bits`, its last
/// byte filled up with zero bits.
pub fn encode(input: &[u8]) -> (out: Vec<u8>)
    ensures
        out@ == pack(encoded_bits(input@)),
{
    let mut dict: HashMap<u64, u32> = HashMap::new();
    seed_dict(&mut dict);
    let mut ds = BitStream::new_file(Vec::new(), Mode::Write);
    let mut cur: Option<u32> = None;
    let mut size: u32 = FIRST_CODE;
    let mut write_bit: usize = MIN_WIDTH;
    let mut i: usize = 0;
    assert(input@.take(0) =~= Seq::<u8>::empty());
    assert(ds.bits() =~= Seq::<bool>::empty());
    while i < input.len()
        invariant
            i <= input.len(),
            ds.wf(),
            ds.mode() == Mode::Write,
            258 <= size < MAX_SIZE,
            write_bit == width_for(size as int),
            forall|k: u64| k < 256 ==> dict@.contains_key(k),
            encoder_run(input@.take(i as int)) == (
                EncoderState { dict: dict@, size: size as int, cur: cur },
                ds.bits(),
            ),
        decreases input.len() - i,
    {
        let c = input[i];
        let key = key_of(cur, c);
        let ghost st = EncoderState { dict: dict@, size: size as int, cur: cur };
        let ghost before = ds.bits();
        proof {
            let next = input@.take(i + 1);
            assert(next.drop_last() =~= input@.take(i as int));
            assert(next.last() == c);
            assert(encoder_run(next) == (
                encoder_step(st, c).0,
                before + encoder_step(st, c).1,
            ));
        }
        match dict.get(&key) {
            Some(index) => {
                cur = Some(*index);
                assert(ds.bits() =~= before + Seq::<bool>::empty());
            },
            None => {
                assert(cur.is_some());
                let code = cur.unwrap();
                write_ended(&mut ds, code, size, write_bit);
                if size + 1 == MAX_SIZE {
                    dict.clear();
                    seed_dict(&mut dict);
                    size = FIRST_CODE;
                    write_bit = MIN_WIDTH;
                } else {
                    dict.insert(key, size);
                    write_bit = grown_width(size, write_bit);
                    size += 1;
                }
                cur = Some(c as u32);
            },
        }
        i += 1;
    }
    assert(input@.take(i as int) =~= input@);
    let ghost st = EncoderState { dict: dict@, size: size as int, cur: cur };
    let ghost before = ds.bits();
    match cur {
        None => {
            write_code(&mut ds, END_CODE, write_bit);
        },
        Some(code) => {
            write_ended(&mut ds, code, size, write_bit);
            if size + 1 == MAX_SIZE {
                write_code(&mut ds, END_CODE, MIN_WIDTH);
            } else {
                let width = grown_width(size, write_bit);
                write_code(&mut ds, END_CODE, width);
            }
        },
    }
    assert(ds.bits() =~= before + encoder_finish(st));
    ds.close();
    ds.into_file()
}

/// The word of `s`, an entry that continues a word of `dict` or starts one.
fn get_word(s: &(u8, Option<usize>), dict: &[(u8, Option<usize>)]) -> (word: Vec<u8>)
    requires
        chained(dict@),
        match s.1 {
            Some(p) => p < dict.len(),
            None => true,
        },
    ensures
        word@ == entry_word(dict@, *s),
{
    let mut back: Vec<u8> = Vec::new();
    let mut s: (u8, Option<usize>) = *s;
    let ghost first = s;
    while s.1.is_some()
        invariant
            chained(dict@),
            match s.1 {
                Some(p) => p < dict.len(),
                None => true,
            },
            entry_word(dict@, first) == entry_word(dict@, s) + back@.reverse(),
        decreases
                match s.1 {
                    Some(p) => p + 1,
                    None => 0,
                },
    {
        let i = s.1.unwrap();
        let ghost rest = back@;
        back.push(s.0);
        proof {
            let entry = dict@[i as int];
            assert(word_of(dict@, i as int) == entry_word(dict@, entry));
            assert(back@.reverse() =~= seq![s.0] + rest.reverse());
            assert(entry_word(dict@, s) + rest.reverse() =~= entry_word(dict@, entry)
                + back@.reverse());
        }
        s = dict[i];
    }
    let ghost rest = back@;
    back.push(s.0);
    assert(back@.reverse() =~= seq![s.0] + rest.reverse());
    let mut word: Vec<u8> = Vec::new();
    let mut j: usize = back.len();
    while j > 0
        invariant
            j <= back.len(),
            word@ == back@.reverse().take(back.len() - j),
        decreases j,
    {
        j -= 1;
        word.push(back[j]);
        assert(word@ =~= back@.reverse().take(back.len() - j));
    }
    assert(word@ =~= back@.reverse());
    word
}

/// A table with the one-byte words and a place for each reserved code.
fn first_table() -> (table: Vec<(u8, Option<usize>)>)
    ensures
        table@ == initial_table(),
{
    let mut table: Vec<(u8, Option<usize>)> = Vec::new();
    let mut i: usize = 0;
    while i < 256
        invariant
            i <= 256,
            table.len() == i,
            forall|k: int| 0 <= k < i ==> table@[k] == (k as u8, None::<usize>),
        decreases 256 - i,
    {
        table.push((i as u8, None));
        i += 1;
    }
    table.push((0, None));
    table.push((0, None));
    assert(table@ =~= initial_table());
    table
}

/// A word of a table is the same in every table that continues it.
pub proof fn lemma_word_of_prefix(
    table: Seq<(u8, Option<usize>)>,
    longer: Seq<(u8, Option<usize>)>,
    code: int,
)
    requires
        table.len() <= longer.len(),
        longer.take(table.len() as int) == table,
        0 <= code < table.len(),
    ensures
        word_of(longer, code) == word_of(table, code),
    decreases code,
{
    assert(longer[code] == longer.take(table.len() as int)[code]);
    match table[code].1 {
        Some(p) => {
            if p < code {
                lemma_word_of_prefix(table, longer, p as int);
            }
        },
        None => {},
    }
}

/// What holds of the decoder's state between two codewords, `word` being
/// the word read last.
pub open spec fn decoder_inv(st: DecoderState, word: Seq<u8>) -> bool {
    &&& chained(st.table)
    &&& 258 <= st.table.len() < MAX_SIZE
    &&& match st.prev {
        Some(p) => p < st.table.len() && word == word_of(st.table, p as int),
        None => st.table == initial_table(),
    }
}

/// Reads one codeword of `width` bits, if that many bits are left.
fn read_code(ds: &mut BitStream, width: usize) -> (r: Option<u32>)
    requires
        old(ds).wf(),
        old(ds).mode() == Mode::Read,
        0 <= old(ds).pos(),
        width <= 32,
    ensures
        final(ds).wf(),
        final(ds).mode() == Mode::Read,
        final(ds).bits() == old(ds).bits(),
        match r {
            Some(code) => old(ds).pos() + width <= old(ds).bits().len() && final(ds).pos() == old(ds).pos() + width && code == code_at(old(ds).bits(), old(ds).pos(), width as int),
            None => old(ds).pos() + width > old(ds).bits().len() && final(ds).pos() == old(ds).pos(),
        },
{
    reveal(code_at);
    match ds.read_bit_sequence(width) {
        Ok(seq) => Some(from_le_bytes_to_u32(seq.as_slice())),
        Err(_) => None,
    }
}

/// Takes in the code `code`, which is neither `CLEAR_CODE` nor `END_CODE`:
/// finds its word, leaves it in `old_s`, and lets the table learn the entry
/// that the word completes.  Returns `false`, with nothing changed, if the
/// code stands for no word.
fn take_code(
    dict: &mut Vec<(u8, Option<usize>)>,
    prev: &mut Option<usize>,
    old_s: &mut Vec<u8>,
    code: u32,
) -> (ok: bool)
    requires
        decoder_inv(DecoderState { table: old(dict)@, prev: *old(prev) }, old(old_s)@),
        code != CLEAR_CODE,
        code != END_CODE,
    ensures
        match word_for(DecoderState { table: old(dict)@, prev: *old(prev) }, code as int) {
            None => !ok && final(dict)@ == old(dict)@ && *final(prev) == *old(prev) && final(old_s)@ == old(old_s)@,
            Some(word) => ok && final(old_s)@ == word && DecoderState {
                table: final(dict)@,
                prev: *final(prev),
            } == decoder_next(
                DecoderState { table: old(dict)@, prev: *old(prev) },
                code as int,
                word,
            ) && decoder_inv(
                DecoderState { table: final(dict)@, prev: *final(prev) },
                final(old_s)@,
            ),
        },
{
    let i = code as usize;
    match *prev {
        None => {
            if i >= 256 {
                return false;
            }
            old_s.clear();
            old_s.push(i as u8);
            *prev = Some(i);
            true
        },
        Some(p) => {
            let size = dict.len();
            if size + 1 >= MAX_SIZE as usize {
                return false;
            }
            if i < size {
                let s = dict[i];
                *old_s = get_word(&s, dict.as_slice());
            } else if i == size {
                let first = old_s[0];
                old_s.push(first);
            } else {
                return false;
            }
            let ghost table = dict@;
            dict.push((old_s[0], Some(p)));
            proof {
                assert(dict@.take(table.len() as int) =~= table);
                lemma_word_of_prefix(table, dict@, p as int);
                if i < size {
                    lemma_word_of_prefix(table, dict@, i as int);
                }
            }
            *prev = Some(i);
            true
        },
    }
}

/// One step of `decoder_run`, by the codeword that is read.
pub proof fn lemma_decoder_run_step(st: DecoderState, bits: Seq<bool>, pos: int, out: Seq<u8>)
    ensures
        pos < 0 || pos + read_width(st) > bits.len() ==> decoder_run(st, bits, pos, out) == Err::<
            Seq<u8>,
            FormatError,
        >(FormatError::TruncatedStream),
        0 <= pos && pos + read_width(st) <= bits.len() ==> ({
            let code = code_at(bits, pos, read_width(st));
            let next = pos + read_width(st);
            &&& code == END_CODE ==> decoder_run(st, bits, pos, out) == Ok::<Seq<u8>, FormatError>(
                out,
            )
            &&& code == CLEAR_CODE ==> decoder_run(st, bits, pos, out) == decoder_run(
                decoder_start(),
                bits,
                next,
                out,
            )
            &&& code != END_CODE && code != CLEAR_CODE ==> match word_for(st, code as int) {
                None => decoder_run(st, bits, pos, out) == Err::<Seq<u8>, FormatError>(
                    FormatError::CodeOutOfRange,
                ),
                Some(word) => decoder_run(st, bits, pos, out) == decoder_run(
                    decoder_next(st, code as int, word),
                    bits,
                    next,
                    out + word,
                ),
            }
        }),
{
    reveal(decoder_run);
}

/// Decodes the file `input`.  The result is that of `decoded`: the bytes
/// that the codewords stand for up to the first `END_CODE`, or
/// `TruncatedStream` if the bits end before it, or `CodeOutOfRange` at the
/// first code that the encoder cannot have written there.
pub fn decode(input: &[u8]) -> (r: Result<Vec<u8>, FormatError>)
    ensures
        match decoded(input@) {
            Ok(bytes) => r.is_ok() && r.unwrap()@ == bytes,
            Err(e) => r == Err::<Vec<u8>, FormatError>(e),
        },
{
    let mut ds = BitStream::new(input, Mode::Read);
    let mut dict = first_table();
    let mut prev: Option<usize> = None;
    let mut old_s: Vec<u8> = Vec::new();
    let mut read_bits: usize = MIN_WIDTH;
    let mut out: Vec<u8> = Vec::new();
    let ghost all = bits_of(input@);
    proof {
        ds.lemma_pos_in_range();
    }
    loop
        invariant
            ds.wf(),
            ds.mode() == Mode::Read,
            ds.bits() == all,
            0 <= ds.pos() <= all.len(),
            decoder_inv(DecoderState { table: dict@, prev: prev }, old_s@),
            read_bits == read_width(DecoderState { table: dict@, prev: prev }),
            decoded(input@) == decoder_run(
                DecoderState { table: dict@, prev: prev },
                all,
                ds.pos(),
                out@,
            ),
        decreases all.len() - ds.pos(),
    {
        proof {
            lemma_decoder_run_step(DecoderState { table: dict@, prev: prev }, all, ds.pos(), out@);
        }
        let code = match read_code(&mut ds, read_bits) {
            Some(code) => code,
            None => {
                return Err(FormatError::TruncatedStream);
            },
        };
        if code == END_CODE {
            return Ok(out);
        }
        if code == CLEAR_CODE {
            dict = first_table();
            prev = None;
            read_bits = MIN_WIDTH;
            continue ;
        }
        if !take_code(&mut dict, &mut prev, &mut old_s, code) {
            return Err(FormatError::CodeOutOfRange);
        }
        let ghost before = out@;
        out.extend_from_slice(old_s.as_slice());
        assert(out@ =~= before + old_s@);
        read_bits = grown_width(dict.len() as u32, read_bits);
    }
}

/// The file is fixed by the input: equal inputs have equal files.
pub proof fn lemma_same_input_same_file(first: Seq<u8>, second: Seq<u8>)
    requires
        first == second,
    ensures
        encoded_bits(first) == encoded_bits(second),
        pack(encoded_bits(first)) == pack(encoded_bits(second)),
{
}

} // verus!
