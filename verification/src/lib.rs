//! Block-oriented compression stages over a shared bit stream.
//!
//! The crate root holds the bit stream itself: a paged reader and writer of
//! single bits over the bytes of a file.  The stages live in their modules:
//! `bwt`, `mtf`, `huffman` and `lzw`; each turns the bytes of a file into the
//! bytes of another and back.  `utils` holds the sorts of the block
//! transform, `bits` the bits of bytes, `order` and `perm` the lexicographic
//! order and permutations.
//!
//! Every stage gives back what it was given.  The proofs stand beside the
//! stages: in `inversion` for the block transform, in `mtf` itself for the
//! move to front, in `prefix_code` for the Huffman file and in `dictionary`
//! for LZW; `optimal` shows that no prefix code is shorter than that of the
//! Huffman tree.

use vstd::prelude::*;

pub mod bits;
pub mod bwt;
pub mod dictionary;
pub mod error;
pub mod huffman;
pub mod inversion;
pub mod lzw;
pub mod mtf;
pub mod optimal;
pub mod order;
pub mod perm;
pub mod prefix_code;
pub mod utils;

use crate::bits::{
    bit, bit_or_zero, bits_of, byte_len, lemma_bits_of_pack, lemma_pack_by_bits, pack, zero_bits,
};
use crate::error::StreamError;

verus! {

/// Direction in which a bit stream moves data.
#[derive(Clone, Copy, Debug, PartialEq, Eq, Structural)]
pub enum Mode {
    Read,
    Write,
}

/// Number of bytes in one page of a stream's buffer.
pub const BUFFER_SIZE: usize = 65536;

/// A reader or writer of bits over the bytes of one file.
///
/// The mode is fixed when the stream is made.  A reader holds the bytes of
/// the file and walks them one page at a time; a writer fills a page and
/// moves each full page to the file.  Bits are counted from the least
/// significant bit of each byte upwards.
pub struct BitStream {
    file: Vec<u8>,
    base: usize,
    buffer: Vec<u8>,
    index_buf: usize,
    point_bit: usize,
    mode: Mode,
}

/// What a writer appends, a reader finds again.  Let a writer that holds the
/// bits `before` append the first `n` bits of `v` and close, and let a
/// reader of the file that results stand behind `before`.  Then a read of `n`
/// bits finds enough bits left and returns the low `n` bits of `v`, every
/// bit above them zero.
pub proof fn lemma_read_after_write(before: Seq<bool>, v: Seq<u8>, n: int)
    requires
        0 <= n <= 8 * v.len(),
    ensures
        before.len() + n <= bits_of(pack(before + bits_of(v).take(n))).len(),
        pack(
            bits_of(pack(before + bits_of(v).take(n))).subrange(
                before.len() as int,
                before.len() + n,
            ),
        ) == pack(bits_of(v).take(n)),
        forall|i: int|
            0 <= i < 8 * byte_len(n) ==> #[trigger] bits_of(pack(bits_of(v).take(n)))[i] == (i < n
                && bits_of(v)[i]),
{
    let low = bits_of(v).take(n);
    let written = before + low;
    lemma_bits_of_pack(written);
    lemma_bits_of_pack(low);
    let found = bits_of(pack(written)).subrange(before.len() as int, before.len() + n);
    assert(found =~= low);
}

/// The bits of `k` bits taken from one byte, from bit `p` on.
proof fn lemma_take_within(cur: u8, p: u8, k: u8, j: u8)
    by (bit_vector)
    requires
        p < 8,
        1 <= k,
        p + k <= 8,
        j < 8,
    ensures
        bit((cur >> p) & (0xffu8 >> ((8 - k) as u8)), j) == (j < k && bit(cur, (p + j) as u8)),
{
}

/// The bits of `k` bits taken from two bytes: from bit `p` of the first on,
/// and on into the second.
proof fn lemma_take_across(lo: u8, hi: u8, p: u8, k: u8, j: u8)
    by (bit_vector)
    requires
        p < 8,
        k <= 8,
        p + k > 8,
        j < 8,
    ensures
        bit((lo >> p) | ((hi & (0xffu8 >> ((16 - p - k) as u8))) << ((8 - p) as u8)), j) == (j < k && (
        if j < 8 - p {
            bit(lo, (p + j) as u8)
        } else {
            bit(hi, (j + p - 8) as u8)
        })),
{
}

/// The bits of a byte after the low `k` bits of `v` were put in from bit `p`
/// on.
proof fn lemma_put_low(x: u8, v: u8, p: u8, k: u8, j: u8)
    by (bit_vector)
    requires
        p < 8,
        1 <= k <= 8,
        j < 8,
        x >> p == 0,
    ensures
        bit(x | ((v & (0xffu8 >> ((8 - k) as u8))) << p), j) == (if j < p {
            bit(x, j)
        } else {
            j - p < k && bit(v, (j - p) as u8)
        }),
{
}

/// A byte is still clear above the bits put in.
proof fn lemma_put_low_clear(x: u8, v: u8, p: u8, k: u8)
    by (bit_vector)
    requires
        p < 8,
        1 <= k,
        p + k < 8,
        x >> p == 0,
    ensures
        (x | ((v & (0xffu8 >> ((8 - k) as u8))) << p)) >> ((p + k) as u8) == 0,
{
}

/// The bits of `v` that did not fit into a byte, as the low bits of the next.
proof fn lemma_put_high(v: u8, p: u8, k: u8, j: u8)
    by (bit_vector)
    requires
        p < 8,
        k <= 8,
        p + k > 8,
        j < 8,
    ensures
        bit((v & (0xffu8 >> ((8 - k) as u8))) >> ((8 - p) as u8), j) == (j + 8 - p < k && bit(
            v,
            (j + 8 - p) as u8,
        )),
        ((v & (0xffu8 >> ((8 - k) as u8))) >> ((8 - p) as u8)) >> ((p + k - 8) as u8) == 0,
{
}

/// The byte zero has no bit.
proof fn lemma_zero_byte(j: u8)
    by (bit_vector)
    ensures
        !bit(0u8, j),
        0u8 >> j == 0,
{
}

/// A byte that is clear from bit `p` on has no bit there.
proof fn lemma_clear_above(x: u8, p: u8, j: u8)
    by (bit_vector)
    requires
        p <= j,
        x >> p == 0,
    ensures
        !bit(x, j),
{
}

impl BitStream {
    /// The mode that the stream was made with.
    pub closed spec fn mode(&self) -> Mode {
        self.mode
    }

    /// The bytes that have reached the file.  For a reader these are all the
    /// bytes of the file.
    pub closed spec fn flushed(&self) -> Seq<u8> {
        self.file@
    }

    /// The invariant that every stream keeps.
    pub closed spec fn wf(&self) -> bool {
        &&& self.point_bit < 8
        &&& match self.mode {
            Mode::Read => {
                &&& self.base + self.buffer.len() <= self.file.len()
                &&& self.buffer@ == self.file@.subrange(
                    self.base as int,
                    self.base + self.buffer.len(),
                )
                &&& self.index_buf <= self.buffer.len() <= BUFFER_SIZE
                &&& (self.index_buf == self.buffer.len() ==> self.point_bit == 0 && self.base
                    + self.buffer.len() == self.file.len())
            },
            Mode::Write => {
                &&& self.buffer.len() == BUFFER_SIZE
                &&& self.index_buf < BUFFER_SIZE
                &&& self.base == 0
                &&& forall|j: int| self.index_buf < j < BUFFER_SIZE ==> self.buffer[j] == 0
                &&& self.buffer[self.index_buf as int] >> (self.point_bit as u8) == 0
            },
        }
    }

    /// The bits of the stream: for a reader, all the bits of the file; for a
    /// writer, the bits of the file followed by those written since.
    pub closed spec fn bits(&self) -> Seq<bool> {
        match self.mode {
            Mode::Read => bits_of(self.file@),
            Mode::Write => bits_of(self.file@ + self.buffer@.take(self.index_buf as int))
                + Seq::new(
                self.point_bit as nat,
                |k: int| bit(self.buffer[self.index_buf as int], k as u8),
            ),
        }
    }

    /// The position of the stream, in bits from the start: where a reader
    /// reads next, and where a writer writes next.
    pub closed spec fn pos(&self) -> int {
        match self.mode {
            Mode::Read => 8 * (self.base + self.index_buf) + self.point_bit,
            Mode::Write => 8 * (self.file.len() + self.index_buf) + self.point_bit,
        }
    }

    /// A reader never stands past the end, and a writer stands at the end.
    pub proof fn lemma_pos_in_range(&self)
        requires
            self.wf(),
        ensures
            0 <= self.pos() <= self.bits().len(),
            self.mode() == Mode::Write ==> self.pos() == self.bits().len(),
    {
    }

    /// The page of `file` that starts at byte `base`.
    fn page_at(file: &Vec<u8>, base: usize) -> (page: Vec<u8>)
        requires
            base <= file.len(),
        ensures
            page.len() <= BUFFER_SIZE,
            base + page.len() <= file.len(),
            page.len() == BUFFER_SIZE || base + page.len() == file.len(),
            page@ == file@.subrange(base as int, base + page.len()),
    {
        let mut page: Vec<u8> = Vec::new();
        let mut i: usize = base;
        while i < file.len() && page.len() < BUFFER_SIZE
            invariant
                base <= i <= file.len(),
                i == base + page.len(),
                page.len() <= BUFFER_SIZE,
                page@ == file@.subrange(base as int, i as int),
            decreases file.len() - i,
        {
            page.push(file[i]);
            i += 1;
            assert(page@ =~= file@.subrange(base as int, i as int));
        }
        page
    }

    /// A stream over a file that is already open.  A reader starts at the
    /// first byte of `file`; a writer appends behind its last byte.
    pub fn new_file(file: Vec<u8>, mode: Mode) -> (s: Self)
        ensures
            s.wf(),
            s.mode() == mode,
            s.bits() == bits_of(file@),
            s.flushed() == file@,
            s.pos() == (if mode == Mode::Read {
                0
            } else {
                8 * file.len()
            }),
    {
        match mode {
            Mode::Read => {
                let buffer = Self::page_at(&file, 0);
                Self { file, base: 0, buffer, index_buf: 0, point_bit: 0, mode: Mode::Read }
            },
            Mode::Write => {
                let s = Self {
                    file,
                    base: 0,
                    buffer: vec![0u8; BUFFER_SIZE],
                    index_buf: 0,
                    point_bit: 0,
                    mode: Mode::Write,
                };
                proof {
                    lemma_zero_byte(0);
                    assert(s.file@ + s.buffer@.take(0) =~= s.file@);
                    assert(s.bits() =~= bits_of(s.file@));
                }
                s
            },
        }
    }

    /// A stream over the file with the bytes `file`.  A reader starts at the
    /// first byte; a writer empties the file first.
    pub fn new(file: &[u8], mode: Mode) -> (s: Self)
        ensures
            s.wf(),
            s.mode() == mode,
            s.pos() == 0,
            s.bits() == (if mode == Mode::Read {
                bits_of(file@)
            } else {
                Seq::<bool>::empty()
            }),
            s.flushed() == (if mode == Mode::Read {
                file@
            } else {
                Seq::<u8>::empty()
            }),
    {
        match mode {
            Mode::Read => {
                let mut content: Vec<u8> = Vec::new();
                let mut i: usize = 0;
                while i < file.len()
                    invariant
                        i <= file.len(),
                        content@ == file@.take(i as int),
                    decreases file.len() - i,
                {
                    content.push(file[i]);
                    i += 1;
                    assert(content@ =~= file@.take(i as int));
                }
                assert(content@ =~= file@);
                Self::new_file(content, Mode::Read)
            },
            Mode::Write => {
                let s = Self::new_file(Vec::new(), Mode::Write);
                assert(s.bits() =~= Seq::<bool>::empty());
                s
            },
        }
    }

    /// Steps a reader to the next byte, loading the next page when the
    /// current one is used up.
    fn advance(&mut self)
        requires
            old(self).wf(),
            old(self).mode == Mode::Read,
            old(self).index_buf < old(self).buffer.len(),
        ensures
            final(self).wf(),
            final(self).mode == Mode::Read,
            final(self).file == old(self).file,
            final(self).point_bit == 0,
            final(self).base + final(self).index_buf == old(self).base + old(self).index_buf + 1,
    {
        self.point_bit = 0;
        self.index_buf += 1;
        if self.index_buf == self.buffer.len() {
            let next = self.base + self.buffer.len();
            if next < self.file.len() {
                self.buffer = Self::page_at(&self.file, next);
                self.base = next;
                self.index_buf = 0;
            }
        }
    }

    /// Takes the next `k` bits of a reader as the low bits of a byte.
    fn take_bits(&mut self, k: usize) -> (b: u8)
        requires
            old(self).wf(),
            old(self).mode == Mode::Read,
            1 <= k <= 8,
            old(self).pos() + k <= old(self).bits().len(),
        ensures
            final(self).wf(),
            final(self).mode == Mode::Read,
            final(self).file == old(self).file,
            final(self).pos() == old(self).pos() + k,
            forall|j: u8|
                j < 8 ==> #[trigger] bit(b, j) == (j < k && old(self).bits()[old(self).pos() + j]),
    {
        let p = self.point_bit;
        let cur = self.buffer[self.index_buf];
        let ghost byte_pos: int = self.base + self.index_buf;
        let ghost all = self.bits();
        assert(cur == self.file@[byte_pos]);
        if p + k <= 8 {
            let out = (cur >> (p as u8)) & (0xffu8 >> ((8 - k) as u8));
            if p + k == 8 {
                self.advance();
            } else {
                self.point_bit = p + k;
            }
            proof {
                assert forall|j: u8| j < 8 implies #[trigger] bit(out, j) == (j < k && all[8
                    * byte_pos + p + j]) by {
                    lemma_take_within(cur, p as u8, k as u8, j);
                    if j < k {
                        let i = 8 * byte_pos + p + j;
                        assert(i / 8 == byte_pos && i % 8 == p + j);
                    }
                }
            }
            out
        } else {
            self.advance();
            let hi = self.buffer[self.index_buf];
            assert(hi == self.file@[byte_pos + 1]);
            let out = (cur >> (p as u8)) | ((hi & (0xffu8 >> ((16 - p - k) as u8))) << ((8 - p) as u8));
            self.point_bit = p + k - 8;
            proof {
                assert forall|j: u8| j < 8 implies #[trigger] bit(out, j) == (j < k && all[8
                    * byte_pos + p + j]) by {
                    lemma_take_across(cur, hi, p as u8, k as u8, j);
                    if j < k {
                        let i = 8 * byte_pos + p + j;
                        if j < 8 - p {
                            assert(i / 8 == byte_pos && i % 8 == p + j);
                        } else {
                            assert(i / 8 == byte_pos + 1 && i % 8 == j + p - 8);
                        }
                    }
                }
            }
            out
        }
    }

    /// Reads the next `bit_len` bits.  They come back packed into bytes, the
    /// first bit read in the lowest bit of the first byte, the unused high
    /// bits of the last byte zero.  When fewer than `bit_len` bits remain
    /// the read fails and the stream stays where it was.  A writer reads
    /// zero bits and stays as it was.
    pub fn read_bit_sequence(&mut self, bit_len: usize) -> (r: Result<Vec<u8>, StreamError>)
        requires
            old(self).wf(),
        ensures
            final(self).wf(),
            final(self).mode() == old(self).mode(),
            final(self).bits() == old(self).bits(),
            final(self).flushed() == old(self).flushed(),
            old(self).mode() == Mode::Write ==> final(self).pos() == old(self).pos() && r.is_ok()
                && r.unwrap()@ == pack(zero_bits(bit_len as int)),
            old(self).mode() == Mode::Read && old(self).pos() + bit_len <= old(self).bits().len()
                ==> final(self).pos() == old(self).pos() + bit_len && r.is_ok() && r.unwrap()@
                == pack(
                old(self).bits().subrange(old(self).pos(), old(self).pos() + bit_len),
            ),
            old(self).mode() == Mode::Read && old(self).pos() + bit_len > old(self).bits().len()
                ==> final(self).pos() == old(self).pos() && r == Err::<Vec<u8>, StreamError>(
                StreamError::UnexpectedEndOfStream,
            ),
    {
        let full = bit_len / 8;
        let rest = bit_len % 8;
        let bytes = if rest == 0 {
            full
        } else {
            full + 1
        };
        assert(bytes == byte_len(bit_len as int));
        match self.mode {
            Mode::Write => {
                let seq = vec![0u8; bytes];
                proof {
                    assert forall|j: int, t: u8| 0 <= j < seq@.len() && t < 8 implies #[trigger] bit(
                        seq@[j],
                        t,
                    ) == bit_or_zero(zero_bits(bit_len as int), 8 * j + t) by {
                        lemma_zero_byte(t);
                    }
                    lemma_pack_by_bits(seq@, zero_bits(bit_len as int));
                }
                Ok(seq)
            },
            Mode::Read => {
                let here = self.base + self.index_buf;
                let left = self.file.len() - here;
                let spill: usize = if rest + self.point_bit == 0 {
                    0
                } else if rest + self.point_bit <= 8 {
                    1
                } else {
                    2
                };
                if full > left || spill > left - full {
                    return Err(StreamError::UnexpectedEndOfStream);
                }
                let ghost start = self.pos();
                let ghost all = self.bits();
                let ghost want = all.subrange(start, start + bit_len);
                let mut seq: Vec<u8> = Vec::new();
                let mut i: usize = 0;
                while i < full
                    invariant
                        self.wf(),
                        self.mode == Mode::Read,
                        self.file == old(self).file,
                        all == bits_of(self.file@),
                        0 <= start,
                        start + bit_len <= all.len(),
                        want == all.subrange(start, start + bit_len),
                        i <= full,
                        full == bit_len / 8,
                        seq.len() == i,
                        self.pos() == start + 8 * i,
                        forall|j: int, t: u8|
                            0 <= j < i && t < 8 ==> #[trigger] bit(seq@[j], t) == bit_or_zero(
                                want,
                                8 * j + t,
                            ),
                    decreases full - i,
                {
                    let b = self.take_bits(8);
                    seq.push(b);
                    proof {
                        assert forall|j: int, t: u8| 0 <= j < i + 1 && t < 8 implies #[trigger] bit(
                            seq@[j],
                            t,
                        ) == bit_or_zero(want, 8 * j + t) by {
                            if j == i {
                                assert(bit(b, t) == all[start + 8 * i + t]);
                            }
                        }
                    }
                    i += 1;
                }
                if rest != 0 {
                    let b = self.take_bits(rest);
                    seq.push(b);
                    proof {
                        assert forall|j: int, t: u8| 0 <= j < full + 1 && t < 8 implies #[trigger] bit(
                            seq@[j],
                            t,
                        ) == bit_or_zero(want, 8 * j + t) by {
                            if j == full {
                                assert(bit(b, t) == (t < rest && all[start + 8 * full + t]));
                            }
                        }
                    }
                }
                proof {
                    lemma_pack_by_bits(seq@, want);
                }
                Ok(seq)
            },
        }
    }

    /// Ends the current byte of a writer, moving the page to the file when
    /// it is full.
    fn finish_byte(&mut self)
        requires
            old(self).mode == Mode::Write,
            old(self).base == 0,
            old(self).buffer.len() == BUFFER_SIZE,
            old(self).index_buf < BUFFER_SIZE,
            forall|j: int| old(self).index_buf < j < BUFFER_SIZE ==> old(self).buffer[j] == 0,
        ensures
            final(self).wf(),
            final(self).mode == Mode::Write,
            final(self).point_bit == 0,
            final(self).file@ + final(self).buffer@.take(final(self).index_buf as int) == old(self).file@ + old(self).buffer@.take(old(self).index_buf + 1),
            final(self).buffer[final(self).index_buf as int] == 0,
    {
        self.point_bit = 0;
        self.index_buf += 1;
        proof {
            lemma_zero_byte(0);
        }
        if self.index_buf == BUFFER_SIZE {
            let mut j: usize = 0;
            let ghost before = self.file@;
            while j < BUFFER_SIZE
                invariant
                    j <= BUFFER_SIZE,
                    self.buffer.len() == BUFFER_SIZE,
                    self.buffer == old(self).buffer,
                    self.mode == Mode::Write,
                    self.base == 0,
                    self.point_bit == 0,
                    self.file@ == before + self.buffer@.take(j as int),
                decreases BUFFER_SIZE - j,
            {
                self.file.push(self.buffer[j]);
                j += 1;
                assert(self.file@ =~= before + self.buffer@.take(j as int));
            }
            self.buffer = vec![0u8; BUFFER_SIZE];
            self.index_buf = 0;
            assert(self.file@ + self.buffer@.take(0) =~= before + old(self).buffer@.take(
                BUFFER_SIZE as int,
            ));
        }
    }

    /// Appends the low `k` bits of `v` to a writer.
    fn put_bits(&mut self, v: u8, k: usize)
        requires
            old(self).wf(),
            old(self).mode == Mode::Write,
            1 <= k <= 8,
        ensures
            final(self).wf(),
            final(self).mode == Mode::Write,
            final(self).bits() == old(self).bits() + Seq::new(k as nat, |j: int| bit(v, j as u8)),
    {
        let p = self.point_bit;
        let idx = self.index_buf;
        let x = self.buffer[idx];
        let val = v & (0xffu8 >> ((8 - k) as u8));
        let y = x | (val << (p as u8));
        let ghost whole = self.file@ + self.buffer@.take(idx as int);
        let ghost before = self.bits();
        let ghost added = Seq::new(k as nat, |j: int| bit(v, j as u8));
        self.buffer.set(idx, y);
        proof {
            assert(self.file@ + self.buffer@.take(idx as int) =~= whole);
            assert forall|j: u8| j < 8 implies #[trigger] bit(y, j) == (if j < p {
                bit(x, j)
            } else {
                j - p < k && bit(v, (j - p) as u8)
            }) by {
                lemma_put_low(x, v, p as u8, k as u8, j);
            }
        }
        if p + k < 8 {
            self.point_bit = p + k;
            proof {
                lemma_put_low_clear(x, v, p as u8, k as u8);
                assert(self.bits() =~= before + added);
            }
        } else {
            self.finish_byte();
            let ghost whole2 = whole.push(y);
            assert(self.file@ + self.buffer@.take(self.index_buf as int) =~= whole2);
            if p + k > 8 {
                let z = val >> ((8 - p) as u8);
                let idx2 = self.index_buf;
                self.buffer.set(idx2, z);
                self.point_bit = p + k - 8;
                proof {
                    assert(self.file@ + self.buffer@.take(idx2 as int) =~= whole2);
                    assert forall|j: u8| j < 8 implies #[trigger] bit(z, j) == (j + 8 - p < k && bit(
                        v,
                        (j + 8 - p) as u8,
                    )) by {
                        lemma_put_high(v, p as u8, k as u8, j);
                    }
                    lemma_put_high(v, p as u8, k as u8, 0);
                    let now = self.bits();
                    let goal = before + added;
                    assert(now.len() == goal.len());
                    assert forall|i: int| 0 <= i < now.len() implies now[i] == goal[i] by {
                        let n = 8 * whole.len();
                        if i < n {
                            assert(whole2[i / 8] == whole[i / 8]);
                        } else if i < n + 8 {
                            assert(i / 8 == whole.len() && i % 8 == i - n);
                            assert(bit(y, (i - n) as u8) == goal[i]);
                        } else {
                            assert(bit(z, (i - n - 8) as u8) == goal[i]);
                        }
                    }
                    assert(now =~= goal);
                }
            } else {
                proof {
                    let now = self.bits();
                    let goal = before + added;
                    assert(now.len() == goal.len());
                    assert forall|i: int| 0 <= i < now.len() implies now[i] == goal[i] by {
                        let n = 8 * whole.len();
                        if i < n {
                            assert(whole2[i / 8] == whole[i / 8]);
                        } else {
                            assert(i / 8 == whole.len() && i % 8 == i - n);
                            assert(bit(y, (i - n) as u8) == goal[i]);
                        }
                    }
                    assert(now =~= goal);
                }
            }
        }
    }

    /// Appends the first `bit_len` bits of `seq` to a writer: the low bits
    /// of its bytes in order, and nothing of what `seq` holds beyond them.
    /// A reader stays as it was.
    pub fn write_bit_sequence(&mut self, seq: &[u8], bit_len: usize)
        requires
            old(self).wf(),
            bit_len <= 8 * seq.len(),
        ensures
            final(self).wf(),
            final(self).mode() == old(self).mode(),
            old(self).mode() == Mode::Write ==> final(self).bits() == old(self).bits() + bits_of(
                seq@,
            ).take(bit_len as int) && final(self).pos() == old(self).pos() + bit_len,
            old(self).mode() == Mode::Read ==> final(self).bits() == old(self).bits() && final(self).pos() == old(self).pos() && final(self).flushed() == old(self).flushed(),
    {
        match self.mode {
            Mode::Read => {},
            Mode::Write => {
                let full = bit_len / 8;
                let rest = bit_len % 8;
                let ghost before = self.bits();
                let ghost src = bits_of(seq@);
                proof {
                    self.lemma_pos_in_range();
                    assert(self.bits() =~= before + src.take(0));
                }
                let mut i: usize = 0;
                while i < full
                    invariant
                        self.wf(),
                        self.mode == Mode::Write,
                        i <= full,
                        full == bit_len / 8,
                        bit_len <= 8 * seq.len(),
                        src == bits_of(seq@),
                        self.bits() == before + src.take(8 * i),
                    decreases full - i,
                {
                    let ghost cur = self.bits();
                    self.put_bits(seq[i], 8);
                    proof {
                        let added = Seq::new(8, |j: int| bit(seq@[i as int], j as u8));
                        assert forall|t: int| 0 <= t < 8 implies added[t] == src[8 * i + t] by {
                            assert((8 * i + t) / 8 == i && (8 * i + t) % 8 == t);
                        }
                        assert(cur + added =~= before + src.take(8 * (i + 1)));
                    }
                    i += 1;
                }
                if rest != 0 {
                    let ghost cur = self.bits();
                    self.put_bits(seq[full], rest);
                    proof {
                        let added = Seq::new(rest as nat, |j: int| bit(seq@[full as int], j as u8));
                        assert forall|t: int| 0 <= t < rest implies added[t] == src[8 * full + t] by {
                            assert((8 * full + t) / 8 == full && (8 * full + t) % 8 == t);
                        }
                        assert(cur + added =~= before + src.take(bit_len as int));
                    }
                }
                proof {
                    self.lemma_pos_in_range();
                }
            },
        }
    }

    /// Moves what a writer still holds to the file, the last byte filled up
    /// with zero bits, so that the file holds exactly the bits written.  A
    /// reader stays as it was.
    pub fn close(&mut self)
        requires
            old(self).wf(),
        ensures
            final(self).wf(),
            final(self).mode() == old(self).mode(),
            old(self).mode() == Mode::Write ==> final(self).flushed() == pack(old(self).bits())
                && final(self).bits() == bits_of(pack(old(self).bits())) && final(self).pos() == 8
                * byte_len(old(self).pos()),
            old(self).mode() == Mode::Read ==> final(self).bits() == old(self).bits() && final(self).pos() == old(self).pos() && final(self).flushed() == old(self).flushed(),
    {
        match self.mode {
            Mode::Read => {},
            Mode::Write => {
                let end = if self.point_bit == 0 {
                    self.index_buf
                } else {
                    self.index_buf + 1
                };
                let ghost before = self.file@;
                let ghost all = self.bits();
                let ghost last = self.buffer[self.index_buf as int];
                let ghost whole = self.file@ + self.buffer@.take(self.index_buf as int);
                let mut j: usize = 0;
                while j < end
                    invariant
                        j <= end <= BUFFER_SIZE,
                        self.buffer.len() == BUFFER_SIZE,
                        self.buffer == old(self).buffer,
                        self.index_buf == old(self).index_buf,
                        self.point_bit == old(self).point_bit,
                        self.mode == Mode::Write,
                        self.base == 0,
                        self.file@ == before + self.buffer@.take(j as int),
                    decreases end - j,
                {
                    self.file.push(self.buffer[j]);
                    j += 1;
                    assert(self.file@ =~= before + self.buffer@.take(j as int));
                }
                proof {
                    let out = self.file@;
                    assert(out.len() == byte_len(all.len() as int));
                    assert forall|j: int, t: u8| 0 <= j < out.len() && t < 8 implies #[trigger] bit(
                        out[j],
                        t,
                    ) == bit_or_zero(all, 8 * j + t) by {
                        let i = 8 * j + t;
                        assert(i / 8 == j && i % 8 == t as int);
                        if j < whole.len() {
                            assert(out[j] == whole[j]);
                        } else {
                            assert(out[j] == last);
                            if t >= self.point_bit {
                                lemma_clear_above(last, self.point_bit as u8, t);
                            }
                        }
                    }
                    lemma_pack_by_bits(out, all);
                    lemma_zero_byte(0);
                }
                self.buffer = vec![0u8; BUFFER_SIZE];
                self.index_buf = 0;
                self.point_bit = 0;
                proof {
                    assert(self.file@ + self.buffer@.take(0) =~= self.file@);
                    assert(self.bits() =~= bits_of(self.file@));
                    assert(8 * byte_len(old(self).pos()) == 8 * self.file.len());
                }
            },
        }
    }

    /// Gives up the stream for the bytes of its file.
    pub fn into_file(self) -> (file: Vec<u8>)
        ensures
            file@ == self.flushed(),
    {
        self.file
    }
}

} // verus!
