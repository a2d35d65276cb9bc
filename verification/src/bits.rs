//! Bit-level model of byte sequences.
//!
//! A byte sequence is read as a sequence of bits, least significant bit of
//! each byte first.  `bits_of` unfolds bytes into bits and `pack` folds bits
//! back into bytes, padding the last byte with zero bits.

use vstd::prelude::*;

verus! {

/// Bit `k` of the byte `b`; `false` for `k` outside `0..8`.
pub open spec fn bit(b: u8, k: u8) -> bool {
    k < 8 && (b >> k) & 1u8 == 1u8
}

/// The byte whose bits, from the least significant one up, are the arguments.
pub open spec fn byte_from(
    b0: bool,
    b1: bool,
    b2: bool,
    b3: bool,
    b4: bool,
    b5: bool,
    b6: bool,
    b7: bool,
) -> u8 {
    (if b0 { 1u8 } else { 0u8 })
        | (if b1 { 2u8 } else { 0u8 })
        | (if b2 { 4u8 } else { 0u8 })
        | (if b3 { 8u8 } else { 0u8 })
        | (if b4 { 16u8 } else { 0u8 })
        | (if b5 { 32u8 } else { 0u8 })
        | (if b6 { 64u8 } else { 0u8 })
        | (if b7 { 128u8 } else { 0u8 })
}

/// Bit `i` of a bit sequence, `false` past its end.
pub open spec fn bit_or_zero(bits: Seq<bool>, i: int) -> bool {
    0 <= i < bits.len() && bits[i]
}

/// Number of bytes that hold `n` bits.
pub open spec fn byte_len(n: int) -> int {
    (n + 7) / 8
}

/// The bits of a byte sequence: bit `i` is bit `i % 8` of byte `i / 8`.
pub open spec fn bits_of(bytes: Seq<u8>) -> Seq<bool> {
    Seq::new((8 * bytes.len()) as nat, |i: int| bit(bytes[i / 8], (i % 8) as u8))
}

/// The bytes that hold a bit sequence, the unused high bits of the last byte
/// being zero.
pub open spec fn pack(bits: Seq<bool>) -> Seq<u8> {
    Seq::new(
        byte_len(bits.len() as int) as nat,
        |j: int|
            byte_from(
                bit_or_zero(bits, 8 * j),
                bit_or_zero(bits, 8 * j + 1),
                bit_or_zero(bits, 8 * j + 2),
                bit_or_zero(bits, 8 * j + 3),
                bit_or_zero(bits, 8 * j + 4),
                bit_or_zero(bits, 8 * j + 5),
                bit_or_zero(bits, 8 * j + 6),
                bit_or_zero(bits, 8 * j + 7),
            ),
    )
}

/// `n` zero bits.
pub open spec fn zero_bits(n: int) -> Seq<bool> {
    Seq::new(n as nat, |i: int| false)
}

/// Each bit of `byte_from` is the argument that was put there.
pub proof fn lemma_byte_from_bits(
    b0: bool,
    b1: bool,
    b2: bool,
    b3: bool,
    b4: bool,
    b5: bool,
    b6: bool,
    b7: bool,
)
    ensures
        bit(byte_from(b0, b1, b2, b3, b4, b5, b6, b7), 0) == b0,
        bit(byte_from(b0, b1, b2, b3, b4, b5, b6, b7), 1) == b1,
        bit(byte_from(b0, b1, b2, b3, b4, b5, b6, b7), 2) == b2,
        bit(byte_from(b0, b1, b2, b3, b4, b5, b6, b7), 3) == b3,
        bit(byte_from(b0, b1, b2, b3, b4, b5, b6, b7), 4) == b4,
        bit(byte_from(b0, b1, b2, b3, b4, b5, b6, b7), 5) == b5,
        bit(byte_from(b0, b1, b2, b3, b4, b5, b6, b7), 6) == b6,
        bit(byte_from(b0, b1, b2, b3, b4, b5, b6, b7), 7) == b7,
{
    let x = byte_from(b0, b1, b2, b3, b4, b5, b6, b7);
    let x0 = if b0 { 1u8 } else { 0u8 };
    let x1 = if b1 { 2u8 } else { 0u8 };
    let x2 = if b2 { 4u8 } else { 0u8 };
    let x3 = if b3 { 8u8 } else { 0u8 };
    let x4 = if b4 { 16u8 } else { 0u8 };
    let x5 = if b5 { 32u8 } else { 0u8 };
    let x6 = if b6 { 64u8 } else { 0u8 };
    let x7 = if b7 { 128u8 } else { 0u8 };
    assert(x == x0 | x1 | x2 | x3 | x4 | x5 | x6 | x7);
    assert(((x >> 0u8) & 1u8 == 1u8) == (x0 == 1u8) && ((x >> 1u8) & 1u8 == 1u8) == (x1 == 2u8) && ((x
        >> 2u8) & 1u8 == 1u8) == (x2 == 4u8) && ((x >> 3u8) & 1u8 == 1u8) == (x3 == 8u8) && ((x >> 4u8)
        & 1u8 == 1u8) == (x4 == 16u8) && ((x >> 5u8) & 1u8 == 1u8) == (x5 == 32u8) && ((x >> 6u8) & 1u8
        == 1u8) == (x6 == 64u8) && ((x >> 7u8) & 1u8 == 1u8) == (x7 == 128u8)) by (bit_vector)
        requires
            x == x0 | x1 | x2 | x3 | x4 | x5 | x6 | x7,
            x0 == 0u8 || x0 == 1u8,
            x1 == 0u8 || x1 == 2u8,
            x2 == 0u8 || x2 == 4u8,
            x3 == 0u8 || x3 == 8u8,
            x4 == 0u8 || x4 == 16u8,
            x5 == 0u8 || x5 == 32u8,
            x6 == 0u8 || x6 == 64u8,
            x7 == 0u8 || x7 == 128u8,
    ;
}

/// Two bytes with the same eight bits are equal.
pub proof fn lemma_byte_ext(a: u8, b: u8)
    requires
        forall|k: u8| k < 8 ==> bit(a, k) == bit(b, k),
    ensures
        a == b,
{
    assert(bit(a, 0) == bit(b, 0));
    assert(bit(a, 1) == bit(b, 1));
    assert(bit(a, 2) == bit(b, 2));
    assert(bit(a, 3) == bit(b, 3));
    assert(bit(a, 4) == bit(b, 4));
    assert(bit(a, 5) == bit(b, 5));
    assert(bit(a, 6) == bit(b, 6));
    assert(bit(a, 7) == bit(b, 7));
    assert(a == b) by (bit_vector)
        requires
            ((a >> 0u8) & 1u8 == 1u8) == ((b >> 0u8) & 1u8 == 1u8),
            ((a >> 1u8) & 1u8 == 1u8) == ((b >> 1u8) & 1u8 == 1u8),
            ((a >> 2u8) & 1u8 == 1u8) == ((b >> 2u8) & 1u8 == 1u8),
            ((a >> 3u8) & 1u8 == 1u8) == ((b >> 3u8) & 1u8 == 1u8),
            ((a >> 4u8) & 1u8 == 1u8) == ((b >> 4u8) & 1u8 == 1u8),
            ((a >> 5u8) & 1u8 == 1u8) == ((b >> 5u8) & 1u8 == 1u8),
            ((a >> 6u8) & 1u8 == 1u8) == ((b >> 6u8) & 1u8 == 1u8),
            ((a >> 7u8) & 1u8 == 1u8) == ((b >> 7u8) & 1u8 == 1u8),
    ;
}

/// Bit `i` of `pack(bits)` is bit `i` of `bits`, and zero in the padding.
pub proof fn lemma_bits_of_pack(bits: Seq<bool>)
    ensures
        bits_of(pack(bits)).len() == 8 * byte_len(bits.len() as int),
        forall|i: int|
            0 <= i < 8 * byte_len(bits.len() as int) ==> #[trigger] bits_of(pack(bits))[i]
                == bit_or_zero(bits, i),
{
    assert forall|i: int| 0 <= i < 8 * byte_len(bits.len() as int) implies #[trigger] bits_of(
        pack(bits),
    )[i] == bit_or_zero(bits, i) by {
        let j = i / 8;
        lemma_byte_from_bits(
            bit_or_zero(bits, 8 * j),
            bit_or_zero(bits, 8 * j + 1),
            bit_or_zero(bits, 8 * j + 2),
            bit_or_zero(bits, 8 * j + 3),
            bit_or_zero(bits, 8 * j + 4),
            bit_or_zero(bits, 8 * j + 5),
            bit_or_zero(bits, 8 * j + 6),
            bit_or_zero(bits, 8 * j + 7),
        );
    }
}

/// `bytes` are the bytes that hold `bits`, if each of their bits says so.
pub proof fn lemma_pack_by_bits(bytes: Seq<u8>, bits: Seq<bool>)
    requires
        bytes.len() == byte_len(bits.len() as int),
        forall|j: int, t: u8|
            0 <= j < bytes.len() && t < 8 ==> #[trigger] bit(bytes[j], t) == bit_or_zero(
                bits,
                8 * j + t,
            ),
    ensures
        bytes == pack(bits),
{
    let p = pack(bits);
    assert forall|j: int| 0 <= j < bytes.len() implies bytes[j] == p[j] by {
        lemma_byte_from_bits(
            bit_or_zero(bits, 8 * j),
            bit_or_zero(bits, 8 * j + 1),
            bit_or_zero(bits, 8 * j + 2),
            bit_or_zero(bits, 8 * j + 3),
            bit_or_zero(bits, 8 * j + 4),
            bit_or_zero(bits, 8 * j + 5),
            bit_or_zero(bits, 8 * j + 6),
            bit_or_zero(bits, 8 * j + 7),
        );
        assert forall|t: u8| t < 8 implies bit(bytes[j], t) == bit(p[j], t) by {
            assert(bit(bytes[j], t) == bit_or_zero(bits, 8 * j + t));
        }
        lemma_byte_ext(bytes[j], p[j]);
    }
    assert(bytes =~= p);
}

/// Bits that follow whole bytes are packed behind these bytes.
pub proof fn lemma_pack_after_bytes(head: Seq<u8>, bits: Seq<bool>)
    ensures
        pack(bits_of(head) + bits) == head + pack(bits),
{
    let all = bits_of(head) + bits;
    let bytes = head + pack(bits);
    lemma_bits_of_pack(bits);
    assert forall|j: int, t: u8| 0 <= j < bytes.len() && t < 8 implies #[trigger] bit(
        bytes[j],
        t,
    ) == bit_or_zero(all, 8 * j + t) by {
        let i = 8 * j + t;
        assert(i / 8 == j && i % 8 == t as int);
        if j >= head.len() {
            let k = i - 8 * head.len();
            assert(k / 8 == j - head.len() && k % 8 == t as int);
            assert(bits_of(pack(bits))[k] == bit_or_zero(bits, k));
        }
    }
    lemma_pack_by_bits(bytes, all);
}

/// One bit is packed into the byte 1 or the byte 0.
pub proof fn lemma_pack_one_bit(b: bool)
    ensures
        pack(seq![b]) == seq![if b { 1u8 } else { 0u8 }],
{
    let bits = seq![b];
    let x = if b {
        1u8
    } else {
        0u8
    };
    let bytes = seq![x];
    assert forall|j: int, t: u8| 0 <= j < bytes.len() && t < 8 implies #[trigger] bit(
        bytes[j],
        t,
    ) == bit_or_zero(bits, 8 * j + t) by {
        assert(bit(x, t) == (t == 0 && b)) by (bit_vector)
            requires
                t < 8,
                x == (if b {
                    1u8
                } else {
                    0u8
                }),
        ;
    }
    lemma_pack_by_bits(bytes, bits);
}

/// Packs bits into bytes, the first bit into the lowest bit of the first
/// byte; the unused high bits of the last byte are zero.
pub fn pack_bits(bits: &Vec<bool>) -> (bytes: Vec<u8>)
    ensures
        bytes@ == pack(bits@),
{
    let n = bits.len();
    let count = if n % 8 == 0 {
        n / 8
    } else {
        n / 8 + 1
    };
    let mut bytes: Vec<u8> = Vec::new();
    let mut j: usize = 0;
    while j < count
        invariant
            j <= count,
            n == bits.len(),
            count == byte_len(n as int),
            bytes.len() == j,
            forall|i: int| 0 <= i < j ==> #[trigger] bytes@[i] == pack(bits@)[i],
        decreases count - j,
    {
        let base = 8 * j;
        let left = n - base;
        let b0 = bits[base];
        let b1 = left > 1 && bits[base + 1];
        let b2 = left > 2 && bits[base + 2];
        let b3 = left > 3 && bits[base + 3];
        let b4 = left > 4 && bits[base + 4];
        let b5 = left > 5 && bits[base + 5];
        let b6 = left > 6 && bits[base + 6];
        let b7 = left > 7 && bits[base + 7];
        let byte = (if b0 { 1u8 } else { 0u8 })
            | (if b1 { 2u8 } else { 0u8 })
            | (if b2 { 4u8 } else { 0u8 })
            | (if b3 { 8u8 } else { 0u8 })
            | (if b4 { 16u8 } else { 0u8 })
            | (if b5 { 32u8 } else { 0u8 })
            | (if b6 { 64u8 } else { 0u8 })
            | (if b7 { 128u8 } else { 0u8 });
        assert(byte == byte_from(b0, b1, b2, b3, b4, b5, b6, b7));
        bytes.push(byte);
        j += 1;
    }
    assert(bytes@ =~= pack(bits@));
    bytes
}

/// The four bytes of a word, the least significant first.
pub open spec fn le_bytes(c: u32) -> Seq<u8> {
    seq![
        (c & 0xff) as u8,
        ((c >> 8) & 0xff) as u8,
        ((c >> 16) & 0xff) as u8,
        ((c >> 24) & 0xff) as u8,
    ]
}

/// Byte `j` of a byte sequence, zero past its end.
pub open spec fn byte_or_zero(bytes: Seq<u8>, j: int) -> u8 {
    if 0 <= j < bytes.len() {
        bytes[j]
    } else {
        0
    }
}

/// The word whose bytes, the least significant first, are the first four of
/// `bytes`; bytes that are missing count as zero.
pub open spec fn le_word(bytes: Seq<u8>) -> u32 {
    (byte_or_zero(bytes, 0) as u32) | ((byte_or_zero(bytes, 1) as u32) << 8) | ((byte_or_zero(
        bytes,
        2,
    ) as u32) << 16) | ((byte_or_zero(bytes, 3) as u32) << 24)
}

/// The four bytes of `c`, the least significant first.
pub fn to_le_bytes(c: u32) -> (bytes: Vec<u8>)
    ensures
        bytes@ == le_bytes(c),
{
    let mut bytes: Vec<u8> = Vec::new();
    bytes.push((c & 0xff) as u8);
    bytes.push(((c >> 8) & 0xff) as u8);
    bytes.push(((c >> 16) & 0xff) as u8);
    bytes.push(((c >> 24) & 0xff) as u8);
    assert(bytes@ =~= le_bytes(c));
    bytes
}

/// The word that up to four bytes stand for, the least significant first.
pub fn from_le_bytes(seq: &[u8]) -> (c: u32)
    requires
        seq.len() <= 4,
    ensures
        c == le_word(seq@),
{
    let b0: u32 = if seq.len() > 0 {
        seq[0] as u32
    } else {
        0
    };
    let b1: u32 = if seq.len() > 1 {
        seq[1] as u32
    } else {
        0
    };
    let b2: u32 = if seq.len() > 2 {
        seq[2] as u32
    } else {
        0
    };
    let b3: u32 = if seq.len() > 3 {
        seq[3] as u32
    } else {
        0
    };
    assert((b1 << 8) <= 0xffff && (b2 << 16) <= 0xffffff) by (bit_vector)
        requires
            b1 <= 255,
            b2 <= 255,
    ;
    b0 | (b1 << 8) | (b2 << 16) | (b3 << 24)
}

/// The bytes of a word stand for the word.
pub proof fn lemma_le_round_trip(c: u32)
    ensures
        le_word(le_bytes(c)) == c,
{
    let b0 = (c & 0xff) as u8;
    let b1 = ((c >> 8) & 0xff) as u8;
    let b2 = ((c >> 16) & 0xff) as u8;
    let b3 = ((c >> 24) & 0xff) as u8;
    assert((b0 as u32) | ((b1 as u32) << 8) | ((b2 as u32) << 16) | ((b3 as u32) << 24) == c)
        by (bit_vector)
        requires
            b0 == (c & 0xff) as u8,
            b1 == ((c >> 8) & 0xff) as u8,
            b2 == ((c >> 16) & 0xff) as u8,
            b3 == ((c >> 24) & 0xff) as u8,
    ;
}

} // verus!
