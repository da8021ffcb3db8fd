use vstd::prelude::*;
use vstd::arithmetic::div_mod::{lemma_fundamental_div_mod_converse};
use crate::params::{N, Q};

verus! {

/// Bit `p` of a byte string, least significant bit of each byte first (BytesToBits).
pub open spec fn byte_bit(b: Seq<u8>, p: int) -> bool {
    (b[p / 8] >> ((p % 8) as u8)) & 1 == 1
}

/// Bit `p` of the bit string that lists the low `d` bits of each element of `f`,
/// least significant first (the inner loop of ByteEncode_d).
pub open spec fn coeff_bit(f: Seq<u16>, d: int, p: int) -> bool {
    (f[p / d] >> ((p % d) as u16)) & 1 == 1
}

/// Bit `l` of a byte.
pub open spec fn bit8(x: u8, l: int) -> bool {
    (x >> (l as u8)) & 1 == 1
}

/// Bit `j` of a 16-bit value.
pub open spec fn bit16(x: u16, j: int) -> bool {
    (x >> (j as u16)) & 1 == 1
}

/// The byte whose bit `l` is `b(l)`.
pub open spec fn u8_from_bits(b: spec_fn(int) -> bool) -> u8 {
    (if b(0) { 1u8 } else { 0u8 }) | (if b(1) { 2u8 } else { 0u8 }) | (if b(2) { 4u8 } else { 0u8 })
        | (if b(3) { 8u8 } else { 0u8 }) | (if b(4) { 16u8 } else { 0u8 }) | (if b(5) { 32u8 } else { 0u8 })
        | (if b(6) { 64u8 } else { 0u8 }) | (if b(7) { 128u8 } else { 0u8 })
}

/// The 16-bit value whose bit `j` is `b(j)`: a low byte and a high byte.
pub open spec fn u16_from_bits(b: spec_fn(int) -> bool) -> u16 {
    (u8_from_bits(b) as u16) | ((u8_from_bits(|j: int| b(j + 8)) as u16) << 8u16)
}

/// ByteEncode_d (FIPS 203, Alg. 5): the low `d` bits of each of the 256 elements,
/// packed least significant bit first into 32 * d bytes.
#[verifier::opaque]
pub open spec fn byte_encode_spec(f: Seq<u16>, d: int) -> Seq<u8> {
    Seq::new((32 * d) as nat, |k: int| u8_from_bits(|l: int| coeff_bit(f, d, 8 * k + l)))
}

/// ByteDecode_d (FIPS 203, Alg. 6) without the final reduction: element `i` is made
/// of bits `d * i .. d * i + d` of the input.
#[verifier::opaque]
pub open spec fn byte_decode_spec(b: Seq<u8>, d: int) -> Seq<u16> {
    Seq::new(256, |i: int| u16_from_bits(|j: int| j < d && byte_bit(b, d * i + j)))
}

pub proof fn lemma_encode_spec_len(f: Seq<u16>, d: int)
    requires
        d >= 0,
    ensures
        byte_encode_spec(f, d).len() == 32 * d,
{
    reveal(byte_encode_spec);
}

pub proof fn lemma_decode_spec_len(b: Seq<u8>, d: int)
    ensures
        byte_decode_spec(b, d).len() == 256,
{
    reveal(byte_decode_spec);
}

/// A byte equals the byte built from its own bits.
proof fn lemma_u8_bits(y: u8, b0: bool, b1: bool, b2: bool, b3: bool, b4: bool, b5: bool, b6: bool, b7: bool)
    requires
        ((y >> 0u8) & 1 == 1) == b0, ((y >> 1u8) & 1 == 1) == b1, ((y >> 2u8) & 1 == 1) == b2,
        ((y >> 3u8) & 1 == 1) == b3, ((y >> 4u8) & 1 == 1) == b4, ((y >> 5u8) & 1 == 1) == b5,
        ((y >> 6u8) & 1 == 1) == b6, ((y >> 7u8) & 1 == 1) == b7,
    ensures
        y == (if b0 { 1u8 } else { 0u8 }) | (if b1 { 2u8 } else { 0u8 }) | (if b2 { 4u8 } else { 0u8 })
            | (if b3 { 8u8 } else { 0u8 }) | (if b4 { 16u8 } else { 0u8 }) | (if b5 { 32u8 } else { 0u8 })
            | (if b6 { 64u8 } else { 0u8 }) | (if b7 { 128u8 } else { 0u8 }),
{
    assert(y == (if b0 { 1u8 } else { 0u8 }) | (if b1 { 2u8 } else { 0u8 }) | (if b2 { 4u8 } else { 0u8 })
            | (if b3 { 8u8 } else { 0u8 }) | (if b4 { 16u8 } else { 0u8 }) | (if b5 { 32u8 } else { 0u8 })
            | (if b6 { 64u8 } else { 0u8 }) | (if b7 { 128u8 } else { 0u8 })) by (bit_vector)
        requires
            ((y >> 0u8) & 1 == 1) == b0, ((y >> 1u8) & 1 == 1) == b1, ((y >> 2u8) & 1 == 1) == b2,
            ((y >> 3u8) & 1 == 1) == b3, ((y >> 4u8) & 1 == 1) == b4, ((y >> 5u8) & 1 == 1) == b5,
            ((y >> 6u8) & 1 == 1) == b6, ((y >> 7u8) & 1 == 1) == b7;
}

/// A byte is determined by its eight bits.
pub proof fn lemma_byte_from_bits(y: u8, b: spec_fn(int) -> bool)
    requires
        forall|l: int| 0 <= l < 8 ==> #[trigger] bit8(y, l) == b(l),
    ensures
        y == u8_from_bits(b),
{
    assert(bit8(y, 0) == b(0));
    assert(bit8(y, 1) == b(1));
    assert(bit8(y, 2) == b(2));
    assert(bit8(y, 3) == b(3));
    assert(bit8(y, 4) == b(4));
    assert(bit8(y, 5) == b(5));
    assert(bit8(y, 6) == b(6));
    assert(bit8(y, 7) == b(7));
    lemma_u8_bits(y, b(0), b(1), b(2), b(3), b(4), b(5), b(6), b(7));
}

/// Bit `l` of the byte built from `b` is `b(l)`.
pub proof fn lemma_bits_of_byte(b: spec_fn(int) -> bool, l: int)
    requires
        0 <= l < 8,
    ensures
        ((u8_from_bits(b) >> (l as u8)) & 1 == 1) == b(l),
{
    let y = u8_from_bits(b);
    let (b0, b1, b2, b3, b4, b5, b6, b7) = (b(0), b(1), b(2), b(3), b(4), b(5), b(6), b(7));
    let ll = l as u8;
    assert(((y >> ll) & 1 == 1) == (if ll == 0 { b0 } else if ll == 1 { b1 } else if ll == 2 { b2 }
        else if ll == 3 { b3 } else if ll == 4 { b4 } else if ll == 5 { b5 } else if ll == 6 { b6 } else { b7 }))
        by (bit_vector)
        requires
            ll < 8,
            y == (if b0 { 1u8 } else { 0u8 }) | (if b1 { 2u8 } else { 0u8 }) | (if b2 { 4u8 } else { 0u8 })
                | (if b3 { 8u8 } else { 0u8 }) | (if b4 { 16u8 } else { 0u8 }) | (if b5 { 32u8 } else { 0u8 })
                | (if b6 { 64u8 } else { 0u8 }) | (if b7 { 128u8 } else { 0u8 });
}


proof fn lemma_u16_halves(y: u16, lo: u8, hi: u8, j: u16)
    requires
        j < 16,
    ensures
        y == (lo as u16) | ((hi as u16) << 8u16) <==> (y as u8 == lo && (y >> 8u16) as u8 == hi),
        y == (lo as u16) | ((hi as u16) << 8u16) ==> ((y >> j) & 1 == 1) == (if j < 8 {
            (lo >> (j as u8)) & 1 == 1 } else { (hi >> ((j - 8) as u8)) & 1 == 1 }),
        (y >> j) & 1 == 1 <==> (if j < 8 { ((y as u8) >> (j as u8)) & 1 == 1 } else {
            (((y >> 8u16) as u8) >> ((j - 8) as u8)) & 1 == 1 }),
{
    assert((y == (lo as u16) | ((hi as u16) << 8u16) <==> (y as u8 == lo && (y >> 8u16) as u8 == hi))
        && (y == (lo as u16) | ((hi as u16) << 8u16) ==> ((y >> j) & 1 == 1) == (if j < 8 {
            (lo >> (j as u8)) & 1 == 1 } else { (hi >> ((j - 8) as u8)) & 1 == 1 }))
        && ((y >> j) & 1 == 1 <==> (if j < 8 { ((y as u8) >> (j as u8)) & 1 == 1 } else {
            (((y >> 8u16) as u8) >> ((j - 8) as u8)) & 1 == 1 }))) by (bit_vector)
        requires j < 16;
}

/// A 16-bit value is determined by its sixteen bits.
pub proof fn lemma_u16_from_bits(y: u16, b: spec_fn(int) -> bool)
    requires
        forall|j: int| 0 <= j < 16 ==> #[trigger] bit16(y, j) == b(j),
    ensures
        y == u16_from_bits(b),
{
    let lo = y as u8;
    let hi = (y >> 8u16) as u8;
    let bh = |j: int| b(j + 8);
    assert forall|l: int| 0 <= l < 8 implies #[trigger] bit8(lo, l) == b(l) by {
        lemma_u16_halves(y, lo, hi, l as u16);
        assert(bit16(y, l) == b(l));
    }
    assert forall|l: int| 0 <= l < 8 implies #[trigger] bit8(hi, l) == bh(l) by {
        lemma_u16_halves(y, lo, hi, (l + 8) as u16);
        assert(bit16(y, l + 8) == b(l + 8));
    }
    lemma_byte_from_bits(lo, b);
    lemma_byte_from_bits(hi, bh);
    lemma_u16_halves(y, lo, hi, 0);
}

/// Bit `j` of the value built from `b` is `b(j)`.
pub proof fn lemma_bits_of_u16(b: spec_fn(int) -> bool, j: int)
    requires
        0 <= j < 16,
    ensures
        ((u16_from_bits(b) >> (j as u16)) & 1 == 1) == b(j),
{
    let bh = |jj: int| b(jj + 8);
    let lo = u8_from_bits(b);
    let hi = u8_from_bits(bh);
    lemma_u16_halves(u16_from_bits(b), lo, hi, j as u16);
    if j < 8 {
        lemma_bits_of_byte(b, j);
    } else {
        lemma_bits_of_byte(bh, j - 8);
    }
}

/// Bit `d * base + c` of the element bit string is bit `c mod d` of element `base + c / d`.
pub proof fn lemma_coeff_bit_at(f: Seq<u16>, d: int, base: int, c: int)
    requires
        d > 0,
        c >= 0,
    ensures
        coeff_bit(f, d, d * base + c) == ((f[base + c / d] >> ((c % d) as u16)) & 1 == 1),
{
    vstd::arithmetic::div_mod::lemma_fundamental_div_mod(c, d);
    assert(d * base + c == (base + c / d) * d + c % d) by (nonlinear_arith)
        requires c == d * (c / d) + c % d;
    lemma_fundamental_div_mod_converse(d * base + c, d, base + c / d, c % d);
}

/// Bit `8 * base + c` of a byte string is bit `c mod 8` of byte `base + c / 8`.
pub proof fn lemma_byte_bit_at(b: Seq<u8>, base: int, c: int)
    requires
        c >= 0,
    ensures
        byte_bit(b, 8 * base + c) == ((b[base + c / 8] >> ((c % 8) as u8)) & 1 == 1),
{
    lemma_fundamental_div_mod_converse(8 * base + c, 8, base + c / 8, c % 8);
}

proof fn lemma_chunk1(x: u8, f0: u16, f1: u16, f2: u16, f3: u16, f4: u16, f5: u16, f6: u16, f7: u16, l: u8)
    requires
        l < 8,
        x == 0u8 | ((f0 & 1) as u8) | (((f1 & 1) as u8) << 1u8) | (((f2 & 1) as u8) << 2u8) | (((f3 & 1) as u8) << 3u8)
            | (((f4 & 1) as u8) << 4u8) | (((f5 & 1) as u8) << 5u8) | (((f6 & 1) as u8) << 6u8)
            | (((f7 & 1) as u8) << 7u8),
    ensures
        ((x >> l) & 1 == 1) == ((if l == 0 { f0 } else if l == 1 { f1 } else if l == 2 { f2 } else if l == 3 { f3 }
            else if l == 4 { f4 } else if l == 5 { f5 } else if l == 6 { f6 } else { f7 }) & 1 == 1),
{
    assert(((x >> l) & 1 == 1) == ((if l == 0 { f0 } else if l == 1 { f1 } else if l == 2 { f2 } else if l == 3 { f3 }
            else if l == 4 { f4 } else if l == 5 { f5 } else if l == 6 { f6 } else { f7 }) & 1 == 1)) by (bit_vector)
        requires
            l < 8,
            x == 0u8 | ((f0 & 1) as u8) | (((f1 & 1) as u8) << 1u8) | (((f2 & 1) as u8) << 2u8) | (((f3 & 1) as u8) << 3u8)
                | (((f4 & 1) as u8) << 4u8) | (((f5 & 1) as u8) << 5u8) | (((f6 & 1) as u8) << 6u8)
                | (((f7 & 1) as u8) << 7u8);
}

/// A byte whose bits are the element bits from position `d * base + off` on is byte
/// `k` of the encoding, where `8 * k == d * base + off`.
proof fn lemma_encoded_byte(f: Seq<u16>, d: int, k: int, x: u8, base: int, off: int)
    requires
        1 <= d,
        0 <= k < 32 * d,
        8 * k == d * base + off,
        off >= 0,
        forall|l: int| 0 <= l < 8 ==> #[trigger] bit8(x, l) == bit16(f[base + (off + l) / d], (off + l) % d),
    ensures
        x == byte_encode_spec(f, d)[k],
{
    assert forall|l: int| 0 <= l < 8 implies #[trigger] bit8(x, l) == coeff_bit(f, d, 8 * k + l) by {
        lemma_coeff_bit_at(f, d, base, off + l);
        assert(bit8(x, l) == bit16(f[base + (off + l) / d], (off + l) % d));
    }
    lemma_byte_from_bits(x, |l: int| coeff_bit(f, d, 8 * k + l));
    reveal(byte_encode_spec);
}

/// A value whose low `d` bits are the input bits from position `8 * base + off` on,
/// and whose other bits are clear, is element `m` of the decoding, where
/// `d * m == 8 * base + off`.
proof fn lemma_decoded_elem(b: Seq<u8>, d: int, m: int, v: u16, base: int, off: int)
    requires
        1 <= d <= 12,
        0 <= m < 256,
        d * m == 8 * base + off,
        off >= 0,
        forall|j: int| 0 <= j < 16 ==> #[trigger] bit16(v, j) == (j < d && bit8(b[base + (off + j) / 8], (off + j) % 8)),
    ensures
        v == byte_decode_spec(b, d)[m],
{
    assert forall|j: int| 0 <= j < 16 implies #[trigger] bit16(v, j) == (j < d && byte_bit(b, d * m + j)) by {
        lemma_byte_bit_at(b, base, off + j);
        assert(bit16(v, j) == (j < d && bit8(b[base + (off + j) / 8], (off + j) % 8)));
    }
    lemma_u16_from_bits(v, |j: int| j < d && byte_bit(b, d * m + j));
    reveal(byte_decode_spec);
}

/// ByteEncode_1.
pub fn byte_encode_1(f: [u16; N], enc: &mut [u8])
    requires
        old(enc)@.len() == 32,
    ensures
        final(enc)@ == byte_encode_spec(f@, 1),
{
    for i in 0..N / 8
        invariant
            enc@.len() == 32,
            forall|k: int| 0 <= k < i ==> enc@[k] == #[trigger] byte_encode_spec(f@, 1)[k],
    {
        let mut x = 0u8;
        x |= (f[i * 8 + 0] & 1) as u8;
        x |= ((f[i * 8 + 1] & 1) as u8) << 1u8;
        x |= ((f[i * 8 + 2] & 1) as u8) << 2u8;
        x |= ((f[i * 8 + 3] & 1) as u8) << 3u8;
        x |= ((f[i * 8 + 4] & 1) as u8) << 4u8;
        x |= ((f[i * 8 + 5] & 1) as u8) << 5u8;
        x |= ((f[i * 8 + 6] & 1) as u8) << 6u8;
        x |= ((f[i * 8 + 7] & 1) as u8) << 7u8;
        proof {
            let fs = f@;
            let ii = i as int;
            assert forall|l: int| 0 <= l < 8 implies #[trigger] bit8(x, l) == bit16(fs[8 * ii + (0 + l) / 1], (0 + l) % 1) by {
                lemma_chunk1(x, fs[8 * ii], fs[8 * ii + 1], fs[8 * ii + 2], fs[8 * ii + 3], fs[8 * ii + 4],
                    fs[8 * ii + 5], fs[8 * ii + 6], fs[8 * ii + 7], l as u8);
                let v = fs[8 * ii + l];
                lemma_shr0(v);
            }
            lemma_encoded_byte(fs, 1, ii, x, 8 * ii, 0);
        }
        enc[i] = x;
    }
    proof { lemma_encode_spec_len(f@, 1); }
    assert(enc@ =~= byte_encode_spec(f@, 1));
}


/// ByteDecode_1.
pub fn byte_decode_1(b: &[u8], f: &mut [u16; N])
    requires
        b@.len() == 32,
    ensures
        final(f)@ == byte_decode_spec(b@, 1),
{
    for i in 0..N
        invariant
            b@.len() == 32,
            forall|k: int| 0 <= k < i ==> f@[k] == #[trigger] byte_decode_spec(b@, 1)[k],
    {
        let byte = b[i / 8];
        let sh = i % 8;
        let v = ((byte >> sh) & 1) as u16;
        proof {
            let s8 = sh as u8;
            assert forall|j: int| 0 <= j < 16 implies #[trigger] bit16(v, j) == (j < 1
                && bit8(byte, (sh + j) % 8)) by {
                let jj = j as u16;
                assert(((v >> jj) & 1 == 1) == (jj < 1 && (byte >> s8) & 1 == 1)) by (bit_vector)
                    requires v == ((byte >> s8) & 1) as u16, s8 < 8;
            }
            lemma_decoded_elem(b@, 1, i as int, v, (i / 8) as int, sh as int);
        }
        f[i] = v;
    }
    proof { lemma_decode_spec_len(b@, 1); }
    assert(f@ =~= byte_decode_spec(b@, 1));
}

proof fn lemma_chunk4(x: u8, f0: u16, f1: u16, l: u16)
    requires
        l < 8,
        x == ((f0 as u8) & 0xF) | (((f1 as u8) & 0xF) << 4u8),
    ensures
        ((x >> (l as u8)) & 1 == 1) == (((if l < 4 { f0 } else { f1 }) >> (l % 4)) & 1 == 1),
{
    assert(((x >> (l as u8)) & 1 == 1) == (((if l < 4 { f0 } else { f1 }) >> (l % 4)) & 1 == 1)) by (bit_vector)
        requires l < 8, x == ((f0 as u8) & 0xF) | (((f1 as u8) & 0xF) << 4u8);
}

/// ByteEncode_4.
pub fn byte_encode_4(f: [u16; N], enc: &mut [u8])
    requires
        old(enc)@.len() >= 32 * 4,
    ensures
        final(enc)@.len() == old(enc)@.len(),
        final(enc)@.subrange(0, 128) == byte_encode_spec(f@, 4),
        final(enc)@.subrange(128, old(enc)@.len() as int) == old(enc)@.subrange(128, old(enc)@.len() as int),
{
    let ghost e0 = enc@;
    for i in 0..N / 2
        invariant
            enc@.len() == e0.len(),
            e0.len() >= 128,
            forall|k: int| 0 <= k < i ==> enc@[k] == #[trigger] byte_encode_spec(f@, 4)[k],
            forall|k: int| i <= k < e0.len() ==> enc@[k] == #[trigger] e0[k],
    {
        let x = (f[i * 2 + 0] as u8 & 0xF) | ((f[i * 2 + 1] as u8 & 0xF) << 4u8);
        proof {
            let fs = f@;
            let ii = i as int;
            assert forall|l: int| 0 <= l < 8 implies #[trigger] bit8(x, l) == bit16(fs[2 * ii + (0 + l) / 4], (0 + l) % 4) by {
                lemma_chunk4(x, fs[2 * ii], fs[2 * ii + 1], l as u16);
            }
            lemma_encoded_byte(fs, 4, ii, x, 2 * ii, 0);
        }
        enc[i] = x;
    }
    proof { lemma_encode_spec_len(f@, 4); }
    assert(enc@.subrange(0, 128) =~= byte_encode_spec(f@, 4));
    assert(enc@.subrange(128, e0.len() as int) =~= e0.subrange(128, e0.len() as int));
}

/// ByteDecode_4.
pub fn byte_decode_4(b: &[u8], f: &mut [u16; N])
    requires
        b@.len() == 32 * 4,
    ensures
        final(f)@ == byte_decode_spec(b@, 4),
{
    for i in 0..N / 2
        invariant
            b@.len() == 128,
            forall|k: int| 0 <= k < 2 * i ==> f@[k] == #[trigger] byte_decode_spec(b@, 4)[k],
    {
        let byte = b[i];
        let v0 = (byte & 0x0F) as u16;
        let v1 = ((byte >> 4u8) & 0x0F) as u16;
        proof {
            let ii = i as int;
            assert forall|j: int| 0 <= j < 16 implies #[trigger] bit16(v0, j) == (j < 4
                && bit8(b@[ii + (0 + j) / 8], (0 + j) % 8)) by {
                let jj = j as u16;
                assert(((v0 >> jj) & 1 == 1) == (jj < 4 && (byte >> ((jj % 8) as u8)) & 1 == 1)) by (bit_vector)
                    requires v0 == (byte & 0x0F) as u16, jj < 16;
            }
            lemma_decoded_elem(b@, 4, 2 * ii, v0, ii, 0);
            assert forall|j: int| 0 <= j < 16 implies #[trigger] bit16(v1, j) == (j < 4
                && bit8(b@[ii + (4 + j) / 8], (4 + j) % 8)) by {
                let jj = j as u16;
                assert(((v1 >> jj) & 1 == 1) == (jj < 4 && (byte >> (((4 + jj) % 8) as u8)) & 1 == 1)) by (bit_vector)
                    requires v1 == ((byte >> 4u8) & 0x0F) as u16, jj < 16;
            }
            lemma_decoded_elem(b@, 4, 2 * ii + 1, v1, ii, 4);
        }
        f[i * 2 + 0] = v0;
        f[i * 2 + 1] = v1;
    }
    proof { lemma_decode_spec_len(b@, 4); }
    assert(f@ =~= byte_decode_spec(b@, 4));
}


proof fn lemma_chunk12_enc(x: u32, f0: u16, f1: u16, y0: u8, y1: u8, y2: u8, t: u32, l: u32)
    requires
        t < 3,
        l < 8,
        x == 0u32 | (((f0 & 0xFFF) as u32) | (((f1 & 0xFFF) as u32) << 12u32)),
        y0 == x as u8,
        y1 == (x >> 8u32) as u8,
        y2 == (x >> 16u32) as u8,
    ensures
        (((if t == 0 { y0 } else if t == 1 { y1 } else { y2 }) >> (l as u8)) & 1 == 1) == ((((if (8 * t + l) / 12 == 0 { f0 } else { f1 })
            >> (((8 * t + l) % 12) as u16)) & 1) == 1),
{
    assert((((if t == 0 { y0 } else if t == 1 { y1 } else { y2 }) >> (l as u8)) & 1 == 1) == ((((if (8 * t + l) / 12 == 0 { f0 } else { f1 })
            >> (((8 * t + l) % 12) as u16)) & 1) == 1)) by (bit_vector)
        requires
            t < 3,
            l < 8,
            x == 0u32 | (((f0 & 0xFFF) as u32) | (((f1 & 0xFFF) as u32) << 12u32)),
            y0 == x as u8,
            y1 == (x >> 8u32) as u8,
            y2 == (x >> 16u32) as u8;
}

/// ByteEncode_12, two elements into three bytes at a time; the bit-serial encoder
/// gives the same bytes, as the proof shows.
pub fn byte_encode_12(f: [u16; N], enc: &mut [u8])
    requires
        old(enc)@.len() == 32 * 12,
    ensures
        final(enc)@ == byte_encode_spec(f@, 12),
{
    for i in 0..N / 2
        invariant
            enc@.len() == 384,
            forall|k: int| 0 <= k < 3 * i ==> enc@[k] == #[trigger] byte_encode_spec(f@, 12)[k],
    {
        let mut x = 0u32;
        x |= (f[i * 2 + 0] & 0xFFF) as u32 | (((f[i * 2 + 1] & 0xFFF) as u32) << 12u32);
        let y0 = x as u8;
        let y1 = (x >> 8u32) as u8;
        let y2 = (x >> 16u32) as u8;
        proof {
            let fs = f@;
            let ii = i as int;
            assert forall|t: int| 0 <= t < 3 implies #[trigger] byte_encode_spec(fs, 12)[3 * ii + t]
                == (if t == 0 { y0 } else if t == 1 { y1 } else { y2 }) by {
                let yt = if t == 0 { y0 } else if t == 1 { y1 } else { y2 };
                assert forall|l: int| 0 <= l < 8 implies #[trigger] bit8(yt, l) == bit16(fs[2 * ii + (8 * t + l) / 12], (8 * t + l) % 12) by {
                    lemma_chunk12_enc(x, fs[2 * ii], fs[2 * ii + 1], y0, y1, y2, t as u32, l as u32);
                }
                lemma_encoded_byte(fs, 12, 3 * ii + t, yt, 2 * ii, 8 * t);
            }
            assert(byte_encode_spec(fs, 12)[3 * ii + 0] == y0);
            assert(byte_encode_spec(fs, 12)[3 * ii + 1] == y1);
            assert(byte_encode_spec(fs, 12)[3 * ii + 2] == y2);
        }
        enc[3 * i] = y0;
        enc[3 * i + 1] = y1;
        enc[3 * i + 2] = y2;
    }
    proof { lemma_encode_spec_len(f@, 12); }
    assert(enc@ =~= byte_encode_spec(f@, 12));
    let mut bssl_enc = [0u8; 384];
    _byte_encode_bssl_(f, &mut bssl_enc, 12);
    assert(bssl_enc@.subrange(0, 384) =~= bssl_enc@);
    assert(enc@ == bssl_enc@);
}

proof fn lemma_chunk12_dec(x: u32, b0: u8, b1: u8, b2: u8, v0: u16, v1: u16, e: u32, j: u32)
    requires
        e < 2,
        j < 16,
        x == 0u32 | ((b0 as u32) | ((b1 as u32) << 8u32) | ((b2 as u32) << 16u32)),
        v0 == (x as u16) & 0xFFF,
        v1 == ((x >> 12u32) as u16) & 0xFFF,
    ensures
        (((if e == 0 { v0 } else { v1 }) >> (j as u16)) & 1 == 1) == (j < 12 && (((if (12 * e + j) / 8 == 0 { b0 }
            else if (12 * e + j) / 8 == 1 { b1 } else { b2 }) >> (((12 * e + j) % 8) as u8)) & 1 == 1)),
{
    assert((((if e == 0 { v0 } else { v1 }) >> (j as u16)) & 1 == 1) == (j < 12 && (((if (12 * e + j) / 8 == 0 { b0 }
            else if (12 * e + j) / 8 == 1 { b1 } else { b2 }) >> (((12 * e + j) % 8) as u8)) & 1 == 1))) by (bit_vector)
        requires
            e < 2,
            j < 16,
            x == 0u32 | ((b0 as u32) | ((b1 as u32) << 8u32) | ((b2 as u32) << 16u32)),
            v0 == (x as u16) & 0xFFF,
            v1 == ((x >> 12u32) as u16) & 0xFFF;
}

/// ByteDecode_d as FIPS 203 (Alg. 6) defines it: the `d`-bit values, reduced modulo
/// m = 2^d for d < 12 (where they are below m already) and modulo m = q for d = 12.
pub open spec fn byte_decode_q(b: Seq<u8>, d: int) -> Seq<u16> {
    if d == 12 {
        Seq::new(256, |i: int| (byte_decode_spec(b, 12)[i] % 3329) as u16)
    } else {
        byte_decode_spec(b, d)
    }
}

/// ByteDecode_12, three bytes into two elements at a time, each reduced modulo q.
pub fn byte_decode_12(b: &[u8], f: &mut [u16; N])
    requires
        b@.len() == 32 * 12,
    ensures
        final(f)@ == byte_decode_q(b@, 12),
{
    for i in 0..N / 2
        invariant
            b@.len() == 384,
            forall|k: int| 0 <= k < 2 * i ==> f@[k] == #[trigger] byte_decode_q(b@, 12)[k],
    {
        let mut x = 0u32;
        x |= b[i * 3 + 0] as u32 | (b[i * 3 + 1] as u32) << 8u32 | (b[i * 3 + 2] as u32) << 16u32;
        let v0 = x as u16 & 0xFFF;
        let v1 = (x >> 12u32) as u16 & 0xFFF;
        proof {
            let bs = b@;
            let ii = i as int;
            assert forall|e: int| 0 <= e < 2 implies #[trigger] byte_decode_spec(bs, 12)[2 * ii + e]
                == (if e == 0 { v0 } else { v1 }) by {
                let ve = if e == 0 { v0 } else { v1 };
                assert forall|j: int| 0 <= j < 16 implies #[trigger] bit16(ve, j) == (j < 12 && bit8(bs[3 * ii + (12 * e + j) / 8], (12 * e + j) % 8)) by {
                    lemma_chunk12_dec(x, bs[3 * ii], bs[3 * ii + 1], bs[3 * ii + 2], v0, v1, e as u32, j as u32);
                }
                lemma_decoded_elem(bs, 12, 2 * ii + e, ve, 3 * ii, 12 * e);
            }
        }
        assert(v0 <= 0xFFF && v1 <= 0xFFF) by (bit_vector)
            requires v0 == (x as u16) & 0xFFF, v1 == ((x >> 12u32) as u16) & 0xFFF;
        let r0 = if v0 >= Q as u16 { v0 - Q as u16 } else { v0 };
        let r1 = if v1 >= Q as u16 { v1 - Q as u16 } else { v1 };
        proof {
            lemma_reduce_below_2q(v0 as int);
            lemma_reduce_below_2q(v1 as int);
        }
        f[i * 2 + 0] = r0;
        f[i * 2 + 1] = r1;
    }
    assert(f@ =~= byte_decode_q(b@, 12));
}

/// A value below 2q less q when it is at least q is its residue modulo q.
proof fn lemma_reduce_below_2q(v: int)
    requires
        0 <= v < 2 * 3329,
    ensures
        (if v >= 3329 { v - 3329 } else { v }) == v % 3329,
{
    if v >= 3329 {
        lemma_fundamental_div_mod_converse(v, 3329, 1, v - 3329);
    } else {
        lemma_fundamental_div_mod_converse(v, 3329, 0, v);
    }
}

proof fn lemma_encode10_chunk(fs: Seq<u16>, ii: int, x: u64, y0: u8, y1: u8, y2: u8, y3: u8, y4: u8)
    requires
        fs.len() == 256,
        0 <= ii < 64,
        x == ((((0u64 | ((fs[4 * ii + 0] & 0x3FF) as u64)) | (((fs[4 * ii + 1] & 0x3FF) as u64) << 10u64)) | (((fs[4 * ii + 2] & 0x3FF) as u64) << 20u64)) | (((fs[4 * ii + 3] & 0x3FF) as u64) << 30u64)),
        y0 == x as u8,
        y1 == (x >> 8u64) as u8,
        y2 == (x >> 16u64) as u8,
        y3 == (x >> 24u64) as u8,
        y4 == (x >> 32u64) as u8,
    ensures
        byte_encode_spec(fs, 10)[5 * ii + 0] == y0,
        byte_encode_spec(fs, 10)[5 * ii + 1] == y1,
        byte_encode_spec(fs, 10)[5 * ii + 2] == y2,
        byte_encode_spec(fs, 10)[5 * ii + 3] == y3,
        byte_encode_spec(fs, 10)[5 * ii + 4] == y4,
{
    assert forall|t: int| 0 <= t < 5 implies #[trigger] byte_encode_spec(fs, 10)[5 * ii + t]
                == (if t == 0 { y0 } else if t == 1 { y1 } else if t == 2 { y2 } else if t == 3 { y3 } else { y4 }) by {
        let yt = (if t == 0 { y0 } else if t == 1 { y1 } else if t == 2 { y2 } else if t == 3 { y3 } else { y4 });
        assert forall|l: int| 0 <= l < 8 implies #[trigger] bit8(yt, l) == bit16(fs[4 * ii + (8 * t + l) / 10], (8 * t + l) % 10) by {
            lemma_chunk10_enc(x, fs[4 * ii + 0], fs[4 * ii + 1], fs[4 * ii + 2], fs[4 * ii + 3], y0, y1, y2, y3, y4, t as u64, l as u64);
        }
        lemma_encoded_byte(fs, 10, 5 * ii + t, yt, 4 * ii, 8 * t);
    }
    assert(byte_encode_spec(fs, 10)[5 * ii + 0] == y0);
    assert(byte_encode_spec(fs, 10)[5 * ii + 1] == y1);
    assert(byte_encode_spec(fs, 10)[5 * ii + 2] == y2);
    assert(byte_encode_spec(fs, 10)[5 * ii + 3] == y3);
    assert(byte_encode_spec(fs, 10)[5 * ii + 4] == y4);
}

proof fn lemma_chunk10_enc(x: u64, f0: u16, f1: u16, f2: u16, f3: u16, y0: u8, y1: u8, y2: u8, y3: u8, y4: u8, t: u64, l: u64)
    requires
        t < 5,
        l < 8,
        x == ((((0u64 | ((f0 & 0x3FF) as u64)) | (((f1 & 0x3FF) as u64) << 10u64)) | (((f2 & 0x3FF) as u64) << 20u64)) | (((f3 & 0x3FF) as u64) << 30u64)),
        y0 == x as u8,
        y1 == (x >> 8u64) as u8,
        y2 == (x >> 16u64) as u8,
        y3 == (x >> 24u64) as u8,
        y4 == (x >> 32u64) as u8,
    ensures
        (((if t == 0 { y0 } else if t == 1 { y1 } else if t == 2 { y2 } else if t == 3 { y3 } else { y4 }) >> (l as u8)) & 1 == 1) == (((if (8 * t + l) / 10 == 0 { f0 } else if (8 * t + l) / 10 == 1 { f1 } else if (8 * t + l) / 10 == 2 { f2 } else { f3 }) >> (((8 * t + l) % 10) as u16)) & 1 == 1),
{
    assert((((if t == 0 { y0 } else if t == 1 { y1 } else if t == 2 { y2 } else if t == 3 { y3 } else { y4 }) >> (l as u8)) & 1 == 1) == (((if (8 * t + l) / 10 == 0 { f0 } else if (8 * t + l) / 10 == 1 { f1 } else if (8 * t + l) / 10 == 2 { f2 } else { f3 }) >> (((8 * t + l) % 10) as u16)) & 1 == 1)) by (bit_vector)
        requires
            t < 5,
            l < 8,
            x == ((((0u64 | ((f0 & 0x3FF) as u64)) | (((f1 & 0x3FF) as u64) << 10u64)) | (((f2 & 0x3FF) as u64) << 20u64)) | (((f3 & 0x3FF) as u64) << 30u64)),
            y0 == x as u8,
            y1 == (x >> 8u64) as u8,
            y2 == (x >> 16u64) as u8,
            y3 == (x >> 24u64) as u8,
            y4 == (x >> 32u64) as u8;
}

/// ByteEncode_10, four elements into five bytes at a time.
pub fn byte_encode_10(f: [u16; N], enc: &mut [u8])
    requires
        old(enc)@.len() >= 320,
    ensures
        final(enc)@.len() == old(enc)@.len(),
        final(enc)@.subrange(0, 320) == byte_encode_spec(f@, 10),
        final(enc)@.subrange(320, old(enc)@.len() as int) == old(enc)@.subrange(320, old(enc)@.len() as int),
{
    let ghost e0 = enc@;
    for i in 0..N / 4
        invariant
            enc@.len() == e0.len(),
            e0.len() >= 320,
            forall|k: int| 5 * i <= k < e0.len() ==> enc@[k] == #[trigger] e0[k],
            forall|k: int| 0 <= k < 5 * i ==> enc@[k] == #[trigger] byte_encode_spec(f@, 10)[k],
    {
        let mut x: u64 = 0;
        x |= ((f[i * 4 + 0] & 0x3FF) as u64);
        x |= (((f[i * 4 + 1] & 0x3FF) as u64) << 10u64);
        x |= (((f[i * 4 + 2] & 0x3FF) as u64) << 20u64);
        x |= (((f[i * 4 + 3] & 0x3FF) as u64) << 30u64);
        let y0 = x as u8;
        let y1 = (x >> 8u64) as u8;
        let y2 = (x >> 16u64) as u8;
        let y3 = (x >> 24u64) as u8;
        let y4 = (x >> 32u64) as u8;
        proof {
            lemma_encode10_chunk(f@, i as int, x, y0, y1, y2, y3, y4);
        }
        enc[i * 5 + 0] = y0;
        enc[i * 5 + 1] = y1;
        enc[i * 5 + 2] = y2;
        enc[i * 5 + 3] = y3;
        enc[i * 5 + 4] = y4;
    }
    proof { lemma_encode_spec_len(f@, 10); }
    assert(enc@.subrange(0, 320) =~= byte_encode_spec(f@, 10));
    assert(enc@.subrange(320, e0.len() as int) =~= e0.subrange(320, e0.len() as int));
}

proof fn lemma_encode5_chunk(fs: Seq<u16>, ii: int, x: u64, y0: u8, y1: u8, y2: u8, y3: u8, y4: u8)
    requires
        fs.len() == 256,
        0 <= ii < 32,
        x == ((((((((0u64 | ((fs[8 * ii + 0] as u64) & 0x1F)) | (((fs[8 * ii + 1] as u64) & 0x1F) << 5u64)) | (((fs[8 * ii + 2] as u64) & 0x1F) << 10u64)) | (((fs[8 * ii + 3] as u64) & 0x1F) << 15u64)) | (((fs[8 * ii + 4] as u64) & 0x1F) << 20u64)) | (((fs[8 * ii + 5] as u64) & 0x1F) << 25u64)) | (((fs[8 * ii + 6] as u64) & 0x1F) << 30u64)) | (((fs[8 * ii + 7] as u64) & 0x1F) << 35u64)),
        y0 == x as u8,
        y1 == (x >> 8u64) as u8,
        y2 == (x >> 16u64) as u8,
        y3 == (x >> 24u64) as u8,
        y4 == (x >> 32u64) as u8,
    ensures
        byte_encode_spec(fs, 5)[5 * ii + 0] == y0,
        byte_encode_spec(fs, 5)[5 * ii + 1] == y1,
        byte_encode_spec(fs, 5)[5 * ii + 2] == y2,
        byte_encode_spec(fs, 5)[5 * ii + 3] == y3,
        byte_encode_spec(fs, 5)[5 * ii + 4] == y4,
{
    assert forall|t: int| 0 <= t < 5 implies #[trigger] byte_encode_spec(fs, 5)[5 * ii + t]
                == (if t == 0 { y0 } else if t == 1 { y1 } else if t == 2 { y2 } else if t == 3 { y3 } else { y4 }) by {
        let yt = (if t == 0 { y0 } else if t == 1 { y1 } else if t == 2 { y2 } else if t == 3 { y3 } else { y4 });
        assert forall|l: int| 0 <= l < 8 implies #[trigger] bit8(yt, l) == bit16(fs[8 * ii + (8 * t + l) / 5], (8 * t + l) % 5) by {
            lemma_chunk5_enc(x, fs[8 * ii + 0], fs[8 * ii + 1], fs[8 * ii + 2], fs[8 * ii + 3], fs[8 * ii + 4], fs[8 * ii + 5], fs[8 * ii + 6], fs[8 * ii + 7], y0, y1, y2, y3, y4, t as u64, l as u64);
        }
        lemma_encoded_byte(fs, 5, 5 * ii + t, yt, 8 * ii, 8 * t);
    }
    assert(byte_encode_spec(fs, 5)[5 * ii + 0] == y0);
    assert(byte_encode_spec(fs, 5)[5 * ii + 1] == y1);
    assert(byte_encode_spec(fs, 5)[5 * ii + 2] == y2);
    assert(byte_encode_spec(fs, 5)[5 * ii + 3] == y3);
    assert(byte_encode_spec(fs, 5)[5 * ii + 4] == y4);
}

proof fn lemma_chunk5_enc(x: u64, f0: u16, f1: u16, f2: u16, f3: u16, f4: u16, f5: u16, f6: u16, f7: u16, y0: u8, y1: u8, y2: u8, y3: u8, y4: u8, t: u64, l: u64)
    requires
        t < 5,
        l < 8,
        x == ((((((((0u64 | ((f0 as u64) & 0x1F)) | (((f1 as u64) & 0x1F) << 5u64)) | (((f2 as u64) & 0x1F) << 10u64)) | (((f3 as u64) & 0x1F) << 15u64)) | (((f4 as u64) & 0x1F) << 20u64)) | (((f5 as u64) & 0x1F) << 25u64)) | (((f6 as u64) & 0x1F) << 30u64)) | (((f7 as u64) & 0x1F) << 35u64)),
        y0 == x as u8,
        y1 == (x >> 8u64) as u8,
        y2 == (x >> 16u64) as u8,
        y3 == (x >> 24u64) as u8,
        y4 == (x >> 32u64) as u8,
    ensures
        (((if t == 0 { y0 } else if t == 1 { y1 } else if t == 2 { y2 } else if t == 3 { y3 } else { y4 }) >> (l as u8)) & 1 == 1) == (((if (8 * t + l) / 5 == 0 { f0 } else if (8 * t + l) / 5 == 1 { f1 } else if (8 * t + l) / 5 == 2 { f2 } else if (8 * t + l) / 5 == 3 { f3 } else if (8 * t + l) / 5 == 4 { f4 } else if (8 * t + l) / 5 == 5 { f5 } else if (8 * t + l) / 5 == 6 { f6 } else { f7 }) >> (((8 * t + l) % 5) as u16)) & 1 == 1),
{
    assert((((if t == 0 { y0 } else if t == 1 { y1 } else if t == 2 { y2 } else if t == 3 { y3 } else { y4 }) >> (l as u8)) & 1 == 1) == (((if (8 * t + l) / 5 == 0 { f0 } else if (8 * t + l) / 5 == 1 { f1 } else if (8 * t + l) / 5 == 2 { f2 } else if (8 * t + l) / 5 == 3 { f3 } else if (8 * t + l) / 5 == 4 { f4 } else if (8 * t + l) / 5 == 5 { f5 } else if (8 * t + l) / 5 == 6 { f6 } else { f7 }) >> (((8 * t + l) % 5) as u16)) & 1 == 1)) by (bit_vector)
        requires
            t < 5,
            l < 8,
            x == ((((((((0u64 | ((f0 as u64) & 0x1F)) | (((f1 as u64) & 0x1F) << 5u64)) | (((f2 as u64) & 0x1F) << 10u64)) | (((f3 as u64) & 0x1F) << 15u64)) | (((f4 as u64) & 0x1F) << 20u64)) | (((f5 as u64) & 0x1F) << 25u64)) | (((f6 as u64) & 0x1F) << 30u64)) | (((f7 as u64) & 0x1F) << 35u64)),
            y0 == x as u8,
            y1 == (x >> 8u64) as u8,
            y2 == (x >> 16u64) as u8,
            y3 == (x >> 24u64) as u8,
            y4 == (x >> 32u64) as u8;
}

/// ByteEncode_5, eight elements into five bytes at a time.
pub fn byte_encode_5(f: [u16; N], enc: &mut [u8])
    requires
        old(enc)@.len() >= 160,
    ensures
        final(enc)@.len() == old(enc)@.len(),
        final(enc)@.subrange(0, 160) == byte_encode_spec(f@, 5),
        final(enc)@.subrange(160, old(enc)@.len() as int) == old(enc)@.subrange(160, old(enc)@.len() as int),
{
    let ghost e0 = enc@;
    for i in 0..N / 8
        invariant
            enc@.len() == e0.len(),
            e0.len() >= 160,
            forall|k: int| 5 * i <= k < e0.len() ==> enc@[k] == #[trigger] e0[k],
            forall|k: int| 0 <= k < 5 * i ==> enc@[k] == #[trigger] byte_encode_spec(f@, 5)[k],
    {
        let mut x: u64 = 0;
        x |= ((f[i * 8 + 0] as u64) & 0x1F);
        x |= (((f[i * 8 + 1] as u64) & 0x1F) << 5u64);
        x |= (((f[i * 8 + 2] as u64) & 0x1F) << 10u64);
        x |= (((f[i * 8 + 3] as u64) & 0x1F) << 15u64);
        x |= (((f[i * 8 + 4] as u64) & 0x1F) << 20u64);
        x |= (((f[i * 8 + 5] as u64) & 0x1F) << 25u64);
        x |= (((f[i * 8 + 6] as u64) & 0x1F) << 30u64);
        x |= (((f[i * 8 + 7] as u64) & 0x1F) << 35u64);
        let y0 = x as u8;
        let y1 = (x >> 8u64) as u8;
        let y2 = (x >> 16u64) as u8;
        let y3 = (x >> 24u64) as u8;
        let y4 = (x >> 32u64) as u8;
        proof {
            lemma_encode5_chunk(f@, i as int, x, y0, y1, y2, y3, y4);
        }
        enc[i * 5 + 0] = y0;
        enc[i * 5 + 1] = y1;
        enc[i * 5 + 2] = y2;
        enc[i * 5 + 3] = y3;
        enc[i * 5 + 4] = y4;
    }
    proof { lemma_encode_spec_len(f@, 5); }
    assert(enc@.subrange(0, 160) =~= byte_encode_spec(f@, 5));
    assert(enc@.subrange(160, e0.len() as int) =~= e0.subrange(160, e0.len() as int));
}

proof fn lemma_encode11_chunk(fs: Seq<u16>, ii: int, x: u128, y0: u8, y1: u8, y2: u8, y3: u8, y4: u8, y5: u8, y6: u8, y7: u8, y8: u8, y9: u8, y10: u8)
    requires
        fs.len() == 256,
        0 <= ii < 32,
        x == ((((((((0u128 | ((fs[8 * ii + 0] & 0x7FF) as u128)) | (((fs[8 * ii + 1] & 0x7FF) as u128) << 11u128)) | (((fs[8 * ii + 2] & 0x7FF) as u128) << 22u128)) | (((fs[8 * ii + 3] & 0x7FF) as u128) << 33u128)) | (((fs[8 * ii + 4] & 0x7FF) as u128) << 44u128)) | (((fs[8 * ii + 5] & 0x7FF) as u128) << 55u128)) | (((fs[8 * ii + 6] & 0x7FF) as u128) << 66u128)) | (((fs[8 * ii + 7] & 0x7FF) as u128) << 77u128)),
        y0 == x as u8,
        y1 == (x >> 8u128) as u8,
        y2 == (x >> 16u128) as u8,
        y3 == (x >> 24u128) as u8,
        y4 == (x >> 32u128) as u8,
        y5 == (x >> 40u128) as u8,
        y6 == (x >> 48u128) as u8,
        y7 == (x >> 56u128) as u8,
        y8 == (x >> 64u128) as u8,
        y9 == (x >> 72u128) as u8,
        y10 == (x >> 80u128) as u8,
    ensures
        byte_encode_spec(fs, 11)[11 * ii + 0] == y0,
        byte_encode_spec(fs, 11)[11 * ii + 1] == y1,
        byte_encode_spec(fs, 11)[11 * ii + 2] == y2,
        byte_encode_spec(fs, 11)[11 * ii + 3] == y3,
        byte_encode_spec(fs, 11)[11 * ii + 4] == y4,
        byte_encode_spec(fs, 11)[11 * ii + 5] == y5,
        byte_encode_spec(fs, 11)[11 * ii + 6] == y6,
        byte_encode_spec(fs, 11)[11 * ii + 7] == y7,
        byte_encode_spec(fs, 11)[11 * ii + 8] == y8,
        byte_encode_spec(fs, 11)[11 * ii + 9] == y9,
        byte_encode_spec(fs, 11)[11 * ii + 10] == y10,
{
    assert forall|t: int| 0 <= t < 11 implies #[trigger] byte_encode_spec(fs, 11)[11 * ii + t]
                == (if t == 0 { y0 } else if t == 1 { y1 } else if t == 2 { y2 } else if t == 3 { y3 } else if t == 4 { y4 } else if t == 5 { y5 } else if t == 6 { y6 } else if t == 7 { y7 } else if t == 8 { y8 } else if t == 9 { y9 } else { y10 }) by {
        let yt = (if t == 0 { y0 } else if t == 1 { y1 } else if t == 2 { y2 } else if t == 3 { y3 } else if t == 4 { y4 } else if t == 5 { y5 } else if t == 6 { y6 } else if t == 7 { y7 } else if t == 8 { y8 } else if t == 9 { y9 } else { y10 });
        assert forall|l: int| 0 <= l < 8 implies #[trigger] bit8(yt, l) == bit16(fs[8 * ii + (8 * t + l) / 11], (8 * t + l) % 11) by {
            lemma_chunk11_enc(x, fs[8 * ii + 0], fs[8 * ii + 1], fs[8 * ii + 2], fs[8 * ii + 3], fs[8 * ii + 4], fs[8 * ii + 5], fs[8 * ii + 6], fs[8 * ii + 7], y0, y1, y2, y3, y4, y5, y6, y7, y8, y9, y10, t as u128, l as u128);
        }
        lemma_encoded_byte(fs, 11, 11 * ii + t, yt, 8 * ii, 8 * t);
    }
    assert(byte_encode_spec(fs, 11)[11 * ii + 0] == y0);
    assert(byte_encode_spec(fs, 11)[11 * ii + 1] == y1);
    assert(byte_encode_spec(fs, 11)[11 * ii + 2] == y2);
    assert(byte_encode_spec(fs, 11)[11 * ii + 3] == y3);
    assert(byte_encode_spec(fs, 11)[11 * ii + 4] == y4);
    assert(byte_encode_spec(fs, 11)[11 * ii + 5] == y5);
    assert(byte_encode_spec(fs, 11)[11 * ii + 6] == y6);
    assert(byte_encode_spec(fs, 11)[11 * ii + 7] == y7);
    assert(byte_encode_spec(fs, 11)[11 * ii + 8] == y8);
    assert(byte_encode_spec(fs, 11)[11 * ii + 9] == y9);
    assert(byte_encode_spec(fs, 11)[11 * ii + 10] == y10);
}

proof fn lemma_chunk11_enc(x: u128, f0: u16, f1: u16, f2: u16, f3: u16, f4: u16, f5: u16, f6: u16, f7: u16, y0: u8, y1: u8, y2: u8, y3: u8, y4: u8, y5: u8, y6: u8, y7: u8, y8: u8, y9: u8, y10: u8, t: u128, l: u128)
    requires
        t < 11,
        l < 8,
        x == ((((((((0u128 | ((f0 & 0x7FF) as u128)) | (((f1 & 0x7FF) as u128) << 11u128)) | (((f2 & 0x7FF) as u128) << 22u128)) | (((f3 & 0x7FF) as u128) << 33u128)) | (((f4 & 0x7FF) as u128) << 44u128)) | (((f5 & 0x7FF) as u128) << 55u128)) | (((f6 & 0x7FF) as u128) << 66u128)) | (((f7 & 0x7FF) as u128) << 77u128)),
        y0 == x as u8,
        y1 == (x >> 8u128) as u8,
        y2 == (x >> 16u128) as u8,
        y3 == (x >> 24u128) as u8,
        y4 == (x >> 32u128) as u8,
        y5 == (x >> 40u128) as u8,
        y6 == (x >> 48u128) as u8,
        y7 == (x >> 56u128) as u8,
        y8 == (x >> 64u128) as u8,
        y9 == (x >> 72u128) as u8,
        y10 == (x >> 80u128) as u8,
    ensures
        (((if t == 0 { y0 } else if t == 1 { y1 } else if t == 2 { y2 } else if t == 3 { y3 } else if t == 4 { y4 } else if t == 5 { y5 } else if t == 6 { y6 } else if t == 7 { y7 } else if t == 8 { y8 } else if t == 9 { y9 } else { y10 }) >> (l as u8)) & 1 == 1) == (((if (8 * t + l) / 11 == 0 { f0 } else if (8 * t + l) / 11 == 1 { f1 } else if (8 * t + l) / 11 == 2 { f2 } else if (8 * t + l) / 11 == 3 { f3 } else if (8 * t + l) / 11 == 4 { f4 } else if (8 * t + l) / 11 == 5 { f5 } else if (8 * t + l) / 11 == 6 { f6 } else { f7 }) >> (((8 * t + l) % 11) as u16)) & 1 == 1),
{
    assert((((if t == 0 { y0 } else if t == 1 { y1 } else if t == 2 { y2 } else if t == 3 { y3 } else if t == 4 { y4 } else if t == 5 { y5 } else if t == 6 { y6 } else if t == 7 { y7 } else if t == 8 { y8 } else if t == 9 { y9 } else { y10 }) >> (l as u8)) & 1 == 1) == (((if (8 * t + l) / 11 == 0 { f0 } else if (8 * t + l) / 11 == 1 { f1 } else if (8 * t + l) / 11 == 2 { f2 } else if (8 * t + l) / 11 == 3 { f3 } else if (8 * t + l) / 11 == 4 { f4 } else if (8 * t + l) / 11 == 5 { f5 } else if (8 * t + l) / 11 == 6 { f6 } else { f7 }) >> (((8 * t + l) % 11) as u16)) & 1 == 1)) by (bit_vector)
        requires
            t < 11,
            l < 8,
            x == ((((((((0u128 | ((f0 & 0x7FF) as u128)) | (((f1 & 0x7FF) as u128) << 11u128)) | (((f2 & 0x7FF) as u128) << 22u128)) | (((f3 & 0x7FF) as u128) << 33u128)) | (((f4 & 0x7FF) as u128) << 44u128)) | (((f5 & 0x7FF) as u128) << 55u128)) | (((f6 & 0x7FF) as u128) << 66u128)) | (((f7 & 0x7FF) as u128) << 77u128)),
            y0 == x as u8,
            y1 == (x >> 8u128) as u8,
            y2 == (x >> 16u128) as u8,
            y3 == (x >> 24u128) as u8,
            y4 == (x >> 32u128) as u8,
            y5 == (x >> 40u128) as u8,
            y6 == (x >> 48u128) as u8,
            y7 == (x >> 56u128) as u8,
            y8 == (x >> 64u128) as u8,
            y9 == (x >> 72u128) as u8,
            y10 == (x >> 80u128) as u8;
}

/// ByteEncode_11, eight elements into eleven bytes at a time.
#[verifier::rlimit(40)]
pub fn byte_encode_11(f: [u16; N], enc: &mut [u8])
    requires
        old(enc)@.len() >= 352,
    ensures
        final(enc)@.len() == old(enc)@.len(),
        final(enc)@.subrange(0, 352) == byte_encode_spec(f@, 11),
        final(enc)@.subrange(352, old(enc)@.len() as int) == old(enc)@.subrange(352, old(enc)@.len() as int),
{
    let ghost e0 = enc@;
    for i in 0..N / 8
        invariant
            enc@.len() == e0.len(),
            e0.len() >= 352,
            forall|k: int| 11 * i <= k < e0.len() ==> enc@[k] == #[trigger] e0[k],
            forall|k: int| 0 <= k < 11 * i ==> enc@[k] == #[trigger] byte_encode_spec(f@, 11)[k],
    {
        let mut x: u128 = 0;
        x |= ((f[i * 8 + 0] & 0x7FF) as u128);
        x |= (((f[i * 8 + 1] & 0x7FF) as u128) << 11u128);
        x |= (((f[i * 8 + 2] & 0x7FF) as u128) << 22u128);
        x |= (((f[i * 8 + 3] & 0x7FF) as u128) << 33u128);
        x |= (((f[i * 8 + 4] & 0x7FF) as u128) << 44u128);
        x |= (((f[i * 8 + 5] & 0x7FF) as u128) << 55u128);
        x |= (((f[i * 8 + 6] & 0x7FF) as u128) << 66u128);
        x |= (((f[i * 8 + 7] & 0x7FF) as u128) << 77u128);
        let y0 = x as u8;
        let y1 = (x >> 8u128) as u8;
        let y2 = (x >> 16u128) as u8;
        let y3 = (x >> 24u128) as u8;
        let y4 = (x >> 32u128) as u8;
        let y5 = (x >> 40u128) as u8;
        let y6 = (x >> 48u128) as u8;
        let y7 = (x >> 56u128) as u8;
        let y8 = (x >> 64u128) as u8;
        let y9 = (x >> 72u128) as u8;
        let y10 = (x >> 80u128) as u8;
        proof {
            lemma_encode11_chunk(f@, i as int, x, y0, y1, y2, y3, y4, y5, y6, y7, y8, y9, y10);
        }
        enc[i * 11 + 0] = y0;
        enc[i * 11 + 1] = y1;
        enc[i * 11 + 2] = y2;
        enc[i * 11 + 3] = y3;
        enc[i * 11 + 4] = y4;
        enc[i * 11 + 5] = y5;
        enc[i * 11 + 6] = y6;
        enc[i * 11 + 7] = y7;
        enc[i * 11 + 8] = y8;
        enc[i * 11 + 9] = y9;
        enc[i * 11 + 10] = y10;
    }
    proof { lemma_encode_spec_len(f@, 11); }
    assert(enc@.subrange(0, 352) =~= byte_encode_spec(f@, 11));
    assert(enc@.subrange(352, e0.len() as int) =~= e0.subrange(352, e0.len() as int));
}

proof fn lemma_decode10_chunk(bs: Seq<u8>, ii: int, x: u64, b0: u8, b1: u8, b2: u8, b3: u8, b4: u8, v0: u16, v1: u16, v2: u16, v3: u16)
    requires
        bs.len() >= 320,
        0 <= ii < 64,
        b0 == bs[5 * ii + 0],
        b1 == bs[5 * ii + 1],
        b2 == bs[5 * ii + 2],
        b3 == bs[5 * ii + 3],
        b4 == bs[5 * ii + 4],
        x == (((((0u64 | (b0 as u64)) | ((b1 as u64) << 8u64)) | ((b2 as u64) << 16u64)) | ((b3 as u64) << 24u64)) | ((b4 as u64) << 32u64)),
        v0 == ((x >> 0u64) as u16) & 0x3FF,
        v1 == ((x >> 10u64) as u16) & 0x3FF,
        v2 == ((x >> 20u64) as u16) & 0x3FF,
        v3 == ((x >> 30u64) as u16) & 0x3FF,
    ensures
        byte_decode_spec(bs, 10)[4 * ii + 0] == v0,
        byte_decode_spec(bs, 10)[4 * ii + 1] == v1,
        byte_decode_spec(bs, 10)[4 * ii + 2] == v2,
        byte_decode_spec(bs, 10)[4 * ii + 3] == v3,
{
    assert forall|e: int| 0 <= e < 4 implies #[trigger] byte_decode_spec(bs, 10)[4 * ii + e]
                == (if e == 0 { v0 } else if e == 1 { v1 } else if e == 2 { v2 } else { v3 }) by {
        let ve = (if e == 0 { v0 } else if e == 1 { v1 } else if e == 2 { v2 } else { v3 });
        assert forall|j: int| 0 <= j < 16 implies #[trigger] bit16(ve, j) == (j < 10 && bit8(bs[5 * ii + (10 * e + j) / 8], (10 * e + j) % 8)) by {
            lemma_chunk10_dec(x, bs[5 * ii + 0], bs[5 * ii + 1], bs[5 * ii + 2], bs[5 * ii + 3], bs[5 * ii + 4], v0, v1, v2, v3, e as u64, j as u64);
        }
        lemma_decoded_elem(bs, 10, 4 * ii + e, ve, 5 * ii, 10 * e);
    }
    assert(byte_decode_spec(bs, 10)[4 * ii + 0] == v0);
    assert(byte_decode_spec(bs, 10)[4 * ii + 1] == v1);
    assert(byte_decode_spec(bs, 10)[4 * ii + 2] == v2);
    assert(byte_decode_spec(bs, 10)[4 * ii + 3] == v3);
}

proof fn lemma_chunk10_dec(x: u64, b0: u8, b1: u8, b2: u8, b3: u8, b4: u8, v0: u16, v1: u16, v2: u16, v3: u16, e: u64, j: u64)
    requires
        e < 4,
        j < 16,
        x == (((((0u64 | (b0 as u64)) | ((b1 as u64) << 8u64)) | ((b2 as u64) << 16u64)) | ((b3 as u64) << 24u64)) | ((b4 as u64) << 32u64)),
        v0 == ((x >> 0u64) as u16) & 0x3FF,
        v1 == ((x >> 10u64) as u16) & 0x3FF,
        v2 == ((x >> 20u64) as u16) & 0x3FF,
        v3 == ((x >> 30u64) as u16) & 0x3FF,
    ensures
        (((if e == 0 { v0 } else if e == 1 { v1 } else if e == 2 { v2 } else { v3 }) >> (j as u16)) & 1 == 1) == (j < 10 && (((if (10 * e + j) / 8 == 0 { b0 } else if (10 * e + j) / 8 == 1 { b1 } else if (10 * e + j) / 8 == 2 { b2 } else if (10 * e + j) / 8 == 3 { b3 } else { b4 }) >> (((10 * e + j) % 8) as u8)) & 1 == 1)),
{
    assert((((if e == 0 { v0 } else if e == 1 { v1 } else if e == 2 { v2 } else { v3 }) >> (j as u16)) & 1 == 1) == (j < 10 && (((if (10 * e + j) / 8 == 0 { b0 } else if (10 * e + j) / 8 == 1 { b1 } else if (10 * e + j) / 8 == 2 { b2 } else if (10 * e + j) / 8 == 3 { b3 } else { b4 }) >> (((10 * e + j) % 8) as u8)) & 1 == 1))) by (bit_vector)
        requires
            e < 4,
            j < 16,
            x == (((((0u64 | (b0 as u64)) | ((b1 as u64) << 8u64)) | ((b2 as u64) << 16u64)) | ((b3 as u64) << 24u64)) | ((b4 as u64) << 32u64)),
            v0 == ((x >> 0u64) as u16) & 0x3FF,
            v1 == ((x >> 10u64) as u16) & 0x3FF,
            v2 == ((x >> 20u64) as u16) & 0x3FF,
            v3 == ((x >> 30u64) as u16) & 0x3FF;
}

/// ByteDecode_10, five bytes into four elements at a time.
pub fn byte_decode_10(b: &[u8], f: &mut [u16; N])
    requires
        b@.len() == 320,
    ensures
        final(f)@ == byte_decode_spec(b@, 10),
{
    for i in 0..N / 4
        invariant
            b@.len() == 320,
            forall|k: int| 0 <= k < 4 * i ==> f@[k] == #[trigger] byte_decode_spec(b@, 10)[k],
    {
        let b0 = b[i * 5 + 0];
        let b1 = b[i * 5 + 1];
        let b2 = b[i * 5 + 2];
        let b3 = b[i * 5 + 3];
        let b4 = b[i * 5 + 4];
        let mut x: u64 = 0;
        x |= b0 as u64;
        x |= (b1 as u64) << 8u64;
        x |= (b2 as u64) << 16u64;
        x |= (b3 as u64) << 24u64;
        x |= (b4 as u64) << 32u64;
        let v0 = ((x >> 0u64) as u16) & 0x3FF;
        let v1 = ((x >> 10u64) as u16) & 0x3FF;
        let v2 = ((x >> 20u64) as u16) & 0x3FF;
        let v3 = ((x >> 30u64) as u16) & 0x3FF;
        proof {
            lemma_decode10_chunk(b@, i as int, x, b0, b1, b2, b3, b4, v0, v1, v2, v3);
        }
        f[i * 4 + 0] = v0;
        f[i * 4 + 1] = v1;
        f[i * 4 + 2] = v2;
        f[i * 4 + 3] = v3;
    }
    proof { lemma_decode_spec_len(b@, 10); }
    assert(f@ =~= byte_decode_spec(b@, 10));
}

proof fn lemma_decode5_chunk(bs: Seq<u8>, ii: int, b0: u8, b1: u8, b2: u8, b3: u8, b4: u8, v0: u16, v1: u16, v2: u16, v3: u16, v4: u16, v5: u16, v6: u16, v7: u16)
    requires
        bs.len() >= 160,
        0 <= ii < 32,
        b0 == bs[5 * ii + 0],
        b1 == bs[5 * ii + 1],
        b2 == bs[5 * ii + 2],
        b3 == bs[5 * ii + 3],
        b4 == bs[5 * ii + 4],
        v0 == ((b0 & 0x1Fu8) as u16),
        v1 == (((b0 >> 5u8) & 0x07u8) as u16) | (((b1 & 0x03u8) << 3u8) as u16),
        v2 == (((b1 >> 2u8) & 0x1Fu8) as u16),
        v3 == (((b1 >> 7u8) & 0x01u8) as u16) | (((b2 & 0x0Fu8) << 1u8) as u16),
        v4 == (((b2 >> 4u8) & 0x0Fu8) as u16) | (((b3 & 0x01u8) << 4u8) as u16),
        v5 == (((b3 >> 1u8) & 0x1Fu8) as u16),
        v6 == (((b3 >> 6u8) & 0x03u8) as u16) | (((b4 & 0x07u8) << 2u8) as u16),
        v7 == (((b4 >> 3u8) & 0x1Fu8) as u16),
    ensures
        byte_decode_spec(bs, 5)[8 * ii + 0] == v0,
        byte_decode_spec(bs, 5)[8 * ii + 1] == v1,
        byte_decode_spec(bs, 5)[8 * ii + 2] == v2,
        byte_decode_spec(bs, 5)[8 * ii + 3] == v3,
        byte_decode_spec(bs, 5)[8 * ii + 4] == v4,
        byte_decode_spec(bs, 5)[8 * ii + 5] == v5,
        byte_decode_spec(bs, 5)[8 * ii + 6] == v6,
        byte_decode_spec(bs, 5)[8 * ii + 7] == v7,
{
    assert forall|e: int| 0 <= e < 8 implies #[trigger] byte_decode_spec(bs, 5)[8 * ii + e]
                == (if e == 0 { v0 } else if e == 1 { v1 } else if e == 2 { v2 } else if e == 3 { v3 } else if e == 4 { v4 } else if e == 5 { v5 } else if e == 6 { v6 } else { v7 }) by {
        let ve = (if e == 0 { v0 } else if e == 1 { v1 } else if e == 2 { v2 } else if e == 3 { v3 } else if e == 4 { v4 } else if e == 5 { v5 } else if e == 6 { v6 } else { v7 });
        assert forall|j: int| 0 <= j < 16 implies #[trigger] bit16(ve, j) == (j < 5 && bit8(bs[5 * ii + (5 * e + j) / 8], (5 * e + j) % 8)) by {
            lemma_chunk5_dec(bs[5 * ii + 0], bs[5 * ii + 1], bs[5 * ii + 2], bs[5 * ii + 3], bs[5 * ii + 4], v0, v1, v2, v3, v4, v5, v6, v7, e as u64, j as u64);
        }
        lemma_decoded_elem(bs, 5, 8 * ii + e, ve, 5 * ii, 5 * e);
    }
    assert(byte_decode_spec(bs, 5)[8 * ii + 0] == v0);
    assert(byte_decode_spec(bs, 5)[8 * ii + 1] == v1);
    assert(byte_decode_spec(bs, 5)[8 * ii + 2] == v2);
    assert(byte_decode_spec(bs, 5)[8 * ii + 3] == v3);
    assert(byte_decode_spec(bs, 5)[8 * ii + 4] == v4);
    assert(byte_decode_spec(bs, 5)[8 * ii + 5] == v5);
    assert(byte_decode_spec(bs, 5)[8 * ii + 6] == v6);
    assert(byte_decode_spec(bs, 5)[8 * ii + 7] == v7);
}

proof fn lemma_chunk5_dec(b0: u8, b1: u8, b2: u8, b3: u8, b4: u8, v0: u16, v1: u16, v2: u16, v3: u16, v4: u16, v5: u16, v6: u16, v7: u16, e: u64, j: u64)
    requires
        e < 8,
        j < 16,
        v0 == ((b0 & 0x1Fu8) as u16),
        v1 == (((b0 >> 5u8) & 0x07u8) as u16) | (((b1 & 0x03u8) << 3u8) as u16),
        v2 == (((b1 >> 2u8) & 0x1Fu8) as u16),
        v3 == (((b1 >> 7u8) & 0x01u8) as u16) | (((b2 & 0x0Fu8) << 1u8) as u16),
        v4 == (((b2 >> 4u8) & 0x0Fu8) as u16) | (((b3 & 0x01u8) << 4u8) as u16),
        v5 == (((b3 >> 1u8) & 0x1Fu8) as u16),
        v6 == (((b3 >> 6u8) & 0x03u8) as u16) | (((b4 & 0x07u8) << 2u8) as u16),
        v7 == (((b4 >> 3u8) & 0x1Fu8) as u16),
    ensures
        (((if e == 0 { v0 } else if e == 1 { v1 } else if e == 2 { v2 } else if e == 3 { v3 } else if e == 4 { v4 } else if e == 5 { v5 } else if e == 6 { v6 } else { v7 }) >> (j as u16)) & 1 == 1) == (j < 5 && (((if (5 * e + j) / 8 == 0 { b0 } else if (5 * e + j) / 8 == 1 { b1 } else if (5 * e + j) / 8 == 2 { b2 } else if (5 * e + j) / 8 == 3 { b3 } else { b4 }) >> (((5 * e + j) % 8) as u8)) & 1 == 1)),
{
    assert((((if e == 0 { v0 } else if e == 1 { v1 } else if e == 2 { v2 } else if e == 3 { v3 } else if e == 4 { v4 } else if e == 5 { v5 } else if e == 6 { v6 } else { v7 }) >> (j as u16)) & 1 == 1) == (j < 5 && (((if (5 * e + j) / 8 == 0 { b0 } else if (5 * e + j) / 8 == 1 { b1 } else if (5 * e + j) / 8 == 2 { b2 } else if (5 * e + j) / 8 == 3 { b3 } else { b4 }) >> (((5 * e + j) % 8) as u8)) & 1 == 1))) by (bit_vector)
        requires
            e < 8,
            j < 16,
            v0 == ((b0 & 0x1Fu8) as u16),
            v1 == (((b0 >> 5u8) & 0x07u8) as u16) | (((b1 & 0x03u8) << 3u8) as u16),
            v2 == (((b1 >> 2u8) & 0x1Fu8) as u16),
            v3 == (((b1 >> 7u8) & 0x01u8) as u16) | (((b2 & 0x0Fu8) << 1u8) as u16),
            v4 == (((b2 >> 4u8) & 0x0Fu8) as u16) | (((b3 & 0x01u8) << 4u8) as u16),
            v5 == (((b3 >> 1u8) & 0x1Fu8) as u16),
            v6 == (((b3 >> 6u8) & 0x03u8) as u16) | (((b4 & 0x07u8) << 2u8) as u16),
            v7 == (((b4 >> 3u8) & 0x1Fu8) as u16);
}

/// ByteDecode_5, five bytes into eight elements at a time.
pub fn byte_decode_5(b: &[u8], f: &mut [u16; N])
    requires
        b@.len() >= 160,
    ensures
        final(f)@ == byte_decode_spec(b@, 5),
{
    for i in 0..N / 8
        invariant
            b@.len() >= 160,
            forall|k: int| 0 <= k < 8 * i ==> f@[k] == #[trigger] byte_decode_spec(b@, 5)[k],
    {
        let b0 = b[i * 5 + 0];
        let b1 = b[i * 5 + 1];
        let b2 = b[i * 5 + 2];
        let b3 = b[i * 5 + 3];
        let b4 = b[i * 5 + 4];
        let v0 = ((b0 & 0x1Fu8) as u16);
        let v1 = (((b0 >> 5u8) & 0x07u8) as u16) | (((b1 & 0x03u8) << 3u8) as u16);
        let v2 = (((b1 >> 2u8) & 0x1Fu8) as u16);
        let v3 = (((b1 >> 7u8) & 0x01u8) as u16) | (((b2 & 0x0Fu8) << 1u8) as u16);
        let v4 = (((b2 >> 4u8) & 0x0Fu8) as u16) | (((b3 & 0x01u8) << 4u8) as u16);
        let v5 = (((b3 >> 1u8) & 0x1Fu8) as u16);
        let v6 = (((b3 >> 6u8) & 0x03u8) as u16) | (((b4 & 0x07u8) << 2u8) as u16);
        let v7 = (((b4 >> 3u8) & 0x1Fu8) as u16);
        proof {
            lemma_decode5_chunk(b@, i as int, b0, b1, b2, b3, b4, v0, v1, v2, v3, v4, v5, v6, v7);
        }
        f[i * 8 + 0] = v0;
        f[i * 8 + 1] = v1;
        f[i * 8 + 2] = v2;
        f[i * 8 + 3] = v3;
        f[i * 8 + 4] = v4;
        f[i * 8 + 5] = v5;
        f[i * 8 + 6] = v6;
        f[i * 8 + 7] = v7;
    }
    proof { lemma_decode_spec_len(b@, 5); }
    assert(f@ =~= byte_decode_spec(b@, 5));
}

proof fn lemma_decode11_chunk(bs: Seq<u8>, ii: int, b0: u8, b1: u8, b2: u8, b3: u8, b4: u8, b5: u8, b6: u8, b7: u8, b8: u8, b9: u8, b10: u8, v0: u16, v1: u16, v2: u16, v3: u16, v4: u16, v5: u16, v6: u16, v7: u16)
    requires
        bs.len() >= 352,
        0 <= ii < 32,
        b0 == bs[11 * ii + 0],
        b1 == bs[11 * ii + 1],
        b2 == bs[11 * ii + 2],
        b3 == bs[11 * ii + 3],
        b4 == bs[11 * ii + 4],
        b5 == bs[11 * ii + 5],
        b6 == bs[11 * ii + 6],
        b7 == bs[11 * ii + 7],
        b8 == bs[11 * ii + 8],
        b9 == bs[11 * ii + 9],
        b10 == bs[11 * ii + 10],
        v0 == ((b0 as u16) & 0xFF) | (((b1 as u16) & 0x7) << 8u16),
        v1 == (((b1 as u16) >> 3u16) & 0x1F) | (((b2 as u16) & 0x3F) << 5u16),
        v2 == (((b2 as u16) >> 6u16) & 0x3) | ((b3 as u16) << 2u16) | (((b4 as u16) & 0x1) << 10u16),
        v3 == (((b4 as u16) >> 1u16) & 0x7F) | (((b5 as u16) & 0xF) << 7u16),
        v4 == (((b5 as u16) >> 4u16) & 0xF) | (((b6 as u16) & 0x7F) << 4u16),
        v5 == (((b6 as u16) >> 7u16) & 0x1) | ((b7 as u16) << 1u16) | (((b8 as u16) & 0x3) << 9u16),
        v6 == (((b8 as u16) >> 2u16) & 0x3F) | (((b9 as u16) & 0x1F) << 6u16),
        v7 == (((b9 as u16) >> 5u16) & 0x7) | ((b10 as u16) << 3u16),
    ensures
        byte_decode_spec(bs, 11)[8 * ii + 0] == v0,
        byte_decode_spec(bs, 11)[8 * ii + 1] == v1,
        byte_decode_spec(bs, 11)[8 * ii + 2] == v2,
        byte_decode_spec(bs, 11)[8 * ii + 3] == v3,
        byte_decode_spec(bs, 11)[8 * ii + 4] == v4,
        byte_decode_spec(bs, 11)[8 * ii + 5] == v5,
        byte_decode_spec(bs, 11)[8 * ii + 6] == v6,
        byte_decode_spec(bs, 11)[8 * ii + 7] == v7,
{
    assert forall|e: int| 0 <= e < 8 implies #[trigger] byte_decode_spec(bs, 11)[8 * ii + e]
                == (if e == 0 { v0 } else if e == 1 { v1 } else if e == 2 { v2 } else if e == 3 { v3 } else if e == 4 { v4 } else if e == 5 { v5 } else if e == 6 { v6 } else { v7 }) by {
        let ve = (if e == 0 { v0 } else if e == 1 { v1 } else if e == 2 { v2 } else if e == 3 { v3 } else if e == 4 { v4 } else if e == 5 { v5 } else if e == 6 { v6 } else { v7 });
        assert forall|j: int| 0 <= j < 16 implies #[trigger] bit16(ve, j) == (j < 11 && bit8(bs[11 * ii + (11 * e + j) / 8], (11 * e + j) % 8)) by {
            lemma_chunk11_dec(bs[11 * ii + 0], bs[11 * ii + 1], bs[11 * ii + 2], bs[11 * ii + 3], bs[11 * ii + 4], bs[11 * ii + 5], bs[11 * ii + 6], bs[11 * ii + 7], bs[11 * ii + 8], bs[11 * ii + 9], bs[11 * ii + 10], v0, v1, v2, v3, v4, v5, v6, v7, e as u64, j as u64);
        }
        lemma_decoded_elem(bs, 11, 8 * ii + e, ve, 11 * ii, 11 * e);
    }
    assert(byte_decode_spec(bs, 11)[8 * ii + 0] == v0);
    assert(byte_decode_spec(bs, 11)[8 * ii + 1] == v1);
    assert(byte_decode_spec(bs, 11)[8 * ii + 2] == v2);
    assert(byte_decode_spec(bs, 11)[8 * ii + 3] == v3);
    assert(byte_decode_spec(bs, 11)[8 * ii + 4] == v4);
    assert(byte_decode_spec(bs, 11)[8 * ii + 5] == v5);
    assert(byte_decode_spec(bs, 11)[8 * ii + 6] == v6);
    assert(byte_decode_spec(bs, 11)[8 * ii + 7] == v7);
}

proof fn lemma_chunk11_dec(b0: u8, b1: u8, b2: u8, b3: u8, b4: u8, b5: u8, b6: u8, b7: u8, b8: u8, b9: u8, b10: u8, v0: u16, v1: u16, v2: u16, v3: u16, v4: u16, v5: u16, v6: u16, v7: u16, e: u64, j: u64)
    requires
        e < 8,
        j < 16,
        v0 == ((b0 as u16) & 0xFF) | (((b1 as u16) & 0x7) << 8u16),
        v1 == (((b1 as u16) >> 3u16) & 0x1F) | (((b2 as u16) & 0x3F) << 5u16),
        v2 == (((b2 as u16) >> 6u16) & 0x3) | ((b3 as u16) << 2u16) | (((b4 as u16) & 0x1) << 10u16),
        v3 == (((b4 as u16) >> 1u16) & 0x7F) | (((b5 as u16) & 0xF) << 7u16),
        v4 == (((b5 as u16) >> 4u16) & 0xF) | (((b6 as u16) & 0x7F) << 4u16),
        v5 == (((b6 as u16) >> 7u16) & 0x1) | ((b7 as u16) << 1u16) | (((b8 as u16) & 0x3) << 9u16),
        v6 == (((b8 as u16) >> 2u16) & 0x3F) | (((b9 as u16) & 0x1F) << 6u16),
        v7 == (((b9 as u16) >> 5u16) & 0x7) | ((b10 as u16) << 3u16),
    ensures
        (((if e == 0 { v0 } else if e == 1 { v1 } else if e == 2 { v2 } else if e == 3 { v3 } else if e == 4 { v4 } else if e == 5 { v5 } else if e == 6 { v6 } else { v7 }) >> (j as u16)) & 1 == 1) == (j < 11 && (((if (11 * e + j) / 8 == 0 { b0 } else if (11 * e + j) / 8 == 1 { b1 } else if (11 * e + j) / 8 == 2 { b2 } else if (11 * e + j) / 8 == 3 { b3 } else if (11 * e + j) / 8 == 4 { b4 } else if (11 * e + j) / 8 == 5 { b5 } else if (11 * e + j) / 8 == 6 { b6 } else if (11 * e + j) / 8 == 7 { b7 } else if (11 * e + j) / 8 == 8 { b8 } else if (11 * e + j) / 8 == 9 { b9 } else { b10 }) >> (((11 * e + j) % 8) as u8)) & 1 == 1)),
{
    assert((((if e == 0 { v0 } else if e == 1 { v1 } else if e == 2 { v2 } else if e == 3 { v3 } else if e == 4 { v4 } else if e == 5 { v5 } else if e == 6 { v6 } else { v7 }) >> (j as u16)) & 1 == 1) == (j < 11 && (((if (11 * e + j) / 8 == 0 { b0 } else if (11 * e + j) / 8 == 1 { b1 } else if (11 * e + j) / 8 == 2 { b2 } else if (11 * e + j) / 8 == 3 { b3 } else if (11 * e + j) / 8 == 4 { b4 } else if (11 * e + j) / 8 == 5 { b5 } else if (11 * e + j) / 8 == 6 { b6 } else if (11 * e + j) / 8 == 7 { b7 } else if (11 * e + j) / 8 == 8 { b8 } else if (11 * e + j) / 8 == 9 { b9 } else { b10 }) >> (((11 * e + j) % 8) as u8)) & 1 == 1))) by (bit_vector)
        requires
            e < 8,
            j < 16,
            v0 == ((b0 as u16) & 0xFF) | (((b1 as u16) & 0x7) << 8u16),
            v1 == (((b1 as u16) >> 3u16) & 0x1F) | (((b2 as u16) & 0x3F) << 5u16),
            v2 == (((b2 as u16) >> 6u16) & 0x3) | ((b3 as u16) << 2u16) | (((b4 as u16) & 0x1) << 10u16),
            v3 == (((b4 as u16) >> 1u16) & 0x7F) | (((b5 as u16) & 0xF) << 7u16),
            v4 == (((b5 as u16) >> 4u16) & 0xF) | (((b6 as u16) & 0x7F) << 4u16),
            v5 == (((b6 as u16) >> 7u16) & 0x1) | ((b7 as u16) << 1u16) | (((b8 as u16) & 0x3) << 9u16),
            v6 == (((b8 as u16) >> 2u16) & 0x3F) | (((b9 as u16) & 0x1F) << 6u16),
            v7 == (((b9 as u16) >> 5u16) & 0x7) | ((b10 as u16) << 3u16);
}

/// ByteDecode_11, eleven bytes into eight elements at a time.
pub fn byte_decode_11(b: &[u8], f: &mut [u16; N])
    requires
        b@.len() >= 352,
    ensures
        final(f)@ == byte_decode_spec(b@, 11),
{
    for i in 0..N / 8
        invariant
            b@.len() >= 352,
            forall|k: int| 0 <= k < 8 * i ==> f@[k] == #[trigger] byte_decode_spec(b@, 11)[k],
    {
        let b0 = b[i * 11 + 0];
        let b1 = b[i * 11 + 1];
        let b2 = b[i * 11 + 2];
        let b3 = b[i * 11 + 3];
        let b4 = b[i * 11 + 4];
        let b5 = b[i * 11 + 5];
        let b6 = b[i * 11 + 6];
        let b7 = b[i * 11 + 7];
        let b8 = b[i * 11 + 8];
        let b9 = b[i * 11 + 9];
        let b10 = b[i * 11 + 10];
        let v0 = ((b0 as u16) & 0xFF) | (((b1 as u16) & 0x7) << 8u16);
        let v1 = (((b1 as u16) >> 3u16) & 0x1F) | (((b2 as u16) & 0x3F) << 5u16);
        let v2 = (((b2 as u16) >> 6u16) & 0x3) | ((b3 as u16) << 2u16) | (((b4 as u16) & 0x1) << 10u16);
        let v3 = (((b4 as u16) >> 1u16) & 0x7F) | (((b5 as u16) & 0xF) << 7u16);
        let v4 = (((b5 as u16) >> 4u16) & 0xF) | (((b6 as u16) & 0x7F) << 4u16);
        let v5 = (((b6 as u16) >> 7u16) & 0x1) | ((b7 as u16) << 1u16) | (((b8 as u16) & 0x3) << 9u16);
        let v6 = (((b8 as u16) >> 2u16) & 0x3F) | (((b9 as u16) & 0x1F) << 6u16);
        let v7 = (((b9 as u16) >> 5u16) & 0x7) | ((b10 as u16) << 3u16);
        proof {
            lemma_decode11_chunk(b@, i as int, b0, b1, b2, b3, b4, b5, b6, b7, b8, b9, b10, v0, v1, v2, v3, v4, v5, v6, v7);
        }
        f[i * 8 + 0] = v0;
        f[i * 8 + 1] = v1;
        f[i * 8 + 2] = v2;
        f[i * 8 + 3] = v3;
        f[i * 8 + 4] = v4;
        f[i * 8 + 5] = v5;
        f[i * 8 + 6] = v6;
        f[i * 8 + 7] = v7;
    }
    proof { lemma_decode_spec_len(b@, 11); }
    assert(f@ =~= byte_decode_spec(b@, 11));
}

/// The widths that the packed encoders and decoders handle.
pub open spec fn supported_width(d: int) -> bool {
    d == 1 || d == 4 || d == 5 || d == 10 || d == 11 || d == 12
}

/// Length of output buffer that the encoder for width `d` accepts: exactly 32 * d
/// bytes for d in {1, 12}, at least 32 * d bytes otherwise.
pub open spec fn encode_buffer_ok(d: int, len: int) -> bool {
    if d == 1 || d == 12 { len == 32 * d } else { len >= 32 * d }
}

/// ByteEncode_d for d in {1, 4, 5, 10, 11, 12}; bytes past 32 * d are left alone.
pub fn byte_encode(f: [u16; N], enc: &mut [u8], d: u8)
    requires
        supported_width(d as int),
        encode_buffer_ok(d as int, old(enc)@.len() as int),
    ensures
        final(enc)@.len() == old(enc)@.len(),
        final(enc)@.subrange(0, 32 * d) == byte_encode_spec(f@, d as int),
        final(enc)@.subrange(32 * d, old(enc)@.len() as int) == old(enc)@.subrange(32 * d, old(enc)@.len() as int),
{
    match d {
        1 => byte_encode_1(f, enc),
        4 => byte_encode_4(f, enc),
        5 => byte_encode_5(f, enc),
        10 => byte_encode_10(f, enc),
        11 => byte_encode_11(f, enc),
        _ => byte_encode_12(f, enc),
    }
    proof {
        lemma_encode_spec_len(f@, d as int);
        if d == 1 || d == 12 {
            assert(enc@.subrange(0, 32 * d) =~= enc@);
            assert(enc@.subrange(32 * d, enc@.len() as int) =~= old(enc)@.subrange(32 * d, old(enc)@.len() as int));
        }
    }
}

/// ByteDecode_d for d in {1, 4, 5, 10, 11, 12} on exactly 32 * d bytes; for d = 12 each
/// value is reduced modulo q.
pub fn byte_decode(b: &[u8], f: &mut [u16; N], d: u8)
    requires
        supported_width(d as int),
        b@.len() == 32 * d,
    ensures
        final(f)@ == byte_decode_q(b@, d as int),
{
    match d {
        1 => byte_decode_1(b, f),
        4 => byte_decode_4(b, f),
        5 => byte_decode_5(b, f),
        10 => byte_decode_10(b, f),
        11 => byte_decode_11(b, f),
        _ => byte_decode_12(b, f),
    }
}

/// Shifting by zero keeps a 16-bit value.
proof fn lemma_shr0(x: u16)
    ensures
        x >> 0u16 == x,
{
    vstd::bits::lemma_u16_shr_is_div(x, 0u16);
    vstd::arithmetic::power2::lemma2_to64();
}

/// Once the bits of `x` from `k` on are clear, so is every bit `t >= k`.
proof fn lemma_high_bits_clear(x: u16, k: u16, t: u16)
    ensures
        x >> k == 0 && t >= k ==> (x >> t) & 1 == 0,
{
    assert(x >> k == 0 && t >= k ==> (x >> t) & 1 == 0) by (bit_vector);
}

proof fn lemma_mask_bits(x: u16, d: u16, j: u16)
    requires
        1 <= d <= 12,
        j < 16,
    ensures
        ((x % (1u16 << d)) >> j) & 1 == 1 <==> (j < d && (x >> j) & 1 == 1),
{
    assert(((x % (1u16 << d)) >> j) & 1 == 1 <==> (j < d && (x >> j) & 1 == 1)) by (bit_vector)
        requires 1 <= d <= 12, j < 16;
}

proof fn lemma_pow2_u16(d: nat)
    requires
        d <= 12,
    ensures
        (1u16 << (d as u16)) as int == vstd::arithmetic::power2::pow2(d),
{
    vstd::arithmetic::power2::lemma2_to64();
    let dd = d as u16;
    assert((1u16 << dd) as u32 == (1u32 << (dd as u32)) && (1u32 << (dd as u32)) == if dd == 0 { 1u32 } else if dd == 1 { 2u32 } else if dd == 2 { 4u32 }
        else if dd == 3 { 8u32 } else if dd == 4 { 16u32 } else if dd == 5 { 32u32 } else if dd == 6 { 64u32 }
        else if dd == 7 { 128u32 } else if dd == 8 { 256u32 } else if dd == 9 { 512u32 } else if dd == 10 { 1024u32 }
        else if dd == 11 { 2048u32 } else { 4096u32 }) by (bit_vector)
        requires dd <= 12;
}

/// Decoding an encoding gives back each element reduced modulo 2^d.
pub proof fn lemma_decode_encode(f: Seq<u16>, d: int)
    requires
        f.len() == 256,
        1 <= d <= 12,
    ensures
        forall|i: int| 0 <= i < 256 ==> #[trigger] byte_decode_spec(byte_encode_spec(f, d), d)[i] as int
            == (f[i] as int) % vstd::arithmetic::power2::pow2(d as nat) as int,
{
    let enc = byte_encode_spec(f, d);
    lemma_encode_spec_len(f, d);
    lemma_pow2_u16(d as nat);
    assert forall|i: int| 0 <= i < 256 implies #[trigger] byte_decode_spec(enc, d)[i] as int
        == (f[i] as int) % vstd::arithmetic::power2::pow2(d as nat) as int by {
        let v = f[i] % (1u16 << (d as u16));
        assert forall|j: int| 0 <= j < 16 implies #[trigger] bit16(v, j) == (j < d && byte_bit(enc, d * i + j)) by {
            lemma_mask_bits(f[i], d as u16, j as u16);
            if j < d {
                let p = d * i + j;
                assert(0 <= p < 256 * d) by (nonlinear_arith)
                    requires 0 <= i < 256, 0 <= j < d, p == d * i + j;
                let k = p / 8;
                let l = p % 8;
                reveal(byte_encode_spec);
                lemma_bits_of_byte(|ll: int| coeff_bit(f, d, 8 * k + ll), l);
                assert(8 * k + l == p);
                lemma_coeff_bit_at(f, d, i, j);
                vstd::arithmetic::div_mod::lemma_small_mod(j as nat, d as nat);
                assert(j / d == 0) by (nonlinear_arith) requires 0 <= j < d;
            }
        }
        lemma_u16_from_bits(v, |j: int| j < d && byte_bit(enc, d * i + j));
        reveal(byte_decode_spec);
    }
}

/// Encoding a decoding gives back the bytes.
pub proof fn lemma_encode_decode(b: Seq<u8>, d: int)
    requires
        b.len() == 32 * d,
        1 <= d <= 12,
    ensures
        byte_encode_spec(byte_decode_spec(b, d), d) == b,
{
    let dec = byte_decode_spec(b, d);
    lemma_encode_spec_len(dec, d);
    assert forall|k: int| 0 <= k < 32 * d implies #[trigger] byte_encode_spec(dec, d)[k] == b[k] by {
        assert forall|l: int| 0 <= l < 8 implies #[trigger] bit8(b[k], l) == coeff_bit(dec, d, 8 * k + l) by {
            let p = 8 * k + l;
            let i = p / d;
            let j = p % d;
            vstd::arithmetic::div_mod::lemma_fundamental_div_mod(p, d);
            assert(0 <= i < 256) by (nonlinear_arith)
                requires p == d * i + j, 0 <= j < d, 0 <= p < 256 * d, d >= 1;
            reveal(byte_decode_spec);
            lemma_bits_of_u16(|jj: int| jj < d && byte_bit(b, d * i + jj), j);
            lemma_byte_bit_at(b, k, l);
        }
        lemma_byte_from_bits(b[k], |l: int| coeff_bit(dec, d, 8 * k + l));
        reveal(byte_encode_spec);
    }
    assert(byte_encode_spec(dec, d) =~= b);
}

const MASKS: [u8; 8] = [0x01, 0x03, 0x07, 0x0f, 0x1f, 0x3f, 0x7f, 0xff];

/// `MASKS[k]` keeps the low `k + 1` bits of a byte.
proof fn lemma_masks(k: int)
    requires
        0 <= k < 8,
    ensures
        MASKS@[k] == (((1u16 << ((k + 1) as u16)) - 1) as u16) as u8,
        MASKS@[k] as u16 == ((1u16 << ((k + 1) as u16)) - 1) as u16,
{
    let kk = (k + 1) as u16;
    assert(MASKS@[0] == 0x01u8 && MASKS@[1] == 0x03u8 && MASKS@[2] == 0x07u8 && MASKS@[3] == 0x0fu8);
    assert(MASKS@[4] == 0x1fu8 && MASKS@[5] == 0x3fu8 && MASKS@[6] == 0x7fu8 && MASKS@[7] == 0xffu8);
    assert((((1u16 << kk) - 1) as u16) == if kk == 1 { 1u16 } else if kk == 2 { 3u16 } else if kk == 3 { 7u16 }
        else if kk == 4 { 15u16 } else if kk == 5 { 31u16 } else if kk == 6 { 63u16 } else if kk == 7 { 127u16 }
        else { 255u16 }) by (bit_vector)
        requires 1 <= kk <= 8;
}

proof fn lemma_merge_bits(out: u8, element: u16, obb: u8, chunk: u8, m: u16, l: u8)
    requires
        obb < 8,
        1 <= chunk <= 8 - obb,
        m == ((1u16 << (chunk as u16)) - 1) as u16,
        l < 8,
        (out as u16) >> (obb as u16) == 0,
    ensures
        ({
            let new = out | (((element & m) << (obb as u16)) as u8);
            &&& bit8(new, l as int) == (if l < obb { bit8(out, l as int) } else if l < obb + chunk {
                bit16(element, (l - obb) as int) } else { bit8(out, l as int) })
            &&& (new as u16) >> ((obb + chunk) as u16) == 0
        }),
{
    let new = out | (((element & m) << (obb as u16)) as u8);
    let lo = (l - obb) as u16;
    assert(((new >> l) & 1 == 1) == (if l < obb { (out >> l) & 1 == 1 } else if l < obb + chunk {
        (element >> ((l - obb) as u16)) & 1 == 1 } else { (out >> l) & 1 == 1 })
        && (new as u16) >> ((obb + chunk) as u16) == 0) by (bit_vector)
        requires
            obb < 8, 1 <= chunk <= 8 - obb, m == ((1u16 << (chunk as u16)) - 1) as u16, l < 8,
            (out as u16) >> (obb as u16) == 0,
            new == out | (((element & m) << (obb as u16)) as u8);
}

proof fn lemma_shifted_bits(x: u16, done: u16, chunk: u16, t: u16)
    requires
        done <= 255,
        chunk <= 8,
        t < 16,
    ensures
        (x >> done) >> chunk == x >> ((done + chunk) as u16),
        bit16(x >> done, t as int) == (done + t < 16 && bit16(x, (done + t) as int)),
{
    let dt = (done + t) as u16;
    assert((x >> done) >> chunk == x >> ((done + chunk) as u16)
        && bit16(x >> done, t as int) == (dt < 16 && bit16(x, dt as int))) by (bit_vector)
        requires done <= 255, chunk <= 8, t < 16, dt == done + t;
}

/// ByteEncode_d for any width: a bit-serial packer that moves up to eight bits
/// at a time from the current element into the current output byte.
pub fn _byte_encode_bssl_(f: [u16; N], enc: &mut [u8], bits: u8)
    requires
        old(enc)@.len() >= 32 * bits,
    ensures
        final(enc)@.len() == old(enc)@.len(),
        final(enc)@.subrange(0, 32 * bits) == byte_encode_spec(f@, bits as int),
        final(enc)@.subrange(32 * bits, old(enc)@.len() as int) == old(enc)@.subrange(32 * bits, old(enc)@.len() as int),
{
    let ghost e0 = enc@;
    let ghost fs = f@;
    let ghost d = bits as int;
    let mut out_byte = 0u8;
    let mut out_byte_bits = 0u8;
    let mut j = 0usize;
    proof { lemma_shr0(0u8 as u16); }
    let mut i: usize = 0;
    while i < N
        invariant
            0 <= i <= N,
            enc@.len() == e0.len(),
            e0.len() >= 32 * d,
            d == bits,
            fs == f@,
            8 * j + out_byte_bits == d * i,
            out_byte_bits < 8,
            (out_byte as u16) >> (out_byte_bits as u16) == 0,
            forall|l: int| 0 <= l < out_byte_bits ==> #[trigger] bit8(out_byte, l) == coeff_bit(fs, d, 8 * j + l),
            forall|k: int| 0 <= k < j ==> enc@[k] == #[trigger] byte_encode_spec(fs, d)[k],
            forall|k: int| j <= k < e0.len() ==> enc@[k] == #[trigger] e0[k],
        decreases N - i,
    {
        let mut element: u16 = f[i];
        let mut element_bits_done = 0u8;
        proof {
            let fi = fs[i as int];
            lemma_shr0(fi);
        }
        while element_bits_done < bits
            invariant
                enc@.len() == e0.len(),
                e0.len() >= 32 * d,
                d == bits,
                fs == f@,
                0 <= i < 256,
                element_bits_done <= bits,
                8 * j + out_byte_bits == d * i + element_bits_done,
                element == fs[i as int] >> (element_bits_done as u16),
                out_byte_bits < 8,
                (out_byte as u16) >> (out_byte_bits as u16) == 0,
                forall|l: int| 0 <= l < out_byte_bits ==> #[trigger] bit8(out_byte, l) == coeff_bit(fs, d, 8 * j + l),
                forall|k: int| 0 <= k < j ==> enc@[k] == #[trigger] byte_encode_spec(fs, d)[k],
                forall|k: int| j <= k < e0.len() ==> enc@[k] == #[trigger] e0[k],
            decreases bits - element_bits_done,
        {
            let mut chunk_bits = bits - element_bits_done;
            let out_bits_remaining = 8 - out_byte_bits;
            if chunk_bits >= out_bits_remaining {
                chunk_bits = out_bits_remaining;
            }
            let ghost old_out = out_byte;
            let ghost obb = out_byte_bits;
            proof { lemma_masks(chunk_bits as int - 1); }
            let m = MASKS[chunk_bits as usize - 1] as u16;
            let new_out = out_byte | ((element & m) << (out_byte_bits as u16)) as u8;
            proof {
                assert forall|l: int| 0 <= l < obb + chunk_bits implies #[trigger] bit8(new_out, l)
                    == coeff_bit(fs, d, 8 * j + l) by {
                    lemma_merge_bits(old_out, element, obb, chunk_bits, m, l as u8);
                    if l >= obb {
                        let t = l - obb;
                        lemma_shifted_bits(fs[i as int], element_bits_done as u16, 0, t as u16);
                        let c = element_bits_done + t;
                        assert(8 * j + l == d * i + c);
                        lemma_coeff_bit_at(fs, d, i as int, c);
                        assert(c / d == 0 && c % d == c) by (nonlinear_arith)
                            requires 0 <= c < d;
                        assert(c < 16 || !bit16(fs[i as int], c)) by {
                            let cc = c as u16;
                            let x = fs[i as int];
                            assert(cc >= 16 ==> !bit16(x, cc as int)) by (bit_vector);
                        }
                    }
                }
                lemma_merge_bits(old_out, element, obb, chunk_bits, m, 0);
                lemma_shifted_bits(fs[i as int], element_bits_done as u16, chunk_bits as u16, 0);
            }
            if chunk_bits == out_bits_remaining {
                proof {
                    assert(8 * j + 8 <= 256 * d) by (nonlinear_arith)
                        requires 8 * j + obb == d * i + element_bits_done, element_bits_done + chunk_bits <= d,
                            obb + chunk_bits == 8, 0 <= i < 256;
                    lemma_encoded_byte(fs, d, j as int, new_out, 0, 8 * j);
                }
                enc[j] = new_out;
                j += 1;
                out_byte_bits = 0;
                out_byte = 0;
                proof { lemma_shr0(0u8 as u16); }
            } else {
                out_byte = new_out;
                out_byte_bits += chunk_bits;
            }
            element_bits_done += chunk_bits;
            element >>= chunk_bits;
        }
        assert(d * i + d == d * (i + 1)) by (nonlinear_arith);
        i += 1;
    }
    proof {
        assert(8 * j + out_byte_bits == 256 * d) by (nonlinear_arith)
            requires 8 * j + out_byte_bits == d * i, i == 256;
        assert(out_byte_bits == 0 && j == 32 * d) by (nonlinear_arith)
            requires 8 * j + out_byte_bits == 256 * d, 0 <= out_byte_bits < 8;
    }
    if out_byte_bits > 0 {
        enc[j] = out_byte;
    }
    proof {
        lemma_encode_spec_len(fs, d);
        assert(enc@.subrange(0, 32 * d) =~= byte_encode_spec(fs, d));
        assert(enc@.subrange(32 * d, e0.len() as int) =~= e0.subrange(32 * d, e0.len() as int));
    }
}

proof fn lemma_go_step(c: u16, byte: u8, bidx: u8, cidx: u8, d: u8, nbits: u8, t: u16)
    requires
        bidx < 8,
        cidx < d,
        d <= 12,
        nbits == if 8 - bidx < d - cidx { 8 - bidx } else { d - cidx },
        c >> (cidx as u16) == 0,
        t < 16,
    ensures
        ({
            let new = (c | (((byte >> bidx) as u16) << (cidx as u16))) & (((1u16 << (d as u16)) - 1) as u16);
            &&& bit16(new, t as int) == (if t < cidx as u16 { bit16(c, t as int) } else if t < (cidx + nbits) as u16 {
                    bit8(byte, (bidx + t - cidx) as int) } else { false })
            &&& new >> ((cidx + nbits) as u16) == 0
        }),
{
    let new = (c | (((byte >> bidx) as u16) << (cidx as u16))) & (((1u16 << (d as u16)) - 1) as u16);
    assert(((new >> t) & 1 == 1) == (if t < cidx as u16 { (c >> t) & 1 == 1 } else if t < (cidx + nbits) as u16 {
        (byte >> ((bidx + t - cidx) as u8)) & 1 == 1 } else { false })
        && new >> ((cidx + nbits) as u16) == 0) by (bit_vector)
        requires
            bidx < 8, cidx < d, d <= 12, nbits == if 8 - bidx < d - cidx { 8 - bidx } else { d - cidx },
            c >> (cidx as u16) == 0, t < 16,
            new == (c | (((byte >> bidx) as u16) << (cidx as u16))) & (((1u16 << (d as u16)) - 1) as u16);
}

/// ByteDecode_d for d in {4, 5, 10, 11, 12}: a bit-serial unpacker that takes what
/// is left of the current byte, or what the current element still needs.
pub fn _byte_decode_go_crypto_(b: &[u8], dec: &mut [u16; N], d: u8)
    requires
        d == 4 || d == 5 || d == 10 || d == 11 || d == 12,
        b@.len() == 32 * d,
    ensures
        final(dec)@ == byte_decode_spec(b@, d as int),
{
    let ghost bs = b@;
    let ghost dd = d as int;
    let mut bidx: u8 = 0; // # bits filled in 'b' [0..8)
    let mut j: usize = 0;
    let mut i: usize = 0;
    while i < N
        invariant
            0 <= i <= N,
            bs == b@,
            dd == d,
            4 <= d <= 12,
            bs.len() == 32 * dd,
            8 * j + bidx == dd * i,
            bidx < 8,
            forall|k: int| 0 <= k < i ==> dec@[k] == #[trigger] byte_decode_spec(bs, dd)[k],
        decreases N - i,
    {
        let mut c: u16 = 0; // output byte
        let mut cidx: u8 = 0;
        proof { lemma_shr0(0u16); }
        while cidx < d
            invariant
                0 <= i < N,
                bs == b@,
                dd == d,
                4 <= d <= 12,
                bs.len() == 32 * dd,
                8 * j + bidx == dd * i + cidx,
                bidx < 8,
                cidx <= d,
                c >> (cidx as u16) == 0,
                forall|t: int| 0 <= t < cidx ==> #[trigger] bit16(c, t) == bit8(bs[(dd * i + t) / 8], (dd * i + t) % 8),
            decreases d - cidx,
        {
            proof {
                assert(dd * i + dd <= 256 * dd) by (nonlinear_arith)
                    requires 0 <= i < 256, dd >= 0;
            }
            assert(j < b.len());
            proof {
                vstd::arithmetic::power2::lemma2_to64();
                assert(vstd::arithmetic::power2::pow2(d as nat) <= 4096);
                vstd::bits::lemma_u16_shl_is_mul(1u16, d as u16);
                vstd::arithmetic::power2::lemma_pow2_pos(d as nat);
            }
            let byte = b[j];
            let nbits = if 8 - bidx < d - cidx { 8 - bidx } else { d - cidx };
            let new_c = (c | (((byte >> bidx) as u16) << (cidx as u16))) & ((1u16 << (d as u16)) - 1);
            proof {
                assert forall|t: int| 0 <= t < cidx + nbits implies #[trigger] bit16(new_c, t)
                    == bit8(bs[(dd * i + t) / 8], (dd * i + t) % 8) by {
                    lemma_go_step(c, byte, bidx, cidx, d, nbits, t as u16);
                    if t >= cidx {
                        assert(dd * i + t == 8 * j + (bidx + t - cidx));
                        assert((dd * i + t) / 8 == j && (dd * i + t) % 8 == bidx + t - cidx);
                    }
                }
                lemma_go_step(c, byte, bidx, cidx, d, nbits, 0);
            }
            c = new_c;
            bidx += nbits;
            cidx += nbits;
            if bidx == 8 {
                j += 1;
                bidx = 0;
            }
        }
        proof {
            assert forall|t: int| 0 <= t < 16 implies #[trigger] bit16(c, t) == (t < dd && bit8(bs[0 + (dd * i + t) / 8], (dd * i + t) % 8)) by {
                if t >= dd {
                    let tt = t as u16;
                    let dc = cidx as u16;
                    lemma_high_bits_clear(c, dc, tt);
                }
            }
            lemma_decoded_elem(bs, dd, i as int, c, 0, dd * i);
            assert(dd * i + dd == dd * (i + 1)) by (nonlinear_arith);
        }
        dec[i] = c;
        i += 1;
    }
    proof { lemma_decode_spec_len(bs, dd); }
    assert(dec@ =~= byte_decode_spec(bs, dd));
}

proof fn lemma_bssl_step(element: u16, in_byte: u8, done: u8, chunk: u8, m: u8, t: u16)
    requires
        done < 16,
        1 <= chunk <= 8,
        done + chunk <= 16,
        m == (((1u16 << (chunk as u16)) - 1) as u16) as u8,
        element >> (done as u16) == 0,
        t < 16,
    ensures
        ({
            let new = element | (((in_byte & m) as u16) << (done as u16));
            &&& bit16(new, t as int) == (if t < done as u16 { bit16(element, t as int) } else if t < (done + chunk) as u16 {
                    bit8(in_byte, (t - done) as int) } else { false })
            &&& new >> ((done + chunk) as u16) == 0
        }),
{
    let new = element | (((in_byte & m) as u16) << (done as u16));
    assert(((new >> t) & 1 == 1) == (if t < done as u16 { (element >> t) & 1 == 1 } else if t < (done + chunk) as u16 {
        (in_byte >> ((t - done) as u8)) & 1 == 1 } else { false })
        && new >> ((done + chunk) as u16) == 0) by (bit_vector)
        requires
            done < 16, 1 <= chunk <= 8, done + chunk <= 16, m == (((1u16 << (chunk as u16)) - 1) as u16) as u8,
            element >> (done as u16) == 0, t < 16,
            new == element | (((in_byte & m) as u16) << (done as u16));
}

proof fn lemma_byte_shift(in_byte: u8, chunk: u8, l: u8)
    requires
        chunk < 8,
        l < 8 - chunk,
    ensures
        bit8(in_byte >> chunk, l as int) == bit8(in_byte, (l + chunk) as int),
{
    let lc = (l + chunk) as u8;
    assert((((in_byte >> chunk) >> l) & 1 == 1) == ((in_byte >> lc) & 1 == 1)) by (bit_vector)
        requires chunk < 8, l < 8 - chunk, lc == l + chunk;
}

/// ByteDecode_d for 1 < d <= 12 that stops at the first element that is not below q.
/// Returns whether every element is below q; elements from the first one that is not
/// are left as they were.
pub fn _byte_decode_bssl_(enc: &[u8], dec: &mut [u16; N], bits: u8) -> (ok: bool)
    requires
        1 < bits <= 12,
        enc@.len() >= 32 * bits,
    ensures
        ok == (forall|k: int| 0 <= k < 256 ==> #[trigger] byte_decode_spec(enc@, bits as int)[k] < 3329),
        ok ==> final(dec)@ == byte_decode_spec(enc@, bits as int),
        !ok ==> exists|k: int| #![trigger byte_decode_spec(enc@, bits as int)[k]]
            0 <= k < 256 && byte_decode_spec(enc@, bits as int)[k] >= 3329
            && (forall|m: int| 0 <= m < k ==> byte_decode_spec(enc@, bits as int)[m] < 3329
                && final(dec)@[m] == #[trigger] byte_decode_spec(enc@, bits as int)[m])
            && (forall|m: int| k <= m < 256 ==> #[trigger] final(dec)@[m] == old(dec)@[m]),
{
    let ghost bs = enc@;
    let ghost d = bits as int;
    let ghost dec0 = dec@;
    assert(dec0 == old(dec)@);
    let mut in_byte = 0u8;
    let mut in_byte_bits_left = 0u8;

    let mut j: usize = 0;
    let mut i: usize = 0;
    while i < N
        invariant
            0 <= i <= N,
            bs == enc@,
            d == bits,
            2 <= d <= 12,
            bs.len() >= 32 * d,
            8 * j - in_byte_bits_left == d * i,
            in_byte_bits_left <= 8,
            in_byte_bits_left > 0 ==> j >= 1 && forall|l: int| 0 <= l < in_byte_bits_left ==>
                #[trigger] bit8(in_byte, l) == bit8(bs[j - 1], 8 - in_byte_bits_left + l),
            forall|k: int| 0 <= k < i ==> byte_decode_spec(bs, d)[k] < 3329
                && dec@[k] == #[trigger] byte_decode_spec(bs, d)[k],
            forall|k: int| i <= k < 256 ==> #[trigger] dec@[k] == dec0[k],
            dec0 == old(dec)@,
        decreases N - i,
    {
        let mut element: u16 = 0;
        let mut element_bits_done = 0u8;
        proof { lemma_shr0(0u16); }
        while element_bits_done < bits
            invariant
                0 <= i < N,
                bs == enc@,
                d == bits,
                2 <= d <= 12,
                bs.len() >= 32 * d,
                8 * j - in_byte_bits_left == d * i + element_bits_done,
                in_byte_bits_left <= 8,
                in_byte_bits_left > 0 ==> j >= 1 && forall|l: int| 0 <= l < in_byte_bits_left ==>
                    #[trigger] bit8(in_byte, l) == bit8(bs[j - 1], 8 - in_byte_bits_left + l),
                element_bits_done <= bits,
                element >> (element_bits_done as u16) == 0,
                forall|t: int| 0 <= t < element_bits_done ==> #[trigger] bit16(element, t)
                    == bit8(bs[(d * i + t) / 8], (d * i + t) % 8),
            decreases bits - element_bits_done,
        {
            if in_byte_bits_left == 0 {
                proof {
                    assert(d * i + d <= 256 * d) by (nonlinear_arith)
                        requires 0 <= i < 256, d >= 0;
                }
                assert(j < enc.len());
                in_byte = enc[j];
                j += 1;
                in_byte_bits_left = 8;
            }
            let mut chunk_bits = bits - element_bits_done;
            if chunk_bits > in_byte_bits_left {
                chunk_bits = in_byte_bits_left;
            }
            proof { lemma_masks(chunk_bits as int - 1); }
            let m = MASKS[chunk_bits as usize - 1];
            let new_element = element | ((in_byte & m) as u16) << (element_bits_done as u16);
            proof {
                let jb = j - 1;
                assert forall|t: int| 0 <= t < element_bits_done + chunk_bits implies #[trigger] bit16(new_element, t)
                    == bit8(bs[(d * i + t) / 8], (d * i + t) % 8) by {
                    lemma_bssl_step(element, in_byte, element_bits_done, chunk_bits, m, t as u16);
                    if t >= element_bits_done {
                        let l = t - element_bits_done;
                        assert(bit8(in_byte, l) == bit8(bs[jb], 8 - in_byte_bits_left + l));
                        assert(d * i + t == 8 * jb + (8 - in_byte_bits_left + l));
                        assert((d * i + t) / 8 == jb && (d * i + t) % 8 == 8 - in_byte_bits_left + l);
                    }
                }
                lemma_bssl_step(element, in_byte, element_bits_done, chunk_bits, m, 0);
            }
            element = new_element;
            let ghost old_in = in_byte;
            let ghost old_left = in_byte_bits_left;
            in_byte_bits_left -= chunk_bits;
            if chunk_bits < 8 {
                in_byte >>= chunk_bits;
            } else {
                in_byte = 0;
            }
            proof {
                if in_byte_bits_left > 0 {
                    assert forall|l: int| 0 <= l < in_byte_bits_left implies #[trigger] bit8(in_byte, l)
                        == bit8(bs[j - 1], 8 - in_byte_bits_left + l) by {
                        lemma_byte_shift(old_in, chunk_bits, l as u8);
                        assert(bit8(old_in, l + chunk_bits) == bit8(bs[j - 1], 8 - old_left + l + chunk_bits));
                    }
                }
            }

            element_bits_done += chunk_bits;
        }
        proof {
            assert forall|t: int| 0 <= t < 16 implies #[trigger] bit16(element, t) == (t < d && bit8(bs[0 + (d * i + t) / 8], (d * i + t) % 8)) by {
                if t >= d {
                    let tt = t as u16;
                    let dc = element_bits_done as u16;
                    lemma_high_bits_clear(element, dc, tt);
                }
            }
            lemma_decoded_elem(bs, d, i as int, element, 0, d * i);
            assert(d * i + d == d * (i + 1)) by (nonlinear_arith);
        }
        // An element is only out of range in the case of invalid input, in which
        // case it is okay to leak the comparison.
        if element >= Q as u16 {
            proof {
                let k = i as int;
                assert(element == byte_decode_spec(bs, d)[k]);
                assert(byte_decode_spec(enc@, bits as int)[k] >= 3329);
                assert(forall|m: int| k <= m < 256 ==> #[trigger] dec@[m] == dec0[m]);
                assert(forall|m: int| 0 <= m < k ==> byte_decode_spec(enc@, bits as int)[m] < 3329
                        && dec@[m] == #[trigger] byte_decode_spec(enc@, bits as int)[m]);
                assert(0 <= k < 256 && byte_decode_spec(enc@, bits as int)[k] >= 3329
                    && (forall|m: int| 0 <= m < k ==> byte_decode_spec(enc@, bits as int)[m] < 3329
                        && dec@[m] == #[trigger] byte_decode_spec(enc@, bits as int)[m])
                    && (forall|m: int| k <= m < 256 ==> #[trigger] dec@[m] == old(dec)@[m]));
            }
            return false;
        }
        dec[i] = element;
        i += 1;
    }
    proof { lemma_decode_spec_len(bs, d); }
    assert(dec@ =~= byte_decode_spec(bs, d));
    true
}

} // verus!
