use vstd::prelude::*;
use vstd::std_specs::convert::FromSpecImpl;
use crate::params::{N, DU, DV};
use crate::field::{FieldElement, modq, modq_accepts, compress, compress_value};
use crate::ntt::{add_input_ok, ints};
use crate::codec::{byte_encode, byte_decode_1, byte_encode_spec, byte_decode_spec, byte_bit, bit8,
    lemma_byte_bit_at};

verus! {

/// A polynomial of R_q = Z_q[X] / (X^256 + 1), held as its 256 coefficients.
#[derive(Clone, Copy, Debug)]
pub struct RingElement {
    c: [i32; N],
}

impl View for RingElement {
    type V = Seq<i32>;

    closed spec fn view(&self) -> Seq<i32> {
        self.c@
    }
}

pub type Poly = RingElement;

/// Every polynomial has 256 coefficients.
pub proof fn lemma_poly_view_len(p: &RingElement)
    ensures
        p@.len() == 256,
{
}

/// The coefficients truncated to 16 bits, as `as u16` does.
pub open spec fn low16(c: Seq<i32>) -> Seq<u16> {
    c.map_values(|x: i32| x as u16)
}

/// The 16-bit values widened to 32 bits.
pub open spec fn widen(v: Seq<u16>) -> Seq<i32> {
    v.map_values(|x: u16| x as i32)
}

impl Default for RingElement {
    fn default() -> (r: Self)
        ensures
            r@ == Seq::new(256, |i: int| 0i32),
    {
        let r = Self { c: [0; N] };
        assert(r@ =~= Seq::new(256, |i: int| 0i32));
        r
    }
}

impl From<&[FieldElement; N]> for RingElement {
    fn from(farr: &[FieldElement; N]) -> (r: Self)
        ensures
            r@.len() == 256,
            r@ == field_values(farr@),
            forall|i: int| 0 <= i < 256 ==> #[trigger] r@[i] as int == farr@[i]@,
    {
        let mut c = [0i32; N];
        let mut i: usize = 0;
        while i < N
            invariant
                0 <= i <= N,
                c@.len() == 256,
                forall|k: int| 0 <= k < i ==> #[trigger] c@[k] as int == farr@[k]@,
            decreases N - i,
        {
            c[i] = farr[i].value();
            i += 1;
        }
        let r = Self { c };
        proof {
            assert(r@ =~= field_values(farr@));
            let w = choose|w: RingElement| w@ == field_values(farr@);
            lemma_view_determines(w, r);
        }
        r
    }
}

/// The representatives of field elements, as 32-bit integers.
pub open spec fn field_values(farr: Seq<FieldElement>) -> Seq<i32> {
    farr.map_values(|e: FieldElement| e@ as i32)
}

impl FromSpecImpl<&[FieldElement; N]> for RingElement {
    open spec fn obeys_from_spec() -> bool {
        true
    }

    open spec fn from_spec(farr: &[FieldElement; N]) -> Self {
        choose|r: RingElement| r@ == field_values(farr@)
    }
}

proof fn lemma_view_determines(a: RingElement, b: RingElement)
    requires
        a@ == b@,
    ensures
        a == b,
{
    assert(a.c =~= b.c);
}

impl From<&[u16; N]> for RingElement {
    fn from(farr: &[u16; N]) -> (r: Self)
        ensures
            r@.len() == 256,
            r@ == widen(farr@),
    {
        let mut c = [0i32; N];
        let mut i: usize = 0;
        while i < N
            invariant
                0 <= i <= N,
                c@.len() == 256,
                forall|k: int| 0 <= k < i ==> #[trigger] c@[k] == farr@[k] as i32,
            decreases N - i,
        {
            c[i] = farr[i] as i32;
            i += 1;
        }
        let r = Self { c };
        proof {
            assert(r@ =~= widen(farr@));
            let w = choose|w: RingElement| w@ == widen(farr@);
            lemma_view_determines(w, r);
        }
        r
    }
}

impl FromSpecImpl<&[u16; N]> for RingElement {
    open spec fn obeys_from_spec() -> bool {
        true
    }

    open spec fn from_spec(farr: &[u16; N]) -> Self {
        choose|r: RingElement| r@ == widen(farr@)
    }
}

impl From<&[i32; N]> for RingElement {
    fn from(farr: &[i32; N]) -> (r: Self)
        ensures
            r@.len() == 256,
            r@ == farr@,
    {
        let r = Self { c: *farr };
        proof {
            let w = choose|w: RingElement| w@ == farr@;
            lemma_view_determines(w, r);
        }
        r
    }
}

impl FromSpecImpl<&[i32; N]> for RingElement {
    open spec fn obeys_from_spec() -> bool {
        true
    }

    open spec fn from_spec(farr: &[i32; N]) -> Self {
        choose|r: RingElement| r@ == farr@
    }
}

impl From<&RingElement> for [u16; N] {
    /// The coefficients truncated to 16 bits.
    fn from(p: &RingElement) -> (r: [u16; N])
        ensures
            r@ == low16(p@),
    {
        let mut out = [0u16; N];
        let mut i: usize = 0;
        while i < N
            invariant
                0 <= i <= N,
                out@.len() == 256,
                p@.len() == 256,
                forall|k: int| 0 <= k < i ==> #[trigger] out@[k] == p@[k] as u16,
            decreases N - i,
        {
            out[i] = p.c[i] as u16;
            i += 1;
        }
        assert(out@ =~= low16(p@));
        out
    }
}

impl FromSpecImpl<&RingElement> for [u16; N] {
    open spec fn obeys_from_spec() -> bool {
        true
    }

    open spec fn from_spec(p: &RingElement) -> [u16; N] {
        choose|r: [u16; N]| r@ == low16(p@)
    }
}

impl From<&RingElement> for [i32; N] {
    fn from(p: &RingElement) -> (r: [i32; N])
        ensures
            r@ == p@,
    {
        p.c
    }
}

impl FromSpecImpl<&RingElement> for [i32; N] {
    open spec fn obeys_from_spec() -> bool {
        true
    }

    open spec fn from_spec(p: &RingElement) -> [i32; N] {
        choose|r: [i32; N]| r@ == p@
    }
}

impl RingElement {
    /// Coefficient `i` (the coefficient of X^i).
    pub fn get(&self, i: usize) -> (r: i32)
        requires
            i < N,
        ensures
            r == self@[i as int],
    {
        self.c[i]
    }

    /// The coefficients, truncated to 16 bits, through ByteEncode_du.
    pub fn byte_encode_du(&self) -> (r: [u8; 320])
        ensures
            r@ == byte_encode_spec(low16(self@), DU as int),
    {
        let mut arr = [0u8; 320];
        let f: [u16; N] = self.into();
        byte_encode(f, &mut arr, DU);
        assert(arr@ =~= arr@.subrange(0, 320));
        arr
    }

    /// The coefficients, truncated to 16 bits, through ByteEncode_dv.
    pub fn byte_encode_dv(&self) -> (r: [u8; 128])
        ensures
            r@ == byte_encode_spec(low16(self@), DV as int),
    {
        let mut arr = [0u8; 128];
        let f: [u16; N] = self.into();
        byte_encode(f, &mut arr, DV);
        assert(arr@ =~= arr@.subrange(0, 128));
        arr
    }

    /// ByteDecode_1 of a 32-byte message: coefficient `i` is bit `i` of `b`.
    pub fn byte_decode_1(b: &[u8; 32]) -> (r: Self)
        ensures
            r@ == widen(byte_decode_spec(b@, 1)),
    {
        let mut r: [u16; N] = [0u16; N];
        byte_decode_1(b, &mut r);
        (&r).into()
    }
}

impl Poly {
    /// The coefficients.
    pub fn coeff(&self) -> (r: [i32; N])
        ensures
            r@ == self@,
    {
        self.c
    }

    /// The polynomial with the given coefficients.
    pub fn from_coefficients(c: [i32; N]) -> (r: Poly)
        ensures
            r@ == c@,
    {
        Poly { c }
    }
}

/// Bit `p` of a byte string as 0 or 1.
pub open spec fn bit_value(b: Seq<u8>, p: int) -> int {
    if byte_bit(b, p) { 1 } else { 0 }
}

/// Coefficient `i` of SamplePolyCBD_eta (FIPS 203, Alg. 8) for eta in {2, 3}: the sum
/// of the next eta bits minus the sum of the eta bits after them, modulo q.
pub open spec fn cbd_coeff(b: Seq<u8>, eta: int, i: int) -> int {
    let p = 2 * eta * i;
    let x = if eta == 2 { bit_value(b, p) + bit_value(b, p + 1) } else {
        bit_value(b, p) + bit_value(b, p + 1) + bit_value(b, p + 2) };
    let y = if eta == 2 { bit_value(b, p + 2) + bit_value(b, p + 3) } else {
        bit_value(b, p + 3) + bit_value(b, p + 4) + bit_value(b, p + 5) };
    (x - y) % 3329
}

/// SamplePolyCBD_eta of 64 * eta bytes.
pub open spec fn sample_cbd_spec(b: Seq<u8>, eta: int) -> Seq<int> {
    Seq::new(256, |i: int| cbd_coeff(b, eta, i))
}

/// Every coefficient of SamplePolyCBD_eta lies in `{-eta, ..., eta}` modulo q.
pub proof fn lemma_cbd_range(b: Seq<u8>, eta: int, i: int)
    requires
        eta == 2 || eta == 3,
    ensures
        0 <= cbd_coeff(b, eta, i) <= eta || 3329 - eta <= cbd_coeff(b, eta, i) < 3329,
{
    let p = 2 * eta * i;
    let x = if eta == 2 { bit_value(b, p) + bit_value(b, p + 1) } else {
        bit_value(b, p) + bit_value(b, p + 1) + bit_value(b, p + 2) };
    let y = if eta == 2 { bit_value(b, p + 2) + bit_value(b, p + 3) } else {
        bit_value(b, p + 3) + bit_value(b, p + 4) + bit_value(b, p + 5) };
    assert(0 <= x <= eta && 0 <= y <= eta);
    if x >= y {
        vstd::arithmetic::div_mod::lemma_small_mod((x - y) as nat, 3329);
    } else {
        vstd::arithmetic::div_mod::lemma_fundamental_div_mod_converse(x - y, 3329, -1, x - y + 3329);
    }
}

proof fn lemma_nibble_sums(v: u8)
    ensures
        ({
            let w = v & 0xF;
            let x = (w & 1) + ((w >> 1u8) & 1);
            let y = ((w >> 2u8) & 1) + ((w >> 3u8) & 1);
            &&& x as int == (if bit8(v, 0) { 1int } else { 0 }) + (if bit8(v, 1) { 1int } else { 0 })
            &&& y as int == (if bit8(v, 2) { 1int } else { 0 }) + (if bit8(v, 3) { 1int } else { 0 })
        }),
        ({
            let w = v & 0xF0;
            let x = ((w >> 4u8) & 1) + ((w >> 5u8) & 1);
            let y = ((w >> 6u8) & 1) + ((w >> 7u8) & 1);
            &&& x as int == (if bit8(v, 4) { 1int } else { 0 }) + (if bit8(v, 5) { 1int } else { 0 })
            &&& y as int == (if bit8(v, 6) { 1int } else { 0 }) + (if bit8(v, 7) { 1int } else { 0 })
        }),
{
    assert(((v & 0xF) & 1) == (if (v >> 0u8) & 1 == 1 { 1u8 } else { 0u8 })
        && (((v & 0xF) >> 1u8) & 1) == (if (v >> 1u8) & 1 == 1 { 1u8 } else { 0u8 })
        && (((v & 0xF) >> 2u8) & 1) == (if (v >> 2u8) & 1 == 1 { 1u8 } else { 0u8 })
        && (((v & 0xF) >> 3u8) & 1) == (if (v >> 3u8) & 1 == 1 { 1u8 } else { 0u8 })
        && (((v & 0xF0) >> 4u8) & 1) == (if (v >> 4u8) & 1 == 1 { 1u8 } else { 0u8 })
        && (((v & 0xF0) >> 5u8) & 1) == (if (v >> 5u8) & 1 == 1 { 1u8 } else { 0u8 })
        && (((v & 0xF0) >> 6u8) & 1) == (if (v >> 6u8) & 1 == 1 { 1u8 } else { 0u8 })
        && (((v & 0xF0) >> 7u8) & 1) == (if (v >> 7u8) & 1 == 1 { 1u8 } else { 0u8 })) by (bit_vector);
}

proof fn lemma_word_bits(w0: u32, b0: u8, b1: u8, b2: u8, j: u32, k: u32)
    requires
        w0 == (b0 as u32) | ((b1 as u32) << 8u32) | ((b2 as u32) << 16u32),
        j < 4,
        k < 6,
    ensures
        (((w0 >> (6 * j)) >> k) & 1 == 1) == (((if (6 * j + k) / 8 == 0 { b0 } else if (6 * j + k) / 8 == 1 { b1 }
            else { b2 }) >> (((6 * j + k) % 8) as u8)) & 1 == 1),
        (w0 >> (6 * j)) >> 6u32 == w0 >> (6 * (j + 1)),
        w0 >> 0u32 == w0,
{
    assert((((w0 >> (6 * j)) >> k) & 1 == 1) == (((if (6 * j + k) / 8 == 0 { b0 } else if (6 * j + k) / 8 == 1 { b1 }
            else { b2 }) >> (((6 * j + k) % 8) as u8)) & 1 == 1)
        && (w0 >> (6 * j)) >> 6u32 == w0 >> (6 * (j + 1))
        && w0 >> 0u32 == w0) by (bit_vector)
        requires w0 == (b0 as u32) | ((b1 as u32) << 8u32) | ((b2 as u32) << 16u32), j < 4, k < 6;
}

proof fn lemma_three_bits(w: u32)
    ensures
        ((w >> 0u32) & 1) + ((w >> 1u32) & 1) + ((w >> 2u32) & 1) == (if (w >> 0u32) & 1 == 1 { 1int } else { 0 })
            + (if (w >> 1u32) & 1 == 1 { 1int } else { 0 }) + (if (w >> 2u32) & 1 == 1 { 1int } else { 0 }),
        ((w >> 3u32) & 1) + ((w >> 4u32) & 1) + ((w >> 5u32) & 1) == (if (w >> 3u32) & 1 == 1 { 1int } else { 0 })
            + (if (w >> 4u32) & 1 == 1 { 1int } else { 0 }) + (if (w >> 5u32) & 1 == 1 { 1int } else { 0 }),
        ((w >> 0u32) & 1) + ((w >> 1u32) & 1) + ((w >> 2u32) & 1) <= 3,
        ((w >> 3u32) & 1) + ((w >> 4u32) & 1) + ((w >> 5u32) & 1) <= 3,
{
    assert((w >> 0u32) & 1 == (if (w >> 0u32) & 1 == 1 { 1u32 } else { 0u32 })
        && (w >> 1u32) & 1 == (if (w >> 1u32) & 1 == 1 { 1u32 } else { 0u32 })
        && (w >> 2u32) & 1 == (if (w >> 2u32) & 1 == 1 { 1u32 } else { 0u32 })
        && (w >> 3u32) & 1 == (if (w >> 3u32) & 1 == 1 { 1u32 } else { 0u32 })
        && (w >> 4u32) & 1 == (if (w >> 4u32) & 1 == 1 { 1u32 } else { 0u32 })
        && (w >> 5u32) & 1 == (if (w >> 5u32) & 1 == 1 { 1u32 } else { 0u32 })) by (bit_vector);
}

impl Poly {
    /// Mutable access to the coefficients.
    pub fn coefficients(&mut self) -> (r: &mut [i32])
        ensures
            r@ == old(self)@,
            final(self)@ == final(r)@,
    {
        &mut self.c
    }

    /// Coefficient-wise sum, reduced into `[0, q)`.
    pub fn add(&self, t: &Poly) -> (r: Poly)
        requires
            add_input_ok(self@, t@),
        ensures
            r@.len() == 256,
            forall|k: int| 0 <= k < 256 ==> #[trigger] r@[k] as int == (self@[k] + t@[k]) % 3329,
    {
        let mut c = [0i32; N];
        let mut i: usize = 0;
        while i < N
            invariant
                0 <= i <= N,
                c@.len() == 256,
                add_input_ok(self@, t@),
                forall|k: int| 0 <= k < i ==> #[trigger] c@[k] as int == (self@[k] + t@[k]) % 3329,
            decreases N - i,
        {
            assert(modq_accepts(self@[i as int] + t@[i as int]));
            c[i] = modq(self.c[i] + t.c[i]);
            i += 1;
        }
        Poly { c }
    }

    /// Compress_d of every coefficient (taken as its low 16 bits).
    pub fn compress<const D: u8>(&self) -> (r: Poly)
        requires
            D < 12,
            forall|k: int| 0 <= k < 256 ==> (#[trigger] self@[k] as u16) < 3329,
        ensures
            r@.len() == 256,
            forall|k: int| 0 <= k < 256 ==> #[trigger] r@[k] as int == compress_value(D as nat, (self@[k] as u16) as int),
    {
        let mut out = [0u16; N];
        let mut i: usize = 0;
        while i < N
            invariant
                0 <= i <= N,
                D < 12,
                out@.len() == 256,
                forall|k: int| 0 <= k < 256 ==> (#[trigger] self@[k] as u16) < 3329,
                forall|k: int| 0 <= k < i ==> #[trigger] out@[k] as int == compress_value(D as nat, (self@[k] as u16) as int),
            decreases N - i,
        {
            assert((self@[i as int] as u16) < 3329);
            out[i] = compress::<D>(self.c[i] as u16);
            i += 1;
        }
        Poly::from(&out)
    }

    /// SamplePolyCBD_2 (FIPS 203, Alg. 8 with eta = 2) of 128 bytes.
    pub(crate) fn sample_poly_cbd_eta_2(&mut self, b: &[u8; 128])
        ensures
            ints(final(self)@) == sample_cbd_spec(b@, 2),
    {
        let ghost bs = b@;
        let mut i: usize = 0;
        while i < N / 2
            invariant
                0 <= i <= N / 2,
                bs == b@,
                self@.len() == 256,
                forall|k: int| 0 <= k < 2 * i ==> #[trigger] self@[k] as int == cbd_coeff(bs, 2, k),
            decreases N / 2 - i,
        {
            let v = b[i];
            proof {
                lemma_nibble_sums(v);
                let ii = i as int;
                assert forall|c: int| 0 <= c < 8 implies #[trigger] byte_bit(bs, 8 * ii + c) == bit8(v, c) by {
                    lemma_byte_bit_at(bs, ii, c);
                }
                assert(2 * 2 * (2 * ii) == 8 * ii + 0) by (nonlinear_arith);
                assert(2 * 2 * (2 * ii + 1) == 8 * ii + 4) by (nonlinear_arith);
                assert(byte_bit(bs, 8 * ii + 1) == bit8(v, 1));
                assert(byte_bit(bs, 8 * ii + 2) == bit8(v, 2));
                assert(byte_bit(bs, 8 * ii + 3) == bit8(v, 3));
                assert(byte_bit(bs, 8 * ii + 4) == bit8(v, 4));
                assert(byte_bit(bs, 8 * ii + 5) == bit8(v, 5));
                assert(byte_bit(bs, 8 * ii + 6) == bit8(v, 6));
                assert(byte_bit(bs, 8 * ii + 7) == bit8(v, 7));
                assert(byte_bit(bs, 8 * ii + 0) == bit8(v, 0));
            }
            let w = b[i] & 0xF;
            let x = (w & 1) + ((w >> 1u8) & 1);
            let y = ((w >> 2u8) & 1) + ((w >> 3u8) & 1);
            self.c[i * 2] = FieldElement::reduce_once(x as i32 - y as i32);
            let w = b[i] & 0xF0;
            let x = ((w >> 4u8) & 1) + ((w >> 5u8) & 1);
            let y = ((w >> 6u8) & 1) + ((w >> 7u8) & 1);
            self.c[i * 2 + 1] = FieldElement::reduce_once(x as i32 - y as i32);
            i += 1;
        }
        assert(ints(self@) =~= sample_cbd_spec(bs, 2));
    }

    /// SamplePolyCBD_3 (FIPS 203, Alg. 8 with eta = 3) of 192 bytes.
    pub fn sample_poly_cbd_eta_3(&mut self, b: &[u8; 192])
        ensures
            ints(final(self)@) == sample_cbd_spec(b@, 3),
    {
        let ghost bs = b@;
        let mut i: usize = 0;
        while i < N / 4
            invariant
                0 <= i <= N / 4,
                bs == b@,
                self@.len() == 256,
                forall|k: int| 0 <= k < 4 * i ==> #[trigger] self@[k] as int == cbd_coeff(bs, 3, k),
            decreases N / 4 - i,
        {
            // read 24 bits
            let mut w: u32 = b[i * 3 + 0] as u32 | ((b[i * 3 + 1] as u32) << 8u32) | ((b[i * 3 + 2] as u32) << 16u32);
            let ghost w0 = w;
            // use 6 bits for each coefficient
            let mut j: usize = 0;
            proof { lemma_word_bits(w0, bs[3 * i], bs[3 * i + 1], bs[3 * i + 2], 0, 0); }
            while j < 4
                invariant
                    0 <= i < N / 4,
                    0 <= j <= 4,
                    bs == b@,
                    self@.len() == 256,
                    w0 == (bs[3 * i] as u32) | ((bs[3 * i + 1] as u32) << 8u32) | ((bs[3 * i + 2] as u32) << 16u32),
                    w == w0 >> ((6 * j) as u32),
                    forall|k: int| 0 <= k < 4 * i + j ==> #[trigger] self@[k] as int == cbd_coeff(bs, 3, k),
                decreases 4 - j,
            {
                proof {
                    let ii = i as int;
                    let jj = j as int;
                    assert forall|k: int| 0 <= k < 6 implies #[trigger] byte_bit(bs, 24 * ii + 6 * jj + k)
                        == ((w >> (k as u32)) & 1 == 1) by {
                        lemma_word_bits(w0, bs[3 * ii], bs[3 * ii + 1], bs[3 * ii + 2], j as u32, k as u32);
                        lemma_byte_bit_at(bs, 3 * ii, 6 * jj + k);
                    }
                    assert(2 * 3 * (4 * ii + jj) == 24 * ii + 6 * jj) by (nonlinear_arith);
                    assert(byte_bit(bs, 24 * ii + 6 * jj + 0) == ((w >> 0u32) & 1 == 1));
                    assert(byte_bit(bs, 24 * ii + 6 * jj + 1) == ((w >> 1u32) & 1 == 1));
                    assert(byte_bit(bs, 24 * ii + 6 * jj + 2) == ((w >> 2u32) & 1 == 1));
                    assert(byte_bit(bs, 24 * ii + 6 * jj + 3) == ((w >> 3u32) & 1 == 1));
                    assert(byte_bit(bs, 24 * ii + 6 * jj + 4) == ((w >> 4u32) & 1 == 1));
                    assert(byte_bit(bs, 24 * ii + 6 * jj + 5) == ((w >> 5u32) & 1 == 1));
                    lemma_three_bits(w);
                    lemma_word_bits(w0, bs[3 * ii], bs[3 * ii + 1], bs[3 * ii + 2], j as u32, 0);
                }
                let x = ((w >> 0u32) & 1) + ((w >> 1u32) & 1) + ((w >> 2u32) & 1);
                let y = ((w >> 3u32) & 1) + ((w >> 4u32) & 1) + ((w >> 5u32) & 1);
                let d = FieldElement::sub(&FieldElement::from(x as i32), &FieldElement::from(y as i32));
                proof {
                    vstd::arithmetic::div_mod::lemma_small_mod(x as nat, 3329);
                    vstd::arithmetic::div_mod::lemma_small_mod(y as nat, 3329);
                }
                self.c[i * 4 + j] = d.into();
                w >>= 6u32;
                j += 1;
            }
            i += 1;
        }
        assert(ints(self@) =~= sample_cbd_spec(bs, 3));
    }
}

/// `b` with bit `p` (bit `p % 8` of byte `p / 8`, least significant first) set to 1.
pub open spec fn set_bit(b: Seq<u8>, p: int) -> Seq<u8> {
    b.update(p / 8, b[p / 8] | (1u8 << ((p % 8) as u8)))
}

/// Setting bit `l` of a byte sets bit `l` and keeps the others.
proof fn lemma_or_bit(x: u8, l: u8, m: u8)
    by (bit_vector)
    requires
        l < 8,
        m < 8,
    ensures
        ((x | (1u8 << l)) >> m) & 1 == (if m == l { 1u8 } else { (x >> m) & 1 }),
        (0u8 >> m) & 1 == 0,
{
}

/// Bit `r` of `set_bit(b, p)` is 1 at `p` and bit `r` of `b` elsewhere.
proof fn lemma_set_bit_value(b: Seq<u8>, p: int, r: int)
    requires
        0 <= p,
        0 <= r,
        p / 8 < b.len(),
        r / 8 < b.len(),
    ensures
        bit_value(set_bit(b, p), r) == (if r == p { 1 } else { bit_value(b, r) }),
{
    let nb = set_bit(b, p);
    lemma_or_bit(b[p / 8], (p % 8) as u8, (r % 8) as u8);
    if r / 8 == p / 8 {
        assert(r == p <==> r % 8 == p % 8);
    }
}

/// Which coefficient bit `p` feeds, and where within it.
proof fn lemma_bit_owner(eta: int, k: int, j: int, p: int)
    requires
        eta == 2 || eta == 3,
        0 <= j < 2 * eta,
        p == 2 * eta * k + j,
    ensures
        p / (2 * eta) == k,
        p % (2 * eta) == j,
{
    assert(p == k * (2 * eta) + j) by (nonlinear_arith) requires p == 2 * eta * k + j;
    vstd::arithmetic::div_mod::lemma_fundamental_div_mod_converse(p, 2 * eta, k, j);
}

/// SamplePolyCBD_eta of the all-zero string is the zero polynomial.
pub proof fn lemma_cbd_of_zeros(eta: int)
    requires
        eta == 2 || eta == 3,
    ensures
        sample_cbd_spec(Seq::new((64 * eta) as nat, |i: int| 0u8), eta) == Seq::new(256, |i: int| 0int),
{
    let z = Seq::new((64 * eta) as nat, |i: int| 0u8);
    assert forall|i: int| 0 <= i < 256 implies #[trigger] sample_cbd_spec(z, eta)[i] == 0 by {
        assert forall|r: int| 0 <= r < 2 * eta * 256 implies #[trigger] bit_value(z, r) == 0 by {
            lemma_or_bit(0u8, 0u8, (r % 8) as u8);
            assert(z[r / 8] == 0u8);
        }
        let p = 2 * eta * i;
        assert(p + 2 * eta <= 2 * eta * 256) by (nonlinear_arith) requires p == 2 * eta * i, i < 256, eta > 0;
        assert(p >= 0) by (nonlinear_arith) requires p == 2 * eta * i, i >= 0, eta > 0;
        assert(bit_value(z, p) == 0 && bit_value(z, p + 1) == 0 && bit_value(z, p + 2) == 0
            && bit_value(z, p + 3) == 0);
        if eta == 3 {
            assert(bit_value(z, p + 4) == 0 && bit_value(z, p + 5) == 0);
        }
    }
    assert(sample_cbd_spec(z, eta) =~= Seq::new(256, |i: int| 0int));
}

/// Each bit of the input moves exactly one coefficient of SamplePolyCBD_eta by one:
/// setting bit `p` (a 0) to 1 adds 1 modulo q to coefficient `p / (2 eta)` when `p` is
/// among the first eta bits of that coefficient, subtracts 1 when it is among the last eta,
/// and leaves every other coefficient as it was. With `lemma_cbd_of_zeros` this fixes
/// SamplePolyCBD_eta on every input.
pub proof fn lemma_cbd_bit_step(b: Seq<u8>, eta: int, p: int)
    requires
        eta == 2 || eta == 3,
        b.len() == 64 * eta,
        0 <= p < 512 * eta,
        (b[p / 8] >> ((p % 8) as u8)) & 1 == 0,
    ensures
        forall|k: int| 0 <= k < 256 ==> #[trigger] sample_cbd_spec(set_bit(b, p), eta)[k] == (if k == p / (2 * eta) {
            if p % (2 * eta) < eta {
                (sample_cbd_spec(b, eta)[k] + 1) % 3329
            } else {
                (sample_cbd_spec(b, eta)[k] - 1) % 3329
            }
        } else {
            sample_cbd_spec(b, eta)[k]
        }),
{
    let nb = set_bit(b, p);
    assert(bit_value(b, p) == 0);
    assert forall|k: int| 0 <= k < 256 implies #[trigger] sample_cbd_spec(nb, eta)[k] == (if k == p / (2 * eta) {
        if p % (2 * eta) < eta {
            (sample_cbd_spec(b, eta)[k] + 1) % 3329
        } else {
            (sample_cbd_spec(b, eta)[k] - 1) % 3329
        }
    } else {
        sample_cbd_spec(b, eta)[k]
    }) by {
        let q0 = 2 * eta * k;
        assert(q0 >= 0 && q0 + 2 * eta <= 512 * eta) by (nonlinear_arith)
            requires q0 == 2 * eta * k, 0 <= k < 256, eta > 0;
        lemma_set_bit_value(b, p, q0);
        lemma_set_bit_value(b, p, q0 + 1);
        lemma_set_bit_value(b, p, q0 + 2);
        lemma_set_bit_value(b, p, q0 + 3);
        if eta == 3 {
            lemma_set_bit_value(b, p, q0 + 4);
            lemma_set_bit_value(b, p, q0 + 5);
        }
        let e0 = bit_value(b, q0);
        let e1 = bit_value(b, q0 + 1);
        let e2 = bit_value(b, q0 + 2);
        let e3 = bit_value(b, q0 + 3);
        assert(bit_value(nb, q0) == (if q0 == p { 1 } else { e0 }));
        assert(bit_value(nb, q0 + 1) == (if q0 + 1 == p { 1 } else { e1 }));
        assert(bit_value(nb, q0 + 2) == (if q0 + 2 == p { 1 } else { e2 }));
        assert(bit_value(nb, q0 + 3) == (if q0 + 3 == p { 1 } else { e3 }));
        if eta == 3 {
            assert(bit_value(nb, q0 + 4) == (if q0 + 4 == p { 1 } else { bit_value(b, q0 + 4) }));
            assert(bit_value(nb, q0 + 5) == (if q0 + 5 == p { 1 } else { bit_value(b, q0 + 5) }));
        }
        if k == p / (2 * eta) {
            vstd::arithmetic::div_mod::lemma_fundamental_div_mod(p, 2 * eta);
            let j = p % (2 * eta);
            assert(p == q0 + j) by (nonlinear_arith)
                requires p == 2 * eta * (p / (2 * eta)) + p % (2 * eta), k == p / (2 * eta), q0 == 2 * eta * k,
                    j == p % (2 * eta);
            let x = if eta == 2 { e0 + e1 } else { e0 + e1 + e2 };
            let y = if eta == 2 { e2 + e3 } else { e3 + bit_value(b, q0 + 4) + bit_value(b, q0 + 5) };
            if j < eta {
                vstd::arithmetic::div_mod::lemma_add_mod_noop(x - y, 1, 3329);
                vstd::arithmetic::div_mod::lemma_mod_twice(x - y, 3329);
                vstd::arithmetic::div_mod::lemma_small_mod(1, 3329);
            } else {
                vstd::arithmetic::div_mod::lemma_sub_mod_noop(x - y, 1, 3329);
                vstd::arithmetic::div_mod::lemma_mod_twice(x - y, 3329);
                vstd::arithmetic::div_mod::lemma_small_mod(1, 3329);
            }
        } else {
            if q0 <= p < q0 + 2 * eta {
                lemma_bit_owner(eta, k, p - q0, p);
            }
        }
    }
}

} // verus!
