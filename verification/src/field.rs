use vstd::prelude::*;
use vstd::arithmetic::div_mod::*;
use vstd::arithmetic::power2::{pow2, lemma2_to64};
use vstd::bits::{lemma_u32_shl_is_mul, lemma_u32_shr_is_div};
use crate::params::{Q, QI32, QI64, BARRETT_MULTIPLIER_24, BARRETT_MULTIPLIER_32, BARRETT_SHIFT_24, BARRETT_SHIFT_32, HALF_Q_UP};

verus! {

/// Remainder left by the 24-bit Barrett estimate of `x / q`.
pub open spec fn barrett24_remainder(x: int) -> int {
    x - ((x * 5039) / 0x1000000) * 3329
}

/// Inputs on which the 24-bit Barrett reduction, after its two conditional
/// corrections, lands in `[0, q)`.
pub open spec fn modq_accepts(x: int) -> bool {
    -3329 <= barrett24_remainder(x) < 2 * 3329
}

proof fn lemma_shr24(p: i64)
    requires
        -0x10000000000000 <= p < 0x10000000000000,
    ensures
        (p >> 24u64) * 0x1000000 <= p,
        p < ((p >> 24u64) + 1) * 0x1000000,
{
    assert((p >> 24u64) * 0x1000000 <= p && p < ((p >> 24u64) + 1) * 0x1000000) by (bit_vector)
        requires -0x10000000000000 <= p < 0x10000000000000;
}

proof fn lemma_shr32(p: i64)
    ensures
        (p >> 32i32) * 0x100000000 <= p,
        p < ((p >> 32i32) + 1) * 0x100000000,
{
    assert((p >> 32i32) * 0x100000000 <= p && p < ((p >> 32i32) + 1) * 0x100000000) by (bit_vector);
}


/// With the Barrett quotient estimate `s` of `x * m / 2^k`, where `m * q = 2^k - e`,
/// the remainder `x - s * q` stays within `e * |x| / 2^k` of `[0, q)`.
proof fn lemma_barrett_window(x: int, s: int, m: int, k: int, e: int)
    requires
        k > 0,
        m * 3329 == k - e,
        0 <= e,
        s * k <= x * m,
        x * m < (s + 1) * k,
    ensures
        (x - s * 3329) * k >= e * x,
        (x - s * 3329) * k < 3329 * k + e * x,
{
    assert((x - s * 3329) * k == x * k - s * k * 3329) by (nonlinear_arith);
    assert(x * k == x * m * 3329 + e * x) by (nonlinear_arith)
        requires m * 3329 == k - e;
    assert(s * k * 3329 <= x * m * 3329) by (nonlinear_arith)
        requires s * k <= x * m;
    assert(x * m * 3329 < (s + 1) * k * 3329) by (nonlinear_arith)
        requires x * m < (s + 1) * k;
    assert((s + 1) * k * 3329 == s * k * 3329 + 3329 * k) by (nonlinear_arith);
}

/// Every input of magnitude at most 2^24 is reduced correctly by the 24-bit estimate.
pub proof fn lemma_modq_accepts_small(x: int)
    requires
        -0x1000000 <= x <= 0x1000000,
    ensures
        modq_accepts(x),
{
    let s = (x * 5039) / 0x1000000;
    lemma_fundamental_div_mod(x * 5039, 0x1000000);
    lemma_barrett_window(x, s, 5039, 0x1000000, 2385);
    let t = x - s * 3329;
    assert(t * 0x1000000 >= 2385 * x);
    assert(t * 0x1000000 < 3329 * 0x1000000 + 2385 * x);
    assert(-3329 <= t < 2 * 3329) by (nonlinear_arith)
        requires
            t * 0x1000000 >= 2385 * x,
            t * 0x1000000 < 3329 * 0x1000000 + 2385 * x,
            -0x1000000 <= x <= 0x1000000;
}

proof fn lemma_euclid_from_window(x: int, s: int, t: int, r: int)
    requires
        t == x - s * 3329,
        0 <= r < 3329,
        r == t || r == t + 3329 || r == t - 3329,
    ensures
        r == x % 3329,
{
    if r == t {
        lemma_fundamental_div_mod_converse(x, 3329, s, r);
    } else if r == t + 3329 {
        lemma_fundamental_div_mod_converse(x, 3329, s - 1, r);
    } else {
        lemma_fundamental_div_mod_converse(x, 3329, s + 1, r);
    }
}

/// Reduction modulo q through the 24-bit Barrett estimate with branch-free corrections.
#[inline(always)]
pub fn _modq_(x: i32) -> (r: u16)
    requires
        modq_accepts(x as int),
    ensures
        r as int == (x as int) % 3329,
{
    let x = x as i64;
    let p = x * BARRETT_MULTIPLIER_24;
    let s = p >> BARRETT_SHIFT_24;
    proof {
        lemma_shr24(p);
        lemma_fundamental_div_mod_converse(p as int, 0x1000000, s as int, p - s * 0x1000000);
    }
    let mut t = (x - (s * QI64)) as i32;
    let ghost t0 = t;
    // Ensure t is in [0, 2*Q)
    let c = (t >> 31i32) & QI32;
    assert(c == if t < 0 { 3329i32 } else { 0i32 }) by (bit_vector)
        requires c == (t >> 31i32) & 3329i32;
    t += c;
    // Reduce from [0, 2*Q) to [0, Q)
    t -= (t >= QI32) as i32 * QI32;
    proof {
        lemma_euclid_from_window(x as int, s as int, t0 as int, t as int);
    }
    t as u16
}


/// Reduction of a 32-bit integer modulo q, in `[0, q)`.
///
/// The 32-bit Barrett result is cross-checked against the 24-bit one, so inputs
/// on which the latter is off are not accepted.
#[inline(always)]
pub fn modq(x: i32) -> (r: i32)
    requires
        modq_accepts(x as int),
    ensures
        r as int == (x as int) % 3329,
        0 <= r < 3329,
{
    let expected = _modq_(x);
    let x = x as i64;
    let p = x * BARRETT_MULTIPLIER_32;
    let s = p >> BARRETT_SHIFT_32;
    proof {
        lemma_shr32(p);
        lemma_barrett_window(x as int, s as int, 1290167, 0x100000000, 1353);
        let t0 = x - s * 3329;
        assert(-3329 <= t0 < 2 * 3329) by (nonlinear_arith)
            requires
                t0 * 0x100000000 >= 1353 * x,
                t0 * 0x100000000 < 3329 * 0x100000000 + 1353 * x,
                -0x80000000 <= x < 0x80000000;
    }
    let t = (x - (s * QI64)) as i32;
    let ghost t0 = t;

    let t = if t < 0 {
        (t + QI32) as u16
    } else if t >= QI32 {
        (t - QI32) as u16
    } else {
        t as u16
    };
    proof {
        lemma_euclid_from_window(x as int, s as int, t0 as int, t as int);
    }
    assert(t == expected);
    t as i32
}

/// Inputs of the 64-bit reduction on which its first product does not overflow.
pub open spec fn modq_i64_accepts(x: int) -> bool {
    i64::MIN <= x * 1290167 <= i64::MAX
}

/// Barrett reduction of a 64-bit integer modulo q, into `[0, q)`: the Barrett
/// quotient estimate, then as many corrections by q as the estimate is off.
/// On the products of ML-KEM (below 2^36) the estimate is off by a few q at most.
pub fn modq_i64(x: i64) -> (r: i32)
    requires
        modq_i64_accepts(x as int),
    ensures
        r as int == (x as int) % 3329,
        0 <= r < 3329,
{
    let p = x * BARRETT_MULTIPLIER_32;
    let qh = p >> BARRETT_SHIFT_32;
    let ghost s = qh;
    proof {
        lemma_shr32(p);
        lemma_fundamental_div_mod_converse(p as int, 0x100000000, s as int, p - s * 0x100000000);
        lemma_barrett_window(x as int, s as int, 1290167, 0x100000000, 1353);
        let t0 = x - s * 3329;
        assert(-0x10000000 <= t0 < 0x10000000) by (nonlinear_arith)
            requires
                t0 * 0x100000000 >= 1353 * x,
                t0 * 0x100000000 < 3329 * 0x100000000 + 1353 * x,
                i64::MIN <= x * 1290167 <= i64::MAX;
    }
    let mut t = x - qh * QI64;
    let ghost mut k: int = s as int;
    while t >= QI64
        invariant
            t == x - 3329 * k,
            -0x10000000 <= t < 0x10000000,
        decreases t,
    {
        t = t - QI64;
        proof { k = k + 1; }
    }
    while t < 0
        invariant
            t == x - 3329 * k,
            -0x10000000 <= t < 3329,
        decreases 3329 - t,
    {
        t = t + QI64;
        proof { k = k - 1; }
    }
    proof {
        lemma_fundamental_div_mod_converse(x as int, 3329, k, t as int);
    }
    t as i32
}

/// Compress_d(x) = round(2^d / q * x) mod 2^d (FIPS 203, eq. 4.7), written with
/// floor division: floor((2^d x + floor(q/2)) / q) mod 2^d.
pub open spec fn compress_value(d: nat, x: int) -> int {
    ((x * pow2(d) + 1664) / 3329) % (pow2(d) as int)
}

/// Decompress_d(y) = round(q / 2^d * y) (FIPS 203, eq. 4.8).
pub open spec fn decompress_value(d: nat, y: int) -> int {
    (y * 3329 + pow2((d - 1) as nat)) / (pow2(d) as int)
}

proof fn lemma_pow2_small(d: nat)
    requires
        d <= 12,
    ensures
        pow2(d) == (1u32 << d as u32),
        1 <= pow2(d) <= 4096,
        d <= 11 ==> pow2(d) <= 2048,
        d >= 1 ==> pow2(d) == 2 * pow2((d - 1) as nat),
{
    lemma2_to64();
    assert(d >= 1 ==> pow2(d) == 2 * pow2((d - 1) as nat));
    lemma_u32_shl_is_mul(1u32, d as u32);
}

/// Maps an element of Z_q to Z_{2^d} (FIPS 203, Def. 4.7), with a Barrett
/// division by q and one correction.
pub fn compress<const D: u8>(x: u16) -> (r: u16)
    requires
        D < 12,
        x < 3329,
    ensures
        r as int == compress_value(D as nat, x as int),
        r < pow2(D as nat),
{
    let x = x as u32;
    proof {
        lemma_pow2_small(D as nat);
        assert(x * pow2(D as nat) <= 3328 * 2048) by (nonlinear_arith)
            requires x <= 3328, pow2(D as nat) <= 2048;
        lemma_u32_shl_is_mul(x, D as u32);
        lemma2_to64();
        lemma_u32_shr_is_div(3329u32, 1u32);
    }

    // a = x*2^d + q/2   (spec rounding)
    let a = (x << (D as u32)) + (Q >> 1);

    // Barrett approximate division
    let p = a as u64 * 1290167;
    assert(p >> 32u64 <= 0xffffffffu64
        && (p >> 32u64) * 0x100000000 <= p && p < ((p >> 32u64) + 1) * 0x100000000) by (bit_vector);
    let t = (p >> 32) as u32;
    proof {
        lemma_barrett_window(a as int, t as int, 1290167, 0x100000000, 1353);
        assert(0 <= a - t * 3329 < 2 * 3329) by (nonlinear_arith)
            requires
                (a - t * 3329) * 0x100000000 >= 1353 * a,
                (a - t * 3329) * 0x100000000 < 3329 * 0x100000000 + 1353 * a,
                0 <= a <= 3328 * 2048 + 1664;
    }

    // One correction (branchless)
    let r = a - t * Q;
    let t = t + ((r >= Q) as u32);
    proof {
        if r >= 3329 {
            lemma_fundamental_div_mod_converse(a as int, 3329, t as int, r - 3329);
        } else {
            lemma_fundamental_div_mod_converse(a as int, 3329, t as int, r as int);
        }
    }
    let mask = (1u32 << D) - 1;
    let res = t & mask;
    proof {
        let dd = D as u32;
        assert(t & (((1u32 << dd) - 1u32) as u32) == t % (1u32 << dd) && t % (1u32 << dd) < (1u32 << dd))
            by (bit_vector)
            requires dd < 12u32;
    }
    assert(res == ((((x << (D as u32)) + Q / 2) as u32) / Q) & mask);
    res as u16
}

/// Maps an element of Z_{2^d} back to Z_q (FIPS 203, Def. 4.8).
#[inline(always)]
pub fn decompress<const D: u8>(y: u16) -> (r: u16)
    requires
        1 <= D < 12,
        y < pow2(D as nat),
    ensures
        r as int == decompress_value(D as nat, y as int),
        r < 3329,
{
    proof {
        lemma_pow2_small(D as nat);
        lemma_pow2_small((D - 1) as nat);
    }
    let h = 1u32 << (D - 1);
    let t = (y as u32) * Q + h;
    proof {
        lemma_u32_shr_is_div(t, D as u32);
        let pp = pow2(D as nat) as int;
        assert(t < 3329 * pp) by (nonlinear_arith)
            requires
                t == y * 3329 + pow2((D - 1) as nat),
                pp == 2 * pow2((D - 1) as nat),
                y < pp,
                pow2((D - 1) as nat) <= 2048;
        lemma_fundamental_div_mod(t as int, pp);
        assert(t as int / pp < 3329) by (nonlinear_arith)
            requires t < 3329 * pp, t == pp * (t as int / pp) + t as int % pp, 0 <= t as int % pp, pp > 0;
    }
    (t >> D) as u16
}

/// Decompress_1: 0 maps to 0 and 1 maps to ceil(q / 2).
#[inline(always)]
pub fn decompress_1(y: u16) -> (r: u16)
    requires
        y < 2,
    ensures
        r == 1665 * y,
{
    HALF_Q_UP * y
}

/// Compress_1: 1 when x is closer to q/2 than to 0 (mod q), else 0.
#[inline(always)]
pub fn compress_1(x: u16) -> (r: u16)
    requires
        x < 3329,
    ensures
        r as int == compress_value(1, x as int),
        r as int == ((x * 2 + 1664) / 3329) % 2,
{
    proof { lemma2_to64(); }
    compress::<1>(x)
}


/// An element of Z_q, held as its canonical representative in `[0, q)`.
#[derive(Clone, Copy)]
pub struct FieldElement {
    v: i32,
}

impl FieldElement {
    #[verifier::type_invariant]
    spec fn canonical(self) -> bool {
        0 <= self.v < 3329
    }
}

impl View for FieldElement {
    type V = int;

    closed spec fn view(&self) -> int {
        self.v as int
    }
}

impl Default for FieldElement {
    fn default() -> (r: Self)
        ensures
            r@ == 0,
    {
        FieldElement { v: 0 }
    }
}

impl From<i32> for FieldElement {
    /// Reduces `x` modulo q. Inputs of magnitude at most 2^24 go through `modq`;
    /// larger ones, which `modq` does not accept, through the 64-bit reduction.
    fn from(x: i32) -> (r: Self)
        ensures
            r@ == (x as int) % 3329,
    {
        let v = if -0x1000000 <= x && x <= 0x1000000 {
            proof { lemma_modq_accepts_small(x as int); }
            modq(x)
        } else {
            modq_i64(x as i64)
        };
        Self { v }
    }
}

impl vstd::std_specs::convert::FromSpecImpl<i32> for FieldElement {
    open spec fn obeys_from_spec() -> bool {
        true
    }

    closed spec fn from_spec(x: i32) -> Self {
        FieldElement { v: ((x as int) % 3329) as i32 }
    }
}

impl From<u16> for FieldElement {
    fn from(x: u16) -> (r: Self)
        ensures
            r@ == (x as int) % 3329,
    {
        Self::from(x as i32)
    }
}

impl vstd::std_specs::convert::FromSpecImpl<u16> for FieldElement {
    open spec fn obeys_from_spec() -> bool {
        true
    }

    closed spec fn from_spec(x: u16) -> Self {
        FieldElement { v: ((x as int) % 3329) as i32 }
    }
}

impl From<FieldElement> for i32 {
    fn from(fe: FieldElement) -> (r: i32)
        ensures
            r == fe@,
    {
        fe.v
    }
}

impl vstd::std_specs::convert::FromSpecImpl<FieldElement> for i32 {
    open spec fn obeys_from_spec() -> bool {
        true
    }

    open spec fn from_spec(fe: FieldElement) -> i32 {
        fe@ as i32
    }
}

impl From<FieldElement> for u16 {
    fn from(fe: FieldElement) -> (r: u16)
        ensures
            r == fe@,
    {
        proof { use_type_invariant(&fe); }
        fe.v as u16
    }
}

impl vstd::std_specs::convert::FromSpecImpl<FieldElement> for u16 {
    open spec fn obeys_from_spec() -> bool {
        true
    }

    open spec fn from_spec(fe: FieldElement) -> u16 {
        fe@ as u16
    }
}

impl FieldElement {
    /// Every field element lies in `[0, q)`.
    pub fn value(&self) -> (r: i32)
        ensures
            r == self@,
            0 <= r < 3329,
    {
        proof { use_type_invariant(self); }
        self.v
    }

    /// Adds q to a negative input; for `a` in `[-q, q)` this is `a mod q`.
    pub fn reduce_once(a: i32) -> (r: i32)
        requires
            -3329 <= a < 3329,
        ensures
            r as int == (a as int) % 3329,
    {
        let s = (a >> 31i32) & 1;
        assert(s == if a < 0 { 1i32 } else { 0i32 }) by (bit_vector)
            requires s == (a >> 31i32) & 1i32;
        proof {
            if a < 0 {
                lemma_fundamental_div_mod_converse(a as int, 3329, -1, a + 3329);
            } else {
                lemma_fundamental_div_mod_converse(a as int, 3329, 0, a as int);
            }
        }
        (s * QI32) + a
    }

    /// Sum of two field elements modulo q.
    pub fn add(a: &Self, b: &Self) -> (r: Self)
        ensures
            r@ == (a@ + b@) % 3329,
    {
        proof { use_type_invariant(a); use_type_invariant(b); }
        let s = a.v + b.v;
        let v = if s >= QI32 { s - QI32 } else { s };
        proof {
            if s >= 3329 {
                lemma_fundamental_div_mod_converse(s as int, 3329, 1, v as int);
            } else {
                lemma_fundamental_div_mod_converse(s as int, 3329, 0, v as int);
            }
        }
        Self { v }
    }

    /// Difference of two field elements modulo q.
    pub fn sub(a: &Self, b: &Self) -> (r: Self)
        ensures
            r@ == (a@ - b@) % 3329,
    {
        proof { use_type_invariant(a); use_type_invariant(b); }
        Self::from(Self::reduce_once(a.v - b.v))
    }

    /// Compress_d of this element.
    pub fn compress<const D: u8>(&self) -> (r: u16)
        requires
            D < 12,
        ensures
            r as int == compress_value(D as nat, self@),
            r < pow2(D as nat),
    {
        proof { use_type_invariant(self); }
        compress::<D>(self.v as u16)
    }

    /// The field element Decompress_d(y).
    pub fn decompress<const D: u8>(y: u16) -> (r: FieldElement)
        requires
            1 <= D < 12,
            y < pow2(D as nat),
        ensures
            r@ == decompress_value(D as nat, y as int),
    {
        let x = decompress::<D>(y);
        let r = FieldElement::from(x);
        proof { lemma_small_mod(x as nat, 3329); }
        r
    }
}


proof fn lemma_compress_decompress_at(x: int, y: int, p: int, h: int)
    requires
        p == 2 * h,
        1 <= h <= 1024,
        0 <= y < p,
        x == (y * 3329 + h) / p,
    ensures
        ((x * p + 1664) / 3329) % p == y,
{
    let rho = (y * 3329 + h) % p;
    lemma_fundamental_div_mod(y * 3329 + h, p);
    assert(x * p == y * 3329 + h - rho) by (nonlinear_arith)
        requires y * 3329 + h == p * x + rho;
    lemma_fundamental_div_mod_converse(x * p + 1664, 3329, y, h - rho + 1664);
    lemma_small_mod(y as nat, p as nat);
}

/// Decompressing and then compressing gives back every y in Z_{2^d} (d < 12).
pub proof fn lemma_compress_decompress_roundtrip(d: nat, y: int)
    requires
        1 <= d <= 11,
        0 <= y < pow2(d),
    ensures
        compress_value(d, decompress_value(d, y)) == y,
{
    lemma_pow2_small(d);
    lemma_pow2_small((d - 1) as nat);
    lemma_compress_decompress_at(decompress_value(d, y), y, pow2(d) as int, pow2((d - 1) as nat) as int);
}

/// Distance between a and b around the cycle Z_q.
pub open spec fn mod_q_distance(a: int, b: int) -> int {
    let e = (a - b) % 3329;
    if e <= 1664 { e } else { 3329 - e }
}

proof fn lemma_decompress_compress_at(x: int, p: int, h: int)
    requires
        0 <= x < 3329,
        p == 2 * h,
        1 <= h <= 1024,
    ensures
        ({
            let y = ((x * p + 1664) / 3329) % p;
            let t = (y * 3329 + h) / p;
            mod_q_distance(x, t) <= (3329 + p) / (2 * p)
        }),
{
    let a = x * p + 1664;
    let c = a / 3329;
    let sigma = a % 3329;
    let y = c % p;
    let t = (y * 3329 + h) / p;
    let b = (3329 + p) / (2 * p);
    lemma_fundamental_div_mod(3329 + p, 2 * p);
    assert(b * (2 * p) <= 3329 + p < (b + 1) * (2 * p)) by (nonlinear_arith)
        requires 3329 + p == (2 * p) * b + (3329 + p) % (2 * p), 0 <= (3329 + p) % (2 * p) < 2 * p;
    assert(c <= p) by (nonlinear_arith)
        requires a == 3329 * c + sigma, 0 <= sigma, a == x * p + 1664, x <= 3328, p >= 2;
    lemma_fundamental_div_mod(y * 3329 + h, p);
    let rho = (y * 3329 + h) % p;
    assert(y * 3329 + h == p * t + rho);
    if c == p {
        lemma_mod_self_0(p);
        assert(y == 0);
        lemma_small_mod(h as nat, p as nat);
        assert(t == 0) by (nonlinear_arith)
            requires h == p * t + rho, 0 <= rho < p, 0 <= h < p;
        assert((3329 - x) * p <= 1664) by (nonlinear_arith)
            requires a == 3329 * c + sigma, 0 <= sigma, a == x * p + 1664, c == p;
        assert(3329 - x <= b) by (nonlinear_arith)
            requires (3329 - x) * p <= 1664, (b + 1) * (2 * p) > 3329 + p, p >= 2;
        assert(x > 1664) by (nonlinear_arith)
            requires (3329 - x) * p <= 1664, p >= 2;
        lemma_small_mod(x as nat, 3329);
    } else {
        lemma_small_mod(c as nat, p as nat);
        assert(y == c);
        let k = t - x;
        assert(k * p <= 1664 + h) by (nonlinear_arith)
            requires
                y * 3329 + h == p * t + rho, 0 <= rho,
                a == 3329 * y + sigma, 0 <= sigma, a == x * p + 1664, k == t - x;
        assert((k + 1) * p > h - 1664) by (nonlinear_arith)
            requires
                y * 3329 + h == p * t + rho, rho < p,
                a == 3329 * y + sigma, sigma < 3329, a == x * p + 1664, k == t - x;
        assert(k <= b) by (nonlinear_arith)
            requires k * p <= 1664 + h, p == 2 * h, (b + 1) * (2 * p) > 3329 + p, p >= 2;
        assert(-k <= b) by (nonlinear_arith)
            requires (k + 1) * p > h - 1664, p == 2 * h, (b + 1) * (2 * p) > 3329 + p, p >= 2;
        assert(b <= 832) by (nonlinear_arith)
            requires b * (2 * p) <= 3329 + p, p >= 2;
        if k <= 0 {
            lemma_small_mod((-k) as nat, 3329);
        } else {
            lemma_fundamental_div_mod_converse(-k, 3329, -1, 3329 - k);
        }
    }
}

/// Compressing and then decompressing moves x by at most round(q / 2^(d+1))
/// around Z_q (FIPS 203, eq. 4.9).
pub proof fn lemma_decompress_compress_error(d: nat, x: int)
    requires
        1 <= d <= 11,
        0 <= x < 3329,
    ensures
        mod_q_distance(x, decompress_value(d, compress_value(d, x)))
            <= (3329 + pow2(d)) / (2 * pow2(d)),
{
    lemma_pow2_small(d);
    lemma_pow2_small((d - 1) as nat);
    lemma2_to64();
    lemma_decompress_compress_at(x, pow2(d) as int, pow2((d - 1) as nat) as int);
}

/// With d = du = 10, compressing and then decompressing lands within 2 of x, or, where the
/// result wraps around q (x = q - 1 goes to 0), within 1 of q.
pub proof fn lemma_du_roundtrip_distance(x: int)
    requires
        0 <= x < 3329,
    ensures
        ({
            let t = decompress_value(10, compress_value(10, x));
            let diff = if x >= t { x - t } else { t - x };
            diff <= 2 || (if 3329 >= diff { 3329 - diff } else { diff - 3329 }) <= 1
        }),
{
    lemma2_to64();
    lemma_decompress_compress_error(10, x);
    let y = compress_value(10, x);
    assert(0 <= y < 1024);
    let t = decompress_value(10, y);
    assert(0 <= t < 3329) by {
        assert(t == (y * 3329 + 512) / 1024);
    }
    let e = (x - t) % 3329;
    assert(e <= 2 || 3329 - e <= 2);
    if x - t >= 3 && x - t < 3327 {
        lemma_fundamental_div_mod_converse(x - t, 3329, 0, x - t);
    } else if t - x >= 3 && t - x < 3327 {
        lemma_fundamental_div_mod_converse(x - t, 3329, -1, x - t + 3329);
    } else if x - t >= 3327 {
        // x is q - 2 or q - 1 and t is 0 or 1
        if x == 3327 {
            assert(compress_value(10, 3327) == 1023);
        } else {
            assert(compress_value(10, 3328) == 0);
        }
    } else if t - x >= 3327 {
        // x is 0 or 1, both of which compress to 0
        assert(compress_value(10, 0) == 0);
        assert(compress_value(10, 1) == 0);
    }
}

} // verus!
