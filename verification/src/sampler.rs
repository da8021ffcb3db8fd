use vstd::prelude::*;
use sha3::digest::{ExtendableOutput, Update, XofReader};
use sha3::{Shake128, Shake128Reader, Shake256, Shake256Reader};
use crate::params::RANK;
use crate::prf::{prf_eta1, prf_eta2, prf_spec};
use crate::ring::{Poly, sample_cbd_spec};
use crate::ntt::ints;

verus! {

/// Byte `index` of the SHAKE128 output stream on `input`: what sha3's `Shake128`
/// reader gives out; the Keccak computation behind it is named, not restated.
pub uninterp spec fn shake128_byte(input: Seq<u8>, index: nat) -> u8;

/// Byte `index` of the SHAKE256 output stream on `input`: what sha3's `Shake256`
/// reader gives out; the Keccak computation behind it is named, not restated.
pub uninterp spec fn shake256_byte(input: Seq<u8>, index: nat) -> u8;

/// `len` bytes of the SHAKE128 stream on `input`, from byte `start` on.
pub open spec fn shake128_bytes(input: Seq<u8>, start: nat, len: nat) -> Seq<u8> {
    Seq::new(len, |k: int| shake128_byte(input, start + k as nat))
}

/// `len` bytes of the SHAKE256 stream on `input`, from byte `start` on.
pub open spec fn shake256_bytes(input: Seq<u8>, start: nat, len: nat) -> Seq<u8> {
    Seq::new(len, |k: int| shake256_byte(input, start + k as nat))
}

/// A SHAKE128 reader. It holds sha3's `Shake128Reader`, whose contents Verus does not
/// see; contracts speak of it through `xof128_input` and `xof128_read` only.
#[verifier::external_body]
pub struct XOF128 {
    r: Shake128Reader,
}

/// A SHAKE256 reader. It holds sha3's `Shake256Reader`, whose contents Verus does not
/// see; contracts speak of it through `xof256_input` and `xof256_read` only.
#[verifier::external_body]
pub struct XOF256 {
    r: Shake256Reader,
}

/// The input that a SHAKE128 reader absorbed.
pub uninterp spec fn xof128_input(x: XOF128) -> Seq<u8>;

/// How many bytes a SHAKE128 reader has given out.
pub uninterp spec fn xof128_read(x: XOF128) -> nat;

/// The input that a SHAKE256 reader absorbed.
pub uninterp spec fn xof256_input(x: XOF256) -> Seq<u8>;

/// How many bytes a SHAKE256 reader has given out.
pub uninterp spec fn xof256_read(x: XOF256) -> nat;

impl XOF128 {
    /// Calls sha3's `Shake128::default`, `Update::update(b)` and
    /// `ExtendableOutput::finalize_xof`. Trusted: the reader has absorbed exactly `b`
    /// and stands at byte 0 of its SHAKE128 stream.
    #[verifier::external_body]
    pub fn absorb_finalize(b: &[u8]) -> (x: Self)
        ensures
            xof128_input(x) == b@,
            xof128_read(x) == 0,
    {
        let mut x = Shake128::default();
        x.update(b);
        Self { r: x.finalize_xof() }
    }

    /// Calls sha3's `XofReader::read`. Trusted: `buf` receives the next `buf.len()`
    /// bytes of the SHAKE128 stream, in order, and the reader moves on by as many,
    /// whatever the lengths of earlier reads.
    #[verifier::external_body]
    pub fn squeeze(&mut self, buf: &mut [u8])
        ensures
            final(buf)@ == Seq::new(old(buf)@.len(),
                |k: int| shake128_byte(xof128_input(*old(self)), xof128_read(*old(self)) + k as nat)),
            xof128_input(*final(self)) == xof128_input(*old(self)),
            xof128_read(*final(self)) == xof128_read(*old(self)) + old(buf)@.len(),
    {
        self.r.read(buf);
    }
}

impl XOF256 {
    /// Calls sha3's `Shake256::default`, `Update::update(b)` and
    /// `ExtendableOutput::finalize_xof`. Trusted: the reader has absorbed exactly `b`
    /// and stands at byte 0 of its SHAKE256 stream.
    #[verifier::external_body]
    pub fn absorb_finalize(b: &[u8]) -> (x: Self)
        ensures
            xof256_input(x) == b@,
            xof256_read(x) == 0,
    {
        let mut x = Shake256::default();
        x.update(b);
        Self { r: x.finalize_xof() }
    }

    /// Calls sha3's `XofReader::read`. Trusted: `buf` receives the next `buf.len()`
    /// bytes of the SHAKE256 stream, in order, and the reader moves on by as many.
    #[verifier::external_body]
    pub fn squeeze(&mut self, buf: &mut [u8])
        ensures
            final(buf)@ == Seq::new(old(buf)@.len(),
                |k: int| shake256_byte(xof256_input(*old(self)), xof256_read(*old(self)) + k as nat)),
            xof256_input(*final(self)) == xof256_input(*old(self)),
            xof256_read(*final(self)) == xof256_read(*old(self)) + old(buf)@.len(),
    {
        self.r.read(buf);
    }
}

/// SamplePolyCBD_eta1 with eta1 = 2 (ML-KEM-768) of 128 bytes.
pub fn sample_poly_cbd_eta1(b: &[u8; 128], f: &mut Poly)
    ensures
        ints(final(f)@) == sample_cbd_spec(b@, 2),
{
    f.sample_poly_cbd_eta_2(b)
}

/// Polynomial `i` of a secret vector drawn from seed `sigma` starting at counter `n`.
pub open spec fn secret_eta1_spec(sigma: Seq<u8>, n: u8, i: int) -> Seq<int> {
    sample_cbd_spec(prf_spec(sigma, (n + i) as u8, 128), 2)
}

/// Samples `RANK` polynomials with coefficients from CBD_eta1, polynomial `i` from
/// `PRF_eta1(sigma, n + i)`, and advances the counter `n` by `RANK`.
pub fn sample_secret_eta1(sigma: [u8; 32], n: &mut u8, s: &mut [Poly; RANK])
    requires
        *old(n) + RANK <= 255,
    ensures
        *final(n) == *old(n) + RANK,
        forall|i: int| 0 <= i < RANK ==> ints(#[trigger] final(s)@[i]@) == secret_eta1_spec(sigma@, *old(n), i),
{
    let ghost n0 = *n;
    let mut i: usize = 0;
    while i < RANK
        invariant
            0 <= i <= RANK,
            *n == n0 + i,
            n0 + RANK <= 255,
            forall|k: int| 0 <= k < i ==> ints(#[trigger] s@[k]@) == secret_eta1_spec(sigma@, n0, k),
        decreases RANK - i,
    {
        let mut prd = [0u8; 128];
        prf_eta1(&sigma, *n, &mut prd);
        let mut p = s[i];
        sample_poly_cbd_eta1(&prd, &mut p);
        s[i] = p;
        *n = *n + 1;
        i += 1;
    }
}

/// Samples one polynomial with coefficients from CBD_eta2 from `PRF_eta2(rnd, n)`.
pub fn sample_secret_eta2(rnd: [u8; 32], n: u8, s: &mut Poly)
    ensures
        ints(final(s)@) == sample_cbd_spec(prf_spec(rnd@, n, 128), 2),
{
    let mut prd = [0u8; 128];
    prf_eta2(&rnd, n, &mut prd);
    s.sample_poly_cbd_eta_2(&prd);
}

} // verus!
