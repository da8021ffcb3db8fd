use vstd::prelude::*;
use sha3::{Digest, Sha3_256, Sha3_512};
use crate::sampler::{XOF256, shake256_bytes};

verus! {

/// The SHA3-512 digest of `data`, as sha3's `Sha3_512` computes it (named, not restated).
pub uninterp spec fn sha3_512_digest(data: Seq<u8>) -> Seq<u8>;

/// The SHA3-256 digest of `data`, as sha3's `Sha3_256` computes it (named, not restated).
pub uninterp spec fn sha3_256_digest(data: Seq<u8>) -> Seq<u8>;

/// PRF_eta(s, b): the first `len` bytes of SHAKE256(s || b).
pub open spec fn prf_spec(s: Seq<u8>, b: u8, len: nat) -> Seq<u8> {
    shake256_bytes(s.push(b), 0, len)
}

/// G: calls sha3's `Sha3_512::new`, `Digest::update(data)` and `finalize`, and copies the
/// 64-byte digest into `hash`. Trusted: `hash` holds the SHA3-512 digest of `data`.
#[verifier::external_body]
pub fn sha3_512(data: &[u8], hash: &mut [u8; 64])
    ensures
        final(hash)@ == sha3_512_digest(data@),
{
    let mut g = Sha3_512::new();
    Digest::update(&mut g, data);
    hash.copy_from_slice(&g.finalize());
}

/// H: calls sha3's `Sha3_256::new`, `Digest::update(data)` and `finalize`, and copies the
/// 32-byte digest into `hash`. Trusted: `hash` holds the SHA3-256 digest of `data`.
#[verifier::external_body]
pub fn sha3_256(data: &[u8], hash: &mut [u8; 32])
    ensures
        final(hash)@ == sha3_256_digest(data@),
{
    let mut h = Sha3_256::new();
    Digest::update(&mut h, data);
    hash.copy_from_slice(&h.finalize());
}

/// J: the first 32 bytes of SHAKE256(data).
pub fn shake256(data: &[u8], hash: &mut [u8; 32])
    ensures
        final(hash)@ == shake256_bytes(data@, 0, 32),
{
    let mut r = XOF256::absorb_finalize(data);
    r.squeeze(hash);
}

/// `s || b` as a 33-byte buffer.
fn seed_and_counter(s: &[u8], b: u8) -> (d: [u8; 33])
    requires
        s@.len() == 32,
    ensures
        d@ == s@.push(b),
{
    let mut d = [0u8; 33];
    let mut i: usize = 0;
    while i < 32
        invariant
            0 <= i <= 32,
            s@.len() == 32,
            d@.len() == 33,
            forall|k: int| 0 <= k < i ==> #[trigger] d@[k] == s@[k],
        decreases 32 - i,
    {
        d[i] = s[i];
        i += 1;
    }
    d[32] = b;
    assert(d@ =~= s@.push(b));
    d
}

/// PRF_eta1(s, b) (FIPS 203, 4.1): 64 * eta1 = 128 bytes of SHAKE256(s || b).
pub fn prf_eta1(s: &[u8], b: u8, hash: &mut [u8; 128])
    requires
        s@.len() == 32,
    ensures
        final(hash)@ == prf_spec(s@, b, 128),
{
    let d = seed_and_counter(s, b);
    let mut xof = XOF256::absorb_finalize(&d);
    xof.squeeze(hash);
}

/// PRF_eta2(s, b) (FIPS 203, 4.1): 64 * eta2 = 128 bytes of SHAKE256(s || b).
pub fn prf_eta2(s: &[u8], b: u8, hash: &mut [u8; 128])
    requires
        s@.len() == 32,
    ensures
        final(hash)@ == prf_spec(s@, b, 128),
{
    let d = seed_and_counter(s, b);
    let mut xof = XOF256::absorb_finalize(&d);
    xof.squeeze(hash);
}

} // verus!
