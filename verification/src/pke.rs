use vstd::prelude::*;
use crate::params::{N, RANK, DU, DV};
use crate::ntt::{NTT, ints, ntt_spec, add_mod, ntt_mul_spec, sample_ntt_spec, zero_poly, reduced,
    lemma_reduced_fwd_input, lemma_reduced_mul_input, lemma_ntt_accepted_prefix, lemma_ntt_mul_range,
    add_input_ok, SAMPLE_NTT_MAX_READS};
use crate::ntt::{inv_ntt_spec, lemma_reduced_inv_input};
use crate::ring::{Poly, RingElement, low16, widen, sample_cbd_spec};
use crate::prf::{sha3_512, sha3_512_digest, prf_spec};
use crate::sampler::{sample_secret_eta1, sample_secret_eta2, secret_eta1_spec};
use crate::codec::{byte_encode_12, byte_encode_1, byte_encode_spec, byte_decode, byte_decode_12, byte_decode_spec, byte_decode_q,
    _byte_decode_bssl_, lemma_encode_spec_len, lemma_decode_spec_len, lemma_decode_encode, lemma_encode_decode};
use crate::field::{modq, modq_accepts, lemma_modq_accepts_small, compress_value, decompress_value, decompress,
    decompress_1};
use vstd::arithmetic::power2::{pow2, lemma2_to64};

verus! {

/// Encryption key of K-PKE: the 384 k + 32 bytes ByteEncode_12(t̂) || rho, and the
/// matrix seed rho.
#[derive(Clone, Debug, PartialEq)]
pub struct EncryptionKey {
    key: [u8; 1184],
    seed: [u8; 32],
}

impl View for EncryptionKey {
    type V = (Seq<u8>, Seq<u8>);

    closed spec fn view(&self) -> (Seq<u8>, Seq<u8>) {
        (self.key@, self.seed@)
    }
}

impl EncryptionKey {
    pub fn new(key: [u8; 1184], seed: [u8; 32]) -> (r: Self)
        ensures
            r@ == (key@, seed@),
    {
        Self { key, seed }
    }

    /// The encoded key.
    pub fn key_bytes(&self) -> (r: &[u8])
        ensures
            r@ == self@.0,
    {
        &self.key
    }
}

/// Decryption key of K-PKE: the 384 k bytes ByteEncode_12(ŝ).
pub struct DecryptionKey {
    key: [u8; 1152],
}

impl View for DecryptionKey {
    type V = Seq<u8>;

    closed spec fn view(&self) -> Seq<u8> {
        self.key@
    }
}

impl DecryptionKey {
    pub fn new(key: [u8; 1152]) -> (r: Self)
        ensures
            r@ == key@,
    {
        DecryptionKey { key }
    }

    /// The encoded key.
    pub fn key_bytes(&self) -> (r: &[u8])
        ensures
            r@ == self@,
    {
        &self.key
    }
}

/// G(d || k) of K-PKE.KeyGen (FIPS 203, Alg. 13, line 1).
pub open spec fn keygen_digest(d: Seq<u8>) -> Seq<u8> {
    sha3_512_digest(d.push(RANK as u8))
}

/// rho: the first half of G(d || k).
pub open spec fn keygen_rho(d: Seq<u8>) -> Seq<u8> {
    keygen_digest(d).subrange(0, 32)
}

/// sigma: the second half of G(d || k).
pub open spec fn keygen_sigma(d: Seq<u8>) -> Seq<u8> {
    keygen_digest(d).subrange(32, 64)
}

/// Â[i][j] = SampleNTT(rho || j || i).
pub open spec fn matrix_entry(rho: Seq<u8>, i: int, j: int) -> Seq<i32> {
    sample_ntt_spec(rho + seq![j as u8, i as u8])
}

/// ŝ[i] = NTT(s[i]), s[i] sampled from PRF_eta1(sigma, i).
pub open spec fn secret_hat(sigma: Seq<u8>, i: int) -> Seq<int> {
    ntt_spec(secret_eta1_spec(sigma, 0, i))
}

/// ê[i] = NTT(e[i]), e[i] sampled from PRF_eta1(sigma, k + i).
pub open spec fn error_hat(sigma: Seq<u8>, i: int) -> Seq<int> {
    ntt_spec(secret_eta1_spec(sigma, RANK as u8, i))
}

/// Integers as 32-bit integers.
pub open spec fn to_i32s(v: Seq<int>) -> Seq<i32> {
    v.map_values(|x: int| x as i32)
}

/// The sum over the first `j` columns of `a[j] ∘ s[j]`, modulo q: a row of a
/// matrix-vector product in the NTT domain.
pub open spec fn row_dot(a: Seq<Seq<i32>>, s: Seq<Seq<i32>>, j: nat) -> Seq<int>
    decreases j,
{
    if j == 0 {
        zero_poly()
    } else {
        add_mod(row_dot(a, s, (j - 1) as nat), ntt_mul_spec(a[j - 1], s[j - 1]))
    }
}

/// Row `i` of Â.
pub open spec fn matrix_row(rho: Seq<u8>, i: int) -> Seq<Seq<i32>> {
    Seq::new(RANK as nat, |j: int| matrix_entry(rho, i, j))
}

/// ŝ as 32-bit coefficients.
pub open spec fn secret_hat_vec(sigma: Seq<u8>) -> Seq<Seq<i32>> {
    Seq::new(RANK as nat, |j: int| to_i32s(secret_hat(sigma, j)))
}

/// t̂[i] = (Â ∘ ŝ)[i] + ê[i] (FIPS 203, Alg. 13, line 18).
pub open spec fn public_hat(rho: Seq<u8>, sigma: Seq<u8>, i: int) -> Seq<int> {
    add_mod(row_dot(matrix_row(rho, i), secret_hat_vec(sigma), RANK as nat), error_hat(sigma, i))
}

/// ByteEncode_12 of a sequence of coefficients in `[0, q)`.
pub open spec fn encode12(v: Seq<int>) -> Seq<u8> {
    byte_encode_spec(v.map_values(|x: int| x as u16), 12)
}

/// ByteEncode_12 of each polynomial of `v`, concatenated.
pub open spec fn encode12_vec(v: Seq<Seq<int>>) -> Seq<u8>
    decreases v.len(),
{
    if v.len() == 0 { Seq::empty() } else { encode12_vec(v.drop_last()) + encode12(v.last()) }
}

/// The encryption key that K-PKE.KeyGen derives from `d`: ByteEncode_12(t̂) || rho.
pub open spec fn kpke_ek(d: Seq<u8>) -> Seq<u8> {
    ek_from_seeds(keygen_rho(d), keygen_sigma(d))
}

/// The encryption key from the seeds rho and sigma: ByteEncode_12(t̂) || rho
/// (FIPS 203, Alg. 13, lines 3-20).
pub open spec fn ek_from_seeds(rho: Seq<u8>, sigma: Seq<u8>) -> Seq<u8> {
    encode12_vec(Seq::new(RANK as nat, |i: int| public_hat(rho, sigma, i))) + rho
}

/// The decryption key from the seed sigma: ByteEncode_12(ŝ).
pub open spec fn dk_from_seed(sigma: Seq<u8>) -> Seq<u8> {
    encode12_vec(Seq::new(RANK as nat, |i: int| secret_hat(sigma, i)))
}

/// The decryption key that K-PKE.KeyGen derives from `d`: ByteEncode_12(ŝ).
pub open spec fn kpke_dk(d: Seq<u8>) -> Seq<u8> {
    dk_from_seed(keygen_sigma(d))
}

/// (rho, sigma) = G(sr): the two halves of the SHA3-512 digest of `sr`.
fn gen_rho_sigma(sr: [u8; 33], rho: &mut [u8; 32], sigma: &mut [u8; 32])
    ensures
        final(rho)@ == sha3_512_digest(sr@).subrange(0, 32),
        final(sigma)@ == sha3_512_digest(sr@).subrange(32, 64),
        sha3_512_digest(sr@).len() == 64,
{
    let mut pr = [0u8; 64];
    sha3_512(&sr, &mut pr);
    let mut i: usize = 0;
    while i < 32
        invariant
            0 <= i <= 32,
            pr@ == sha3_512_digest(sr@),
            rho@.len() == 32,
            sigma@.len() == 32,
            forall|k: int| 0 <= k < i ==> #[trigger] rho@[k] == pr@[k],
            forall|k: int| 0 <= k < i ==> #[trigger] sigma@[k] == pr@[32 + k],
        decreases 32 - i,
    {
        rho[i] = pr[i];
        sigma[i] = pr[32 + i];
        i += 1;
    }
    assert(rho@ =~= pr@.subrange(0, 32));
    assert(sigma@ =~= pr@.subrange(32, 64));
}

/// Writes `src` into `dst` from offset `off` on.
fn copy_into(dst: &mut [u8], off: usize, src: &[u8])
    requires
        off + src@.len() <= old(dst)@.len(),
    ensures
        final(dst)@ == old(dst)@.subrange(0, off as int) + src@
            + old(dst)@.subrange(off + src@.len(), old(dst)@.len() as int),
{
    let ghost d0 = dst@;
    let dl = dst.len();
    let mut k: usize = 0;
    while k < src.len()
        invariant
            0 <= k <= src@.len(),
            d0.len() == dl,
            off + src@.len() <= d0.len(),
            dst@.len() == d0.len(),
            forall|t: int| 0 <= t < off ==> #[trigger] dst@[t] == d0[t],
            forall|t: int| 0 <= t < k ==> #[trigger] dst@[off + t] == src@[t],
            forall|t: int| off + k <= t < d0.len() ==> #[trigger] dst@[t] == d0[t],
        decreases src@.len() - k,
    {
        dst[off + k] = src[k];
        k += 1;
    }
    let ghost r = d0.subrange(0, off as int) + src@ + d0.subrange(off + src@.len(), d0.len() as int);
    assert forall|t: int| 0 <= t < d0.len() implies #[trigger] dst@[t] == r[t] by {
        if off <= t < off + src@.len() {
            assert(dst@[off + (t - off)] == src@[t - off]);
        }
    }
    assert(dst@ =~= r);
}

/// The coefficients of each representation as integers.
pub open spec fn ints_vec(v: Seq<NTT>) -> Seq<Seq<int>> {
    v.map_values(|x: NTT| ints(x@))
}

/// The views of a vector of representations.
pub open spec fn views(v: Seq<NTT>) -> Seq<Seq<i32>> {
    v.map_values(|x: NTT| x@)
}

/// Every polynomial has 256 coefficients in `[0, q)`.
pub open spec fn polys_reduced(v: Seq<Poly>) -> bool {
    forall|i: int| 0 <= i < v.len() ==> #[trigger] reduced(v[i]@) && v[i]@.len() == 256
}

/// Every representation has 256 coefficients in `[0, q)`.
pub open spec fn ntts_reduced(v: Seq<NTT>) -> bool {
    forall|i: int| 0 <= i < v.len() ==> #[trigger] reduced(v[i]@) && v[i]@.len() == 256
}

/// NTT of each polynomial of a vector.
fn ntt_vec(s: &[Poly; RANK]) -> (r: [NTT; RANK])
    requires
        polys_reduced(s@),
    ensures
        forall|i: int| 0 <= i < RANK ==> #[trigger] ints(r@[i]@) == ntt_spec(ints(s@[i]@)),
        ntts_reduced(r@),
{
    let mut r = [NTT::default(); RANK];
    let mut i: usize = 0;
    while i < RANK
        invariant
            0 <= i <= RANK,
            polys_reduced(s@),
            forall|k: int| 0 <= k < i ==> #[trigger] ints(r@[k]@) == ntt_spec(ints(s@[k]@)),
            forall|k: int| 0 <= k < i ==> #[trigger] reduced(r@[k]@) && r@[k]@.len() == 256,
        decreases RANK - i,
    {
        proof {
            assert(reduced(s@[i as int]@));
            lemma_reduced_fwd_input(s@[i as int]@);
        }
        r[i] = NTT::from_poly(&s[i]);
        proof {
            assert(ints(r@[i as int]@).len() == 256);
        }
        i += 1;
    }
    r
}

/// Reduced representations can be added.
proof fn lemma_add_reduced(a: Seq<i32>, b: Seq<i32>)
    requires
        a.len() == 256,
        b.len() == 256,
        reduced(a),
        reduced(b),
    ensures
        add_input_ok(a, b),
{
    assert forall|k: int| 0 <= k < 256 implies #[trigger] modq_accepts(a[k] + b[k])
        && i32::MIN <= a[k] + b[k] <= i32::MAX by {
        assert(0 <= a[k] < 3329 && 0 <= b[k] < 3329);
        lemma_modq_accepts_small(a[k] + b[k]);
    }
}

/// `a^T ∘ b`: the sum of the products `a[j] ∘ b[j]` in T_q, reduced into `[0, q)`.
fn dot(a: &[NTT; RANK], b: &[NTT; RANK]) -> (r: NTT)
    requires
        ntts_reduced(a@),
        ntts_reduced(b@),
    ensures
        ints(r@) == row_dot(views(a@), views(b@), RANK as nat),
        reduced(r@),
        r@.len() == 256,
{
    let ghost av = views(a@);
    let ghost bv = views(b@);
    let mut ph = NTT::default();
    proof {
        assert(ints(ph@) =~= zero_poly());
    }
    let mut j: usize = 0;
    while j < RANK
        invariant
            0 <= j <= RANK,
            av == views(a@),
            bv == views(b@),
            ntts_reduced(a@),
            ntts_reduced(b@),
            ints(ph@) == row_dot(av, bv, j as nat),
            reduced(ph@),
            ph@.len() == 256,
        decreases RANK - j,
    {
        let x = a[j];
        let y = b[j];
        proof {
            assert(reduced(a@[j as int]@) && reduced(b@[j as int]@));
            lemma_reduced_mul_input(x@, y@);
            lemma_ntt_mul_range(x@, y@);
        }
        let m = x.mul(&y);
        proof {
            assert(ints(m@).len() == 256);
            assert forall|k: int| 0 <= k < 256 implies #[trigger] modq_accepts(ph@[k] + m@[k])
                && i32::MIN <= ph@[k] + m@[k] <= i32::MAX by {
                assert(ints(m@)[k] == ntt_mul_spec(x@, y@)[k]);
                assert(0 <= ph@[k] < 3329);
                lemma_modq_accepts_small(ph@[k] + m@[k]);
            }
        }
        ph = ph.add(&m);
        proof {
            assert(av[j as int] == x@ && bv[j as int] == y@);
            assert(ints(ph@).len() == 256);
        }
        j += 1;
    }
    ph
}

/// t̂ = Â ∘ ŝ + ê, every coefficient reduced into `[0, q)`.
fn matrix_vector_add(ah: &[[NTT; RANK]; RANK], sh: &[NTT; RANK], eh: &[NTT; RANK]) -> (th: [NTT; RANK])
    requires
        forall|i: int| 0 <= i < RANK ==> #[trigger] ntts_reduced(ah@[i]@),
        ntts_reduced(sh@),
        ntts_reduced(eh@),
    ensures
        forall|i: int| 0 <= i < RANK ==> #[trigger] ints(th@[i]@)
            == add_mod(row_dot(views(ah@[i]@), views(sh@), RANK as nat), ints(eh@[i]@)),
        ntts_reduced(th@),
{
    let mut th = [NTT::default(); RANK];
    let mut i: usize = 0;
    while i < RANK
        invariant
            0 <= i <= RANK,
            forall|a: int| 0 <= a < RANK ==> #[trigger] ntts_reduced(ah@[a]@),
            ntts_reduced(sh@),
            ntts_reduced(eh@),
            forall|a: int| 0 <= a < i ==> #[trigger] ints(th@[a]@)
                == add_mod(row_dot(views(ah@[a]@), views(sh@), RANK as nat), ints(eh@[a]@)),
            forall|a: int| 0 <= a < i ==> #[trigger] reduced(th@[a]@) && th@[a]@.len() == 256,
        decreases RANK - i,
    {
        proof {
            assert(ntts_reduced(ah@[i as int]@));
        }
        let ph = dot(&ah[i], sh);
        let e = eh[i];
        proof {
            assert(reduced(eh@[i as int]@));
            lemma_add_reduced(ph@, e@);
        }
        th[i] = ph.add(&e);
        proof {
            assert(ints(th@[i as int]@).len() == 256);
        }
        i += 1;
    }
    th
}

/// ByteEncode_12 of each representation of `v`, written one after another at the
/// start of `out`; the rest of `out` is left alone.
fn encode12_into(v: &[NTT; RANK], out: &mut [u8])
    requires
        old(out)@.len() >= 384 * RANK,
        ntts_reduced(v@),
    ensures
        final(out)@.len() == old(out)@.len(),
        final(out)@.subrange(0, 384 * RANK) == encode12_vec(ints_vec(v@)),
        final(out)@.subrange(384 * RANK, old(out)@.len() as int)
            == old(out)@.subrange(384 * RANK, old(out)@.len() as int),
{
    let ghost o0 = out@;
    let ghost vs = ints_vec(v@);
    let mut i: usize = 0;
    while i < RANK
        invariant
            0 <= i <= RANK,
            vs == ints_vec(v@),
            out@.len() == o0.len(),
            o0.len() >= 384 * RANK,
            ntts_reduced(v@),
            out@.subrange(0, 384 * i) == encode12_vec(vs.take(i as int)),
            out@.subrange(384 * RANK, o0.len() as int) == o0.subrange(384 * RANK, o0.len() as int),
        decreases RANK - i,
    {
        let f: [u16; N] = v[i].into();
        let mut buf = [0u8; 384];
        byte_encode_12(f, &mut buf);
        let ghost before = out@;
        copy_into(out, 384 * i, &buf);
        proof {
            let ii = i as int;
            let x = v@[ii];
            assert(f@ == low16(x@));
            assert(x@.map_values(|y: i32| y as int).map_values(|y: int| y as u16) =~= low16(x@));
            assert(buf@ == encode12(vs[ii]));
            assert(vs.take(ii + 1).drop_last() =~= vs.take(ii));
            assert(vs.take(ii + 1).last() == vs[ii]);
            assert(encode12_vec(vs.take(ii + 1)) == encode12_vec(vs.take(ii)) + encode12(vs[ii]));
            assert(out@.subrange(0, 384 * (ii + 1)) =~= before.subrange(0, 384 * ii) + buf@);
            assert(out@.subrange(384 * RANK, o0.len() as int) =~= before.subrange(384 * RANK, o0.len() as int));
        }
        i += 1;
    }
    assert(vs.take(RANK as int) =~= vs);
}

/// K-PKE.KeyGen (FIPS 203, Alg. 13): derives the encryption key ByteEncode_12(t̂) || rho
/// and the decryption key ByteEncode_12(ŝ) from the 32-byte seed `d`.
pub fn key_gen(d: [u8; 32]) -> (r: (EncryptionKey, DecryptionKey))
    ensures
        r.0@ == (kpke_ek(d@), keygen_rho(d@)),
        r.1@ == kpke_dk(d@),
        keygen_digest(d@).len() == 64,
        ek_valid(r.0@.0),
        dk_valid(r.1@),
{
    // (rho, sigma) = G(d || k)
    let mut sr = [0u8; 33];
    copy_into(&mut sr, 0, &d);
    sr[32] = RANK as u8;
    let mut rho = [0u8; 32];
    let mut sigma = [0u8; 32];
    proof {
        assert(sr@ =~= d@.push(RANK as u8));
    }
    gen_rho_sigma(sr, &mut rho, &mut sigma);
    key_gen_from_seeds(rho, sigma)
}

/// K-PKE.KeyGen from the seeds (rho, sigma) = G(d || k) on (FIPS 203, Alg. 13, lines 3-20):
/// the encryption key ByteEncode_12(Â ∘ ŝ + ê) || rho and the decryption key ByteEncode_12(ŝ).
pub fn key_gen_from_seeds(rho: [u8; 32], sigma: [u8; 32]) -> (r: (EncryptionKey, DecryptionKey))
    ensures
        r.0@ == (ek_from_seeds(rho@, sigma@), rho@),
        r.1@ == dk_from_seed(sigma@),
        ek_valid(r.0@.0),
        dk_valid(r.1@),
{
    // Â[i][j] = SampleNTT(rho || j || i)
    let z = NTT::default();
    let mut ah = [[z; RANK]; RANK];
    let ghost ah0 = ah@;
    NTT::sample_ntt_matrix(&rho, &mut ah);

    // s and e from CBD_eta1(PRF_eta1(sigma, N)), N = 0, 1, ..., 2k - 1
    let mut n: u8 = 0;
    let mut s = [Poly::default(); RANK];
    sample_secret_eta1(sigma, &mut n, &mut s);
    let mut e = [Poly::default(); RANK];
    sample_secret_eta1(sigma, &mut n, &mut e);
    proof {
        assert(polys_reduced(s@)) by {
            assert forall|i: int| 0 <= i < s@.len() implies #[trigger] reduced(s@[i]@) && s@[i]@.len() == 256 by {
                assert(ints(s@[i]@) == secret_eta1_spec(sigma@, 0, i));
                assert forall|k: int| 0 <= k < s@[i]@.len() implies 0 <= #[trigger] s@[i]@[k] < 3329 by {
                    assert(ints(s@[i]@)[k] == s@[i]@[k] as int);
                }
            }
        }
        assert(polys_reduced(e@)) by {
            assert forall|i: int| 0 <= i < e@.len() implies #[trigger] reduced(e@[i]@) && e@[i]@.len() == 256 by {
                assert(ints(e@[i]@) == secret_eta1_spec(sigma@, RANK as u8, i));
                assert forall|k: int| 0 <= k < e@[i]@.len() implies 0 <= #[trigger] e@[i]@[k] < 3329 by {
                    assert(ints(e@[i]@)[k] == e@[i]@[k] as int);
                }
            }
        }
        assert forall|i: int| 0 <= i < RANK implies #[trigger] ntts_reduced(ah@[i]@) by {
            assert forall|j: int| 0 <= j < ah@[i]@.len() implies #[trigger] reduced(ah@[i]@[j]@)
                && ah@[i]@[j]@.len() == 256 by {
                assert(ah0[i]@[j] == z);
                let input = rho@ + seq![j as u8, i as u8];
                let t = (2 * SAMPLE_NTT_MAX_READS) as nat;
                lemma_ntt_accepted_prefix(input, t, t);
                assert(ah@[i]@[j]@ == sample_ntt_spec(input));
            }
        }
    }

    // ŝ = NTT(s), ê = NTT(e)
    let sh = ntt_vec(&s);
    let eh = ntt_vec(&e);

    // t̂ = Â ∘ ŝ + ê
    let th = matrix_vector_add(&ah, &sh, &eh);

    // ek = ByteEncode_12(t̂) || rho, dk = ByteEncode_12(ŝ)
    let mut ek = [0u8; 1184];
    encode12_into(&th, &mut ek);
    let ghost ek1 = ek@;
    copy_into(&mut ek, 384 * RANK, &rho);
    let mut dk = [0u8; 1152];
    encode12_into(&sh, &mut dk);

    proof {
        let rs = rho@;
        let sg = sigma@;
        assert(views(sh@) =~= secret_hat_vec(sg)) by {
            assert forall|j: int| 0 <= j < RANK implies #[trigger] views(sh@)[j] == secret_hat_vec(sg)[j] by {
                assert(ints(s@[j]@) == secret_eta1_spec(sg, 0, j));
                assert(sh@[j]@ =~= to_i32s(ints(sh@[j]@)));
            }
        }
        assert(ints_vec(th@) =~= Seq::new(RANK as nat, |i: int| public_hat(rs, sg, i))) by {
            assert forall|i: int| 0 <= i < RANK implies #[trigger] ints_vec(th@)[i] == public_hat(rs, sg, i) by {
                assert(views(ah@[i]@) =~= matrix_row(rs, i)) by {
                    assert forall|j: int| 0 <= j < RANK implies #[trigger] views(ah@[i]@)[j] == matrix_row(rs, i)[j] by {
                        assert(ah0[i]@[j] == z);
                    }
                }
                assert(ints(e@[i]@) == secret_eta1_spec(sg, RANK as u8, i));
            }
        }
        assert(ints_vec(sh@) =~= Seq::new(RANK as nat, |i: int| secret_hat(sg, i))) by {
            assert forall|i: int| 0 <= i < RANK implies #[trigger] ints_vec(sh@)[i] == secret_hat(sg, i) by {
                assert(ints(s@[i]@) == secret_eta1_spec(sg, 0, i));
            }
        }
        assert(ek@ =~= ek1.subrange(0, 384 * RANK) + rs);
        assert(ek@.subrange(0, 384 * RANK) =~= ek1.subrange(0, 384 * RANK));
        assert(dk@ =~= dk@.subrange(0, 384 * RANK));
        assert forall|i: int, k: int| 0 <= i < RANK && 0 <= k < 256 implies 0 <= #[trigger] ints_vec(th@)[i][k] < 3329 by {
            assert(reduced(th@[i]@));
            assert(ints_vec(th@)[i][k] == th@[i]@[k] as int);
        }
        assert forall|i: int, k: int| 0 <= i < RANK && 0 <= k < 256 implies 0 <= #[trigger] ints_vec(sh@)[i][k] < 3329 by {
            assert(reduced(sh@[i]@));
            assert(ints_vec(sh@)[i][k] == sh@[i]@[k] as int);
        }
        lemma_encoded_blocks_reduced(ints_vec(th@), ek@);
        lemma_encoded_blocks_reduced(ints_vec(sh@), dk@);
    }
    (EncryptionKey::new(ek, rho), DecryptionKey::new(dk))
}

/// Block `i` of 384 bytes of a key, its 12-bit values before reduction modulo q.
pub open spec fn decode12_block(key: Seq<u8>, i: int) -> Seq<u16> {
    byte_decode_spec(key.subrange(384 * i, 384 * i + 384), 12)
}

/// Block `i` of 384 bytes of a key, through ByteDecode_12 (each value reduced modulo q).
pub open spec fn decode12_block_q(key: Seq<u8>, i: int) -> Seq<u16> {
    byte_decode_q(key.subrange(384 * i, 384 * i + 384), 12)
}

/// Every coefficient of the first k blocks decodes below q (the modulus check of
/// FIPS 203, 7.2).
pub open spec fn blocks_reduced(key: Seq<u8>) -> bool {
    forall|i: int, k: int| 0 <= i < RANK && 0 <= k < 256 ==> #[trigger] decode12_block(key, i)[k] < 3329
}

/// An encryption key that passes the modulus check: 384 k + 32 bytes whose first
/// 384 k decode to coefficients below q.
pub open spec fn ek_valid(ek: Seq<u8>) -> bool {
    ek.len() == 384 * RANK + 32 && blocks_reduced(ek)
}

/// A decryption key that passes the modulus check: 384 k bytes that decode to
/// coefficients below q.
pub open spec fn dk_valid(dk: Seq<u8>) -> bool {
    dk.len() == 384 * RANK && blocks_reduced(dk)
}

/// The vector of representations decoded from the first k blocks of a key.
pub open spec fn decode12_vec(key: Seq<u8>) -> Seq<Seq<i32>> {
    Seq::new(RANK as nat, |i: int| widen(decode12_block_q(key, i)))
}

/// Column `i` of Â, that is, row `i` of Â^T.
pub open spec fn matrix_col(rho: Seq<u8>, i: int) -> Seq<Seq<i32>> {
    Seq::new(RANK as nat, |j: int| matrix_entry(rho, j, i))
}

/// Compress_d of every coefficient.
pub open spec fn compress_poly(f: Seq<int>, d: nat) -> Seq<u16> {
    f.map_values(|x: int| compress_value(d, x) as u16)
}

/// The blocks of `v` concatenated.
pub open spec fn concat_blocks(v: Seq<Seq<u8>>) -> Seq<u8>
    decreases v.len(),
{
    if v.len() == 0 { Seq::empty() } else { concat_blocks(v.drop_last()) + v.last() }
}

/// e1[i] of K-PKE.Encrypt: SamplePolyCBD_eta2(PRF_eta2(r, k + i)).
pub open spec fn encrypt_e1(r: Seq<u8>, i: int) -> Seq<int> {
    sample_cbd_spec(prf_spec(r, (RANK + i) as u8, 128), 2)
}

/// e2 of K-PKE.Encrypt: SamplePolyCBD_eta2(PRF_eta2(r, 2k)).
pub open spec fn encrypt_e2(r: Seq<u8>) -> Seq<int> {
    sample_cbd_spec(prf_spec(r, (2 * RANK) as u8, 128), 2)
}

/// u[i] = NTT^-1((Â^T ∘ ŷ)[i]) + e1[i] (FIPS 203, Alg. 14, line 19); ŷ is NTT(y) with
/// y[j] sampled from PRF_eta1(r, j).
pub open spec fn encrypt_u(rho: Seq<u8>, r: Seq<u8>, i: int) -> Seq<int> {
    add_mod(inv_ntt_spec(row_dot(matrix_col(rho, i), secret_hat_vec(r), RANK as nat)), encrypt_e1(r, i))
}

/// mu = Decompress_1(ByteDecode_1(m)) (FIPS 203, Alg. 14, line 20).
pub open spec fn message_poly(m: Seq<u8>) -> Seq<int> {
    Seq::new(256, |k: int| 1665 * byte_decode_spec(m, 1)[k])
}

/// v = NTT^-1(t̂^T ∘ ŷ) + e2 + mu (FIPS 203, Alg. 14, line 21).
pub open spec fn encrypt_v(ek: Seq<u8>, m: Seq<u8>, r: Seq<u8>) -> Seq<int> {
    add_mod(add_mod(inv_ntt_spec(row_dot(decode12_vec(ek), secret_hat_vec(r), RANK as nat)), encrypt_e2(r)),
        message_poly(m))
}

/// K-PKE.Encrypt(ek, m, r) (FIPS 203, Alg. 14): ByteEncode_du(Compress_du(u)) followed by
/// ByteEncode_dv(Compress_dv(v)).
pub open spec fn kpke_encrypt(ek: Seq<u8>, m: Seq<u8>, r: Seq<u8>) -> Seq<u8> {
    let rho = ek.subrange(384 * RANK, 384 * RANK + 32);
    concat_blocks(Seq::new(RANK as nat, |i: int| byte_encode_spec(compress_poly(encrypt_u(rho, r, i), DU as nat), DU as int)))
        + byte_encode_spec(compress_poly(encrypt_v(ek, m, r), DV as nat), DV as int)
}

/// u'[i] = Decompress_du(ByteDecode_du(c1[i])) (FIPS 203, Alg. 15, line 3).
pub open spec fn decrypt_u(c: Seq<u8>, i: int) -> Seq<int> {
    let b = byte_decode_spec(c.subrange(32 * DU * i, 32 * DU * (i + 1)), DU as int);
    Seq::new(256, |k: int| decompress_value(DU as nat, b[k] as int))
}

/// v' = Decompress_dv(ByteDecode_dv(c2)) (FIPS 203, Alg. 15, line 4).
pub open spec fn decrypt_v(c: Seq<u8>) -> Seq<int> {
    let b = byte_decode_spec(c.subrange(32 * DU * RANK, 32 * (DU * RANK + DV)), DV as int);
    Seq::new(256, |k: int| decompress_value(DV as nat, b[k] as int))
}

/// w = v' - NTT^-1(ŝ^T ∘ NTT(u')) (FIPS 203, Alg. 15, line 6).
pub open spec fn decrypt_w(dk: Seq<u8>, c: Seq<u8>) -> Seq<int> {
    let uh = Seq::new(RANK as nat, |j: int| to_i32s(ntt_spec(decrypt_u(c, j))));
    let p = inv_ntt_spec(row_dot(decode12_vec(dk), uh, RANK as nat));
    Seq::new(256, |k: int| (decrypt_v(c)[k] - p[k]) % 3329)
}

/// K-PKE.Decrypt(dk, c) (FIPS 203, Alg. 15): ByteEncode_1(Compress_1(w)).
pub open spec fn kpke_decrypt(dk: Seq<u8>, c: Seq<u8>) -> Seq<u8> {
    byte_encode_spec(compress_poly(decrypt_w(dk, c), 1), 1)
}

/// Every value that ByteDecode_d gives is below 2^d.
pub proof fn lemma_decoded_below(b: Seq<u8>, d: int)
    requires
        b.len() == 32 * d,
        1 <= d <= 12,
    ensures
        forall|k: int| 0 <= k < 256 ==> (#[trigger] byte_decode_spec(b, d)[k] as int) < pow2(d as nat),
{
    let dec = byte_decode_spec(b, d);
    lemma_decode_spec_len(b, d);
    lemma_encode_decode(b, d);
    lemma_decode_encode(dec, d);
    vstd::arithmetic::power2::lemma_pow2_pos(d as nat);
    assert forall|k: int| 0 <= k < 256 implies (#[trigger] byte_decode_spec(b, d)[k] as int) < pow2(d as nat) by {
        assert(byte_decode_spec(byte_encode_spec(dec, d), d)[k] as int == (dec[k] as int) % pow2(d as nat) as int);
    }
}

/// Copies `dst.len()` bytes of `src` from offset `off` on into `dst`.
fn read_chunk(src: &[u8], off: usize, dst: &mut [u8])
    requires
        off + old(dst)@.len() <= src@.len(),
    ensures
        final(dst)@ == src@.subrange(off as int, off + old(dst)@.len()),
{
    let n = dst.len();
    let sl = src.len();
    let mut k: usize = 0;
    while k < n
        invariant
            0 <= k <= n,
            n == dst@.len(),
            sl == src@.len(),
            off + n <= src@.len(),
            forall|t: int| 0 <= t < k ==> #[trigger] dst@[t] == src@[off + t],
        decreases n - k,
    {
        dst[k] = src[off + k];
        k += 1;
    }
    assert(dst@ =~= src@.subrange(off as int, off + n));
}

/// Whether every coefficient of the first k blocks of `key` decodes below q.
fn blocks_ok(key: &[u8]) -> (r: bool)
    requires
        key@.len() >= 384 * RANK,
    ensures
        r == blocks_reduced(key@),
{
    let mut i: usize = 0;
    while i < RANK
        invariant
            0 <= i <= RANK,
            key@.len() >= 384 * RANK,
            forall|a: int, k: int| 0 <= a < i && 0 <= k < 256 ==> #[trigger] decode12_block(key@, a)[k] < 3329,
        decreases RANK - i,
    {
        let mut buf = [0u8; 384];
        read_chunk(key, 384 * i, &mut buf);
        let mut dec = [0u16; N];
        let ok = _byte_decode_bssl_(&buf, &mut dec, 12);
        if !ok {
            proof {
                let k = choose|k: int| 0 <= k < 256 && !(byte_decode_spec(buf@, 12)[k] < 3329);
                assert(decode12_block(key@, i as int)[k] >= 3329);
            }
            return false;
        }
        i += 1;
    }
    true
}

/// ByteDecode_12 of the first k blocks of `key`, as representations.
fn decode_ntt_vec(key: &[u8]) -> (r: [NTT; RANK])
    requires
        key@.len() >= 384 * RANK,
    ensures
        views(r@) == decode12_vec(key@),
        ntts_reduced(r@),
{
    let mut r = [NTT::default(); RANK];
    let mut i: usize = 0;
    while i < RANK
        invariant
            0 <= i <= RANK,
            key@.len() >= 384 * RANK,
            forall|a: int| 0 <= a < i ==> #[trigger] r@[a]@ == widen(decode12_block_q(key@, a)),
            forall|a: int| 0 <= a < i ==> #[trigger] reduced(r@[a]@) && r@[a]@.len() == 256,
        decreases RANK - i,
    {
        let mut buf = [0u8; 384];
        read_chunk(key, 384 * i, &mut buf);
        let mut f = [0u16; N];
        byte_decode_12(&buf, &mut f);
        proof {
            lemma_decode_spec_len(buf@, 12);
            assert forall|k: int| 0 <= k < 256 implies #[trigger] f@[k] == decode12_block_q(key@, i as int)[k]
                && f@[k] < 3329 by {
                assert(buf@ == key@.subrange(384 * i as int, 384 * i as int + 384));
            }
        }
        let x = NTT::from_array(f);
        proof {
            assert(x@ =~= widen(decode12_block_q(key@, i as int)));
        }
        r[i] = x;
        i += 1;
    }
    assert(views(r@) =~= decode12_vec(key@));
    r
}

/// Decompress_d of every coefficient.
fn decompress_poly<const D: u8>(f: &[u16; N]) -> (r: Poly)
    requires
        1 <= D < 12,
        forall|k: int| 0 <= k < 256 ==> (#[trigger] f@[k] as int) < pow2(D as nat),
    ensures
        ints(r@) == Seq::new(256, |k: int| decompress_value(D as nat, f@[k] as int)),
        reduced(r@),
        r@.len() == 256,
{
    let mut c = [0i32; N];
    let mut i: usize = 0;
    while i < N
        invariant
            0 <= i <= N,
            1 <= D < 12,
            c@.len() == 256,
            forall|k: int| 0 <= k < 256 ==> (#[trigger] f@[k] as int) < pow2(D as nat),
            forall|k: int| 0 <= k < i ==> #[trigger] c@[k] as int == decompress_value(D as nat, f@[k] as int),
            forall|k: int| 0 <= k < i ==> 0 <= #[trigger] c@[k] < 3329,
        decreases N - i,
    {
        assert((f@[i as int] as int) < pow2(D as nat));
        let x = decompress::<D>(f[i]);
        c[i] = x as i32;
        i += 1;
    }
    let r = Poly::from_coefficients(c);
    assert(ints(r@) =~= Seq::new(256, |k: int| decompress_value(D as nat, f@[k] as int)));
    r
}

/// mu = Decompress_1(ByteDecode_1(m)).
fn message_to_poly(m: &[u8; 32]) -> (r: Poly)
    ensures
        ints(r@) == message_poly(m@),
        reduced(r@),
        r@.len() == 256,
{
    let b = RingElement::byte_decode_1(m);
    proof {
        lemma_decoded_below(m@, 1);
        lemma2_to64();
        lemma_decode_spec_len(m@, 1);
    }
    let bc = b.coeff();
    let mut c = [0i32; N];
    let mut i: usize = 0;
    while i < N
        invariant
            0 <= i <= N,
            c@.len() == 256,
            bc@ == widen(byte_decode_spec(m@, 1)),
            byte_decode_spec(m@, 1).len() == 256,
            forall|k: int| 0 <= k < 256 ==> (#[trigger] byte_decode_spec(m@, 1)[k] as int) < pow2(1),
            pow2(1) == 2,
            forall|k: int| 0 <= k < i ==> #[trigger] c@[k] as int == message_poly(m@)[k],
        decreases N - i,
    {
        assert((byte_decode_spec(m@, 1)[i as int] as int) < pow2(1));
        let x = decompress_1(bc[i] as u16);
        c[i] = x as i32;
        i += 1;
    }
    let r = Poly::from_coefficients(c);
    assert(ints(r@) =~= message_poly(m@));
    r
}

/// Coefficient-wise difference of reduced polynomials, modulo q.
fn poly_sub(a: &Poly, b: &Poly) -> (r: Poly)
    requires
        reduced(a@),
        reduced(b@),
        a@.len() == 256,
        b@.len() == 256,
    ensures
        ints(r@) == Seq::new(256, |k: int| (a@[k] - b@[k]) % 3329),
        reduced(r@),
        r@.len() == 256,
{
    let x = a.coeff();
    let y = b.coeff();
    let mut c = [0i32; N];
    let mut i: usize = 0;
    while i < N
        invariant
            0 <= i <= N,
            c@.len() == 256,
            x@ == a@,
            y@ == b@,
            reduced(a@),
            reduced(b@),
            forall|k: int| 0 <= k < i ==> #[trigger] c@[k] as int == (a@[k] - b@[k]) % 3329,
        decreases N - i,
    {
        proof {
            assert(0 <= a@[i as int] < 3329 && 0 <= b@[i as int] < 3329);
            lemma_modq_accepts_small(a@[i as int] - b@[i as int]);
        }
        c[i] = modq(x[i] - y[i]);
        i += 1;
    }
    let r = Poly::from_coefficients(c);
    assert(ints(r@) =~= Seq::new(256, |k: int| (a@[k] - b@[k]) % 3329));
    r
}

/// The sum of two reduced polynomials, coefficient-wise modulo q.
fn poly_add(a: &Poly, b: &Poly) -> (r: Poly)
    requires
        reduced(a@),
        reduced(b@),
        a@.len() == 256,
        b@.len() == 256,
    ensures
        ints(r@) == add_mod(ints(a@), ints(b@)),
        reduced(r@),
        r@.len() == 256,
{
    proof {
        lemma_add_reduced(a@, b@);
    }
    let r = a.add(b);
    assert(ints(r@) =~= add_mod(ints(a@), ints(b@)));
    r
}

/// Column `i` of a matrix of representations.
pub open spec fn column(ah: Seq<[NTT; RANK]>, i: int) -> Seq<Seq<i32>> {
    Seq::new(RANK as nat, |j: int| ah[j]@[i]@)
}

/// u = NTT^-1(Â^T ∘ ŷ) + e1.
fn transpose_product(ah: &[[NTT; RANK]; RANK], yh: &[NTT; RANK], e1: &[Poly; RANK]) -> (u: [Poly; RANK])
    requires
        forall|i: int| 0 <= i < RANK ==> #[trigger] ntts_reduced(ah@[i]@),
        ntts_reduced(yh@),
        polys_reduced(e1@),
    ensures
        forall|i: int| 0 <= i < RANK ==> #[trigger] ints(u@[i]@)
            == add_mod(inv_ntt_spec(row_dot(column(ah@, i), views(yh@), RANK as nat)), ints(e1@[i]@)),
        polys_reduced(u@),
{
    let mut u = [Poly::default(); RANK];
    let mut i: usize = 0;
    while i < RANK
        invariant
            0 <= i <= RANK,
            forall|a: int| 0 <= a < RANK ==> #[trigger] ntts_reduced(ah@[a]@),
            ntts_reduced(yh@),
            polys_reduced(e1@),
            forall|a: int| 0 <= a < i ==> #[trigger] ints(u@[a]@)
                == add_mod(inv_ntt_spec(row_dot(column(ah@, a), views(yh@), RANK as nat)), ints(e1@[a]@)),
            forall|a: int| 0 <= a < i ==> #[trigger] reduced(u@[a]@) && u@[a]@.len() == 256,
        decreases RANK - i,
    {
        let mut col = [NTT::default(); RANK];
        let mut j: usize = 0;
        while j < RANK
            invariant
                0 <= i < RANK,
                0 <= j <= RANK,
                forall|a: int| 0 <= a < RANK ==> #[trigger] ntts_reduced(ah@[a]@),
                forall|b: int| 0 <= b < j ==> #[trigger] col@[b] == ah@[b]@[i as int],
            decreases RANK - j,
        {
            col[j] = ah[j][i];
            j += 1;
        }
        proof {
            assert forall|b: int| 0 <= b < col@.len() implies #[trigger] reduced(col@[b]@) && col@[b]@.len() == 256 by {
                assert(ntts_reduced(ah@[b]@));
                assert(col@[b] == ah@[b]@[i as int]);
            }
            assert(views(col@) =~= column(ah@, i as int));
        }
        let p = dot(&col, yh);
        proof {
            lemma_reduced_inv_input(p@);
        }
        let w = p.inv();
        proof {
            assert(ints(w@).len() == 256);
            assert(reduced(e1@[i as int]@) && e1@[i as int]@.len() == 256);
        }
        u[i] = poly_add(&w, &e1[i]);
        i += 1;
    }
    u
}

/// ByteEncode_d(Compress_d(f)) equals the encoding of the compressed coefficients.
proof fn lemma_compressed_encoding(f: Seq<i32>, cf: Seq<i32>, d: nat)
    requires
        f.len() == 256,
        cf.len() == 256,
        reduced(f),
        1 <= d < 12,
        forall|k: int| 0 <= k < 256 ==> #[trigger] cf[k] as int == compress_value(d, (f[k] as u16) as int),
    ensures
        low16(cf) == compress_poly(ints(f), d),
{
    assert forall|k: int| 0 <= k < 256 implies #[trigger] low16(cf)[k] == compress_poly(ints(f), d)[k] by {
        assert(0 <= f[k] < 3329);
        assert((f[k] as u16) as int == f[k] as int);
        assert(cf[k] as int == compress_value(d, ints(f)[k]));
    }
    assert(low16(cf) =~= compress_poly(ints(f), d));
}

/// ByteEncode_du(Compress_du(u[i])) for each `i`, one after another at the start of `out`.
fn encode_compressed_vec(u: &[Poly; RANK], out: &mut [u8])
    requires
        old(out)@.len() >= 32 * DU * RANK,
        polys_reduced(u@),
    ensures
        final(out)@.len() == old(out)@.len(),
        final(out)@.subrange(0, 32 * DU * RANK) == concat_blocks(Seq::new(RANK as nat,
            |i: int| byte_encode_spec(compress_poly(ints(u@[i]@), DU as nat), DU as int))),
        final(out)@.subrange(32 * DU * RANK, old(out)@.len() as int)
            == old(out)@.subrange(32 * DU * RANK, old(out)@.len() as int),
{
    let ghost o0 = out@;
    let ghost blocks = Seq::new(RANK as nat,
        |i: int| byte_encode_spec(compress_poly(ints(u@[i]@), DU as nat), DU as int));
    let mut i: usize = 0;
    while i < RANK
        invariant
            0 <= i <= RANK,
            blocks == Seq::new(RANK as nat,
                |a: int| byte_encode_spec(compress_poly(ints(u@[a]@), DU as nat), DU as int)),
            out@.len() == o0.len(),
            o0.len() >= 32 * DU * RANK,
            polys_reduced(u@),
            out@.subrange(0, 320 * i) == concat_blocks(blocks.take(i as int)),
            out@.subrange(32 * DU * RANK, o0.len() as int) == o0.subrange(32 * DU * RANK, o0.len() as int),
        decreases RANK - i,
    {
        let p = u[i];
        proof {
            assert(reduced(u@[i as int]@) && u@[i as int]@.len() == 256);
            assert forall|k: int| 0 <= k < 256 implies (#[trigger] p@[k] as u16) < 3329 by {
                assert(0 <= p@[k] < 3329);
            }
        }
        let cu = p.compress::<DU>();
        let enc = cu.byte_encode_du();
        let ghost before = out@;
        copy_into(out, 320 * i, &enc);
        proof {
            let ii = i as int;
            lemma_compressed_encoding(p@, cu@, DU as nat);
            assert(enc@ == blocks[ii]);
            assert(blocks.take(ii + 1).drop_last() =~= blocks.take(ii));
            assert(concat_blocks(blocks.take(ii + 1)) == concat_blocks(blocks.take(ii)) + blocks[ii]);
            assert(out@.subrange(0, 320 * (ii + 1)) =~= before.subrange(0, 320 * ii) + enc@);
            assert(out@.subrange(32 * DU * RANK, o0.len() as int) =~= before.subrange(32 * DU * RANK, o0.len() as int));
        }
        i += 1;
    }
    assert(blocks.take(RANK as int) =~= blocks);
}

impl EncryptionKey {
    /// The modulus check of FIPS 203 (7.2): whether every coefficient of t̂ decodes
    /// below q, that is, whether ByteEncode_12(ByteDecode_12(ek)) gives the key back.
    pub fn is_valid(&self) -> (r: bool)
        ensures
            r == ek_valid(self@.0),
    {
        blocks_ok(&self.key)
    }

    /// K-PKE.Encrypt (FIPS 203, Alg. 14): encrypts the 32-byte message `m` with the
    /// 32 bytes of randomness `r` into 32 (du k + dv) bytes.
    pub fn encrypt(&self, m: [u8; 32], r: [u8; 32]) -> (c: [u8; 1088])
        ensures
            c@ == kpke_encrypt(self@.0, m@, r@),
    {
        let ghost ek = self.key@;
        // t̂ = ByteDecode_12(ek[0 : 384k]), rho = ek[384k : 384k + 32]
        let th = decode_ntt_vec(&self.key);
        let mut rho = [0u8; 32];
        read_chunk(&self.key, 384 * RANK, &mut rho);

        // Â[i][j] = SampleNTT(rho || j || i)
        let z = NTT::default();
        let mut ah = [[z; RANK]; RANK];
        let ghost ah0 = ah@;
        NTT::sample_ntt_matrix(&rho, &mut ah);

        // y from PRF_eta1(r, 0..k), e1 from PRF_eta2(r, k..2k), e2 from PRF_eta2(r, 2k)
        let mut n: u8 = 0;
        let mut y = [Poly::default(); RANK];
        sample_secret_eta1(r, &mut n, &mut y);
        let mut e1 = [Poly::default(); RANK];
        let mut i: usize = 0;
        while i < RANK
            invariant
                0 <= i <= RANK,
                n == RANK + i,
                forall|a: int| 0 <= a < i ==> #[trigger] ints(e1@[a]@) == encrypt_e1(r@, a),
            decreases RANK - i,
        {
            let mut p = Poly::default();
            sample_secret_eta2(r, n, &mut p);
            e1[i] = p;
            n = n + 1;
            i += 1;
        }
        let mut e2 = Poly::default();
        sample_secret_eta2(r, n, &mut e2);

        proof {
            assert(polys_reduced(y@)) by {
                assert forall|a: int| 0 <= a < y@.len() implies #[trigger] reduced(y@[a]@) && y@[a]@.len() == 256 by {
                    assert(ints(y@[a]@) == secret_eta1_spec(r@, 0, a));
                    assert forall|k: int| 0 <= k < y@[a]@.len() implies 0 <= #[trigger] y@[a]@[k] < 3329 by {
                        assert(ints(y@[a]@)[k] == y@[a]@[k] as int);
                    }
                }
            }
            assert forall|a: int| 0 <= a < e1@.len() implies #[trigger] reduced(e1@[a]@) && e1@[a]@.len() == 256 by {
                assert(ints(e1@[a]@) == encrypt_e1(r@, a));
                assert forall|k: int| 0 <= k < e1@[a]@.len() implies 0 <= #[trigger] e1@[a]@[k] < 3329 by {
                    assert(ints(e1@[a]@)[k] == e1@[a]@[k] as int);
                }
            }
            assert(ints(e2@) == encrypt_e2(r@));
            assert forall|k: int| 0 <= k < e2@.len() implies 0 <= #[trigger] e2@[k] < 3329 by {
                assert(ints(e2@)[k] == e2@[k] as int);
            }
            assert forall|a: int| 0 <= a < RANK implies #[trigger] ntts_reduced(ah@[a]@) by {
                assert forall|b: int| 0 <= b < ah@[a]@.len() implies #[trigger] reduced(ah@[a]@[b]@)
                    && ah@[a]@[b]@.len() == 256 by {
                    assert(ah0[a]@[b] == z);
                    let input = rho@ + seq![b as u8, a as u8];
                    let t = (2 * SAMPLE_NTT_MAX_READS) as nat;
                    lemma_ntt_accepted_prefix(input, t, t);
                    assert(ah@[a]@[b]@ == sample_ntt_spec(input));
                }
            }
        }

        // ŷ = NTT(y)
        let yh = ntt_vec(&y);
        // u = NTT^-1(Â^T ∘ ŷ) + e1
        let u = transpose_product(&ah, &yh, &e1);
        // mu = Decompress_1(ByteDecode_1(m))
        let mu = message_to_poly(&m);
        // v = NTT^-1(t̂^T ∘ ŷ) + e2 + mu
        let tv = dot(&th, &yh);
        proof {
            lemma_reduced_inv_input(tv@);
        }
        let v0 = tv.inv();
        proof {
            assert(ints(v0@).len() == 256);
        }
        let v1 = poly_add(&v0, &e2);
        let v = poly_add(&v1, &mu);

        // c1 = ByteEncode_du(Compress_du(u)), c2 = ByteEncode_dv(Compress_dv(v))
        let mut c = [0u8; 1088];
        encode_compressed_vec(&u, &mut c);
        let ghost c1 = c@;
        proof {
            assert forall|k: int| 0 <= k < 256 implies (#[trigger] v@[k] as u16) < 3329 by {
                assert(0 <= v@[k] < 3329);
            }
        }
        let cv = v.compress::<DV>();
        let enc = cv.byte_encode_dv();
        copy_into(&mut c, 32 * DU as usize * RANK, &enc);

        proof {
            let rs = rho@;
            let rr = r@;
            assert(rs == ek.subrange(384 * RANK, 384 * RANK + 32));
            assert(views(yh@) =~= secret_hat_vec(rr)) by {
                assert forall|j: int| 0 <= j < RANK implies #[trigger] views(yh@)[j] == secret_hat_vec(rr)[j] by {
                    assert(ints(y@[j]@) == secret_eta1_spec(rr, 0, j));
                    assert(yh@[j]@ =~= to_i32s(ints(yh@[j]@)));
                }
            }
            assert forall|i: int| 0 <= i < RANK implies #[trigger] ints(u@[i]@) == encrypt_u(rs, rr, i) by {
                assert(column(ah@, i) =~= matrix_col(rs, i)) by {
                    assert forall|j: int| 0 <= j < RANK implies #[trigger] column(ah@, i)[j] == matrix_col(rs, i)[j] by {
                        assert(ah0[j]@[i] == z);
                    }
                }
            }
            let ublocks = Seq::new(RANK as nat,
                |i: int| byte_encode_spec(compress_poly(ints(u@[i]@), DU as nat), DU as int));
            let sblocks = Seq::new(RANK as nat,
                |i: int| byte_encode_spec(compress_poly(encrypt_u(rs, rr, i), DU as nat), DU as int));
            assert(ublocks =~= sblocks);
            assert(ints(v@) == encrypt_v(ek, m@, rr));
            lemma_compressed_encoding(v@, cv@, DV as nat);
            assert(c@ =~= c1.subrange(0, 32 * DU * RANK) + enc@);
        }
        c
    }
}

impl DecryptionKey {
    /// Whether every coefficient of ŝ decodes below q.
    pub fn is_valid(&self) -> (r: bool)
        ensures
            r == dk_valid(self@),
    {
        blocks_ok(&self.key)
    }

    /// K-PKE.Decrypt (FIPS 203, Alg. 15): recovers the 32-byte message from a
    /// ciphertext of 32 (du k + dv) bytes.
    pub fn decrypt(&self, c: [u8; 1088]) -> (m: [u8; 32])
        ensures
            m@ == kpke_decrypt(self@, c@),
    {
        // û = NTT(Decompress_du(ByteDecode_du(c1)))
        let mut uh = [NTT::default(); RANK];
        let mut i: usize = 0;
        while i < RANK
            invariant
                0 <= i <= RANK,
                forall|a: int| 0 <= a < i ==> #[trigger] uh@[a]@ == to_i32s(ntt_spec(decrypt_u(c@, a))),
                forall|a: int| 0 <= a < i ==> #[trigger] reduced(uh@[a]@) && uh@[a]@.len() == 256,
            decreases RANK - i,
        {
            let mut buf = [0u8; 320];
            read_chunk(&c, 320 * i, &mut buf);
            let mut f = [0u16; N];
            byte_decode(&buf, &mut f, DU);
            proof {
                lemma_decoded_below(buf@, DU as int);
            }
            let up = decompress_poly::<DU>(&f);
            proof {
                lemma_reduced_fwd_input(up@);
                assert(ints(up@) =~= decrypt_u(c@, i as int));
            }
            let x = NTT::from_poly(&up);
            proof {
                assert(ints(x@).len() == 256);
                assert(x@ =~= to_i32s(ints(x@)));
            }
            uh[i] = x;
            i += 1;
        }
        // v' = Decompress_dv(ByteDecode_dv(c2))
        let mut buf = [0u8; 128];
        read_chunk(&c, 32 * DU as usize * RANK, &mut buf);
        let mut f = [0u16; N];
        byte_decode(&buf, &mut f, DV);
        proof {
            lemma_decoded_below(buf@, DV as int);
        }
        let v = decompress_poly::<DV>(&f);
        // ŝ = ByteDecode_12(dk)
        let sh = decode_ntt_vec(&self.key);
        // w = v' - NTT^-1(ŝ^T ∘ û)
        proof {
            assert forall|a: int| 0 <= a < uh@.len() implies #[trigger] reduced(uh@[a]@) && uh@[a]@.len() == 256 by {}
        }
        let p = dot(&sh, &uh);
        proof {
            lemma_reduced_inv_input(p@);
        }
        let pi = p.inv();
        proof {
            assert(ints(pi@).len() == 256);
        }
        let w = poly_sub(&v, &pi);
        // m = ByteEncode_1(Compress_1(w))
        proof {
            assert forall|k: int| 0 <= k < 256 implies (#[trigger] w@[k] as u16) < 3329 by {
                assert(0 <= w@[k] < 3329);
            }
        }
        let cw = w.compress::<1>();
        let fm: [u16; N] = (&cw).into();
        let mut m = [0u8; 32];
        byte_encode_1(fm, &mut m);
        proof {
            let uhs = Seq::new(RANK as nat, |j: int| to_i32s(ntt_spec(decrypt_u(c@, j))));
            assert(views(uh@) =~= uhs);
            assert(ints(v@) =~= decrypt_v(c@));
            assert(ints(w@) =~= decrypt_w(self@, c@));
            lemma_compressed_encoding(w@, cw@, 1);
        }
        m
    }
}

pub(crate) proof fn lemma_encode12_vec_len(v: Seq<Seq<int>>)
    ensures
        encode12_vec(v).len() == 384 * v.len(),
    decreases v.len(),
{
    if v.len() > 0 {
        lemma_encode12_vec_len(v.drop_last());
        lemma_encode_spec_len(v.last().map_values(|x: int| x as u16), 12);
    }
}

/// Block `i` of the concatenated encodings is the encoding of `v[i]`.
proof fn lemma_encode12_vec_block(v: Seq<Seq<int>>, i: int)
    requires
        0 <= i < v.len(),
    ensures
        encode12_vec(v).subrange(384 * i, 384 * i + 384) == encode12(v[i]),
    decreases v.len(),
{
    let p = v.drop_last();
    lemma_encode12_vec_len(p);
    lemma_encode_spec_len(v.last().map_values(|x: int| x as u16), 12);
    if i < v.len() - 1 {
        lemma_encode12_vec_block(p, i);
        assert(encode12_vec(v).subrange(384 * i, 384 * i + 384) =~= encode12_vec(p).subrange(384 * i, 384 * i + 384));
    } else {
        assert(encode12_vec(v).subrange(384 * i, 384 * i + 384) =~= encode12(v[i]));
    }
}

/// A key that starts with the encodings of k reduced polynomials passes the modulus
/// check, and its blocks decode to those polynomials.
pub proof fn lemma_encoded_blocks_reduced(v: Seq<Seq<int>>, key: Seq<u8>)
    requires
        v.len() == RANK,
        forall|i: int, k: int| 0 <= i < RANK && 0 <= k < 256 ==> 0 <= #[trigger] v[i][k] < 3329,
        forall|i: int| 0 <= i < RANK ==> #[trigger] v[i].len() == 256,
        key.len() >= 384 * RANK,
        key.subrange(0, 384 * RANK) == encode12_vec(v),
    ensures
        blocks_reduced(key),
        forall|i: int, k: int| 0 <= i < RANK && 0 <= k < 256 ==> #[trigger] decode12_block(key, i)[k] as int == v[i][k],
{
    lemma2_to64();
    assert forall|i: int, k: int| 0 <= i < RANK && 0 <= k < 256 implies #[trigger] decode12_block(key, i)[k] as int
        == v[i][k] by {
        lemma_encode12_vec_block(v, i);
        assert(key.subrange(384 * i, 384 * i + 384) =~= key.subrange(0, 384 * RANK).subrange(384 * i, 384 * i + 384));
        let f = v[i].map_values(|x: int| x as u16);
        lemma_decode_encode(f, 12);
        assert(byte_decode_spec(byte_encode_spec(f, 12), 12)[k] as int == (f[k] as int) % pow2(12) as int);
        assert(f[k] as int == v[i][k]);
    }
}

} // verus!
