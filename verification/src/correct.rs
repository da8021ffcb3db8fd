//! What K-PKE.Decrypt recovers from a K-PKE.Encrypt ciphertext: the message plus the
//! decryption noise.
use vstd::prelude::*;
use vstd::arithmetic::div_mod::{lemma_add_mod_noop, lemma_sub_mod_noop, lemma_mod_twice, lemma_small_mod,
    lemma_fundamental_div_mod, lemma_fundamental_div_mod_converse, lemma_mod_multiples_vanish};
use vstd::arithmetic::power2::{pow2, lemma2_to64};
use crate::params::RANK;
use crate::ntt::{ints, ntt_spec, inv_ntt_spec, add_mod, sub_mod, ntt_mul_spec, reduced, canonical,
    lemma_reduced_base_case, lemma_roots_reduced, lemma_ntt_accepted_prefix,
    SAMPLE_NTT_MAX_READS, MOD_ROOTS, lemma_ntt_add, lemma_ntt_of_inv, lemma_inv_ntt_sub, lemma_ntt_zero,
    lemma_ntt_roundtrip};
use crate::field::decompress_value;
use crate::tq::{tmul, vsum, lemma_vsum_ext, lemma_vsum_add, lemma_vsum_canonical, lemma_tmul_add,
    lemma_tmul_comm, lemma_transpose, lemma_add_mod_assoc};
use crate::pke::{row_dot, to_i32s, matrix_entry, keygen_digest, keygen_rho, keygen_sigma, kpke_ek,
    kpke_dk, public_hat, secret_hat, error_hat, secret_hat_vec, matrix_row, matrix_col, encode12_vec,
    decode12_vec, decode12_block, kpke_encrypt, encrypt_u, encrypt_v, encrypt_e1, encrypt_e2, message_poly,
    decrypt_u, decrypt_v, decrypt_w, concat_blocks, compress_poly, lemma_encode12_vec_len,
    lemma_encoded_blocks_reduced, lemma_decoded_below};
use crate::codec::{byte_encode_spec, lemma_encode_spec_len};
use crate::convolution::{poly_mul, lemma_ntt_mul};
use crate::sampler::secret_eta1_spec;

verus! {

/// On reduced inputs the product used by the key pair and the ciphertext is the
/// product in T_q, summed modulo q.
proof fn lemma_row_dot_vsum(a: Seq<Seq<i32>>, s: Seq<Seq<i32>>, n: nat)
    requires
        n <= a.len(),
        n <= s.len(),
        forall|j: int| 0 <= j < n ==> #[trigger] reduced(a[j]) && a[j].len() == 256,
        forall|j: int| 0 <= j < n ==> #[trigger] reduced(s[j]) && s[j].len() == 256,
    ensures
        row_dot(a, s, n) == vsum(|j: int| tmul(ints(a[j]), ints(s[j])), n),
    decreases n,
{
    if n > 0 {
        let n1 = (n - 1) as nat;
        lemma_row_dot_vsum(a, s, n1);
        let x = row_dot(a, s, n1);
        let last = n - 1;
        assert(0 <= last < n);
        assert(reduced(a[last]));
        assert(a[last].len() == 256);
        assert(reduced(s[last]));
        assert(s[last].len() == 256);
        let (aa, ss) = (a[last], s[last]);
        assert(ntt_mul_spec(aa, ss) =~= tmul(ints(aa), ints(ss)));
        assert(add_mod(x, ntt_mul_spec(aa, ss)) =~= add_mod(x, tmul(ints(aa), ints(ss))));
    }
}

/// NTT outputs lie in `[0, q)`.
proof fn lemma_ntt_canonical(f: Seq<int>)
    ensures
        canonical(ntt_spec(f)),
{
}

/// Coefficients in `[0, q)` survive a round trip through 32-bit integers.
proof fn lemma_ints_to_i32s(x: Seq<int>)
    requires
        canonical(x),
    ensures
        ints(to_i32s(x)) == x,
        reduced(to_i32s(x)),
        to_i32s(x).len() == 256,
{
    assert(ints(to_i32s(x)) =~= x);
}

/// The entries of Â lie in `[0, q)`.
proof fn lemma_matrix_entry_reduced(rho: Seq<u8>, j: int, i: int)
    ensures
        reduced(matrix_entry(rho, j, i)),
        matrix_entry(rho, j, i).len() == 256,
{
    let input = rho + seq![i as u8, j as u8];
    let t = (2 * SAMPLE_NTT_MAX_READS) as nat;
    lemma_ntt_accepted_prefix(input, t, t);
}

/// Decompress_d lands in `[0, q)`.
proof fn lemma_decompress_below(d: nat, y: int)
    requires
        1 <= d <= 11,
        0 <= y < pow2(d),
    ensures
        0 <= decompress_value(d, y) < 3329,
{
    vstd::arithmetic::power2::lemma_pow2_pos(d);
    vstd::arithmetic::power2::lemma_pow2_unfold(d);
    vstd::arithmetic::power2::lemma_pow2_pos((d - 1) as nat);
    vstd::arithmetic::power2::lemma_pow2_strictly_increases(d, 12);
    lemma2_to64();
    let pp = pow2(d) as int;
    let h = pow2((d - 1) as nat) as int;
    let t = y * 3329 + h;
    assert(0 <= t < 3329 * pp) by (nonlinear_arith)
        requires t == y * 3329 + h, pp == 2 * h, 0 <= y < pp, 0 < h, pp < 4096;
    lemma_fundamental_div_mod(t, pp);
    assert(0 <= t / pp < 3329) by (nonlinear_arith)
        requires 0 <= t < 3329 * pp, t == pp * (t / pp) + t % pp, 0 <= t % pp < pp, pp > 0;
}

proof fn lemma_concat_blocks_len(v: Seq<Seq<u8>>, b: nat)
    requires
        forall|j: int| 0 <= j < v.len() ==> #[trigger] v[j].len() == b,
    ensures
        concat_blocks(v).len() == b * v.len(),
    decreases v.len(),
{
    if v.len() > 0 {
        lemma_concat_blocks_len(v.drop_last(), b);
        assert(v.last().len() == b);
        assert(b * (v.len() - 1) + b == b * v.len()) by (nonlinear_arith);
    }
}

/// ŷ[j] = NTT(y[j]), y[j] sampled from PRF_eta1(r, j).
pub open spec fn y_hat(r: Seq<u8>, j: int) -> Seq<int> {
    ntt_spec(secret_eta1_spec(r, 0, j))
}

/// The key pair and the ciphertext that K-PKE derives from `d`, `m` and `r`.
pub open spec fn kpke_ciphertext(d: Seq<u8>, m: Seq<u8>, r: Seq<u8>) -> Seq<u8> {
    kpke_encrypt(kpke_ek(d), m, r)
}

/// The rounding error of compressing u[i]: u'[i] - u[i].
pub open spec fn u_error(d: Seq<u8>, m: Seq<u8>, r: Seq<u8>, i: int) -> Seq<int> {
    sub_mod(decrypt_u(kpke_ciphertext(d, m, r), i), encrypt_u(keygen_rho(d), r, i))
}

/// The rounding error of compressing v: v' - v.
pub open spec fn v_error(d: Seq<u8>, m: Seq<u8>, r: Seq<u8>) -> Seq<int> {
    sub_mod(decrypt_v(kpke_ciphertext(d, m, r)), encrypt_v(kpke_ek(d), m, r))
}

/// Â[j][i] as integers.
pub open spec fn a_hat(rho: Seq<u8>, j: int, i: int) -> Seq<int> {
    ints(matrix_entry(rho, j, i))
}

/// (Â ∘ ŝ)[j].
pub open spec fn as_hat(rho: Seq<u8>, sigma: Seq<u8>, j: int) -> Seq<int> {
    vsum(|i: int| tmul(a_hat(rho, j, i), secret_hat(sigma, i)), RANK as nat)
}

/// (Â^T ∘ ŷ)[i].
pub open spec fn ay_hat(rho: Seq<u8>, r: Seq<u8>, i: int) -> Seq<int> {
    vsum(|j: int| tmul(a_hat(rho, j, i), y_hat(r, j)), RANK as nat)
}

/// ŝ^T ∘ (Â^T ∘ ŷ).
pub open spec fn sAy(d: Seq<u8>, r: Seq<u8>) -> Seq<int> {
    vsum(|i: int| tmul(secret_hat(keygen_sigma(d), i), ay_hat(keygen_rho(d), r, i)), RANK as nat)
}

/// ê^T ∘ ŷ.
pub open spec fn ey_sum(d: Seq<u8>, r: Seq<u8>) -> Seq<int> {
    vsum(|j: int| tmul(error_hat(keygen_sigma(d), j), y_hat(r, j)), RANK as nat)
}

/// NTT(e1[i] + (u'[i] - u[i])).
pub open spec fn z_hat(d: Seq<u8>, m: Seq<u8>, r: Seq<u8>, i: int) -> Seq<int> {
    ntt_spec(add_mod(encrypt_e1(r, i), u_error(d, m, r, i)))
}

/// ŝ^T ∘ NTT(e1 + (u' - u)).
pub open spec fn sz_sum(d: Seq<u8>, m: Seq<u8>, r: Seq<u8>) -> Seq<int> {
    vsum(|i: int| tmul(secret_hat(keygen_sigma(d), i), z_hat(d, m, r, i)), RANK as nat)
}

/// The noise of decryption in the NTT domain: ê^T ∘ ŷ - ŝ^T ∘ NTT(e1 + (u' - u)).
pub open spec fn noise_hat(d: Seq<u8>, m: Seq<u8>, r: Seq<u8>) -> Seq<int> {
    sub_mod(ey_sum(d, r), sz_sum(d, m, r))
}

/// The noise of decryption: NTT^-1(ê^T ∘ ŷ - ŝ^T ∘ NTT(e1 + (u' - u))) + e2 + (v' - v),
/// where u' - u and v' - v are the rounding errors of compression.
pub open spec fn kpke_noise(d: Seq<u8>, m: Seq<u8>, r: Seq<u8>) -> Seq<int> {
    add_mod(add_mod(inv_ntt_spec(noise_hat(d, m, r)), encrypt_e2(r)), v_error(d, m, r))
}

/// The keys decode to t̂ and ŝ, and the encryption key ends with rho.
proof fn lemma_keys_decode(d: Seq<u8>)
    requires
        keygen_digest(d).len() == 64,
    ensures
        kpke_ek(d).len() == 384 * RANK + 32,
        kpke_ek(d).subrange(384 * RANK, 384 * RANK + 32) == keygen_rho(d),
        decode12_vec(kpke_ek(d)) == Seq::new(RANK as nat,
            |j: int| to_i32s(public_hat(keygen_rho(d), keygen_sigma(d), j))),
        decode12_vec(kpke_dk(d)) == Seq::new(RANK as nat, |j: int| to_i32s(secret_hat(keygen_sigma(d), j))),
{
    let rho = keygen_rho(d);
    let sigma = keygen_sigma(d);
    let ek = kpke_ek(d);
    let dk = kpke_dk(d);
    let tv = Seq::new(RANK as nat, |i: int| public_hat(rho, sigma, i));
    let sv = Seq::new(RANK as nat, |i: int| secret_hat(sigma, i));
    lemma_encode12_vec_len(tv);
    lemma_encode12_vec_len(sv);
    assert(ek.subrange(0, 384 * RANK) =~= encode12_vec(tv));
    assert(ek.subrange(384 * RANK, 384 * RANK + 32) =~= rho);
    assert(dk.subrange(0, 384 * RANK) =~= encode12_vec(sv));
    assert forall|i: int, k: int| 0 <= i < RANK && 0 <= k < 256 implies 0 <= #[trigger] tv[i][k] < 3329 by {}
    assert forall|i: int| 0 <= i < RANK implies #[trigger] tv[i].len() == 256 by {}
    assert forall|i: int, k: int| 0 <= i < RANK && 0 <= k < 256 implies 0 <= #[trigger] sv[i][k] < 3329 by {
        lemma_ntt_canonical(secret_eta1_spec(sigma, 0, i));
    }
    assert forall|i: int| 0 <= i < RANK implies #[trigger] sv[i].len() == 256 by {}
    lemma_encoded_blocks_reduced(tv, ek);
    lemma_encoded_blocks_reduced(sv, dk);
    assert forall|j: int| 0 <= j < RANK implies #[trigger] decode12_vec(ek)[j] == to_i32s(tv[j]) by {
        crate::codec::lemma_decode_spec_len(ek.subrange(384 * j, 384 * j + 384), 12);
        assert forall|k: int| 0 <= k < 256 implies #[trigger] decode12_vec(ek)[j][k] == to_i32s(tv[j])[k] by {
            assert(decode12_block(ek, j)[k] as int == tv[j][k]);
        }
        assert(decode12_vec(ek)[j] =~= to_i32s(tv[j]));
    }
    assert(decode12_vec(ek) =~= Seq::new(RANK as nat, |j: int| to_i32s(public_hat(rho, sigma, j))));
    assert forall|j: int| 0 <= j < RANK implies #[trigger] decode12_vec(dk)[j] == to_i32s(sv[j]) by {
        crate::codec::lemma_decode_spec_len(dk.subrange(384 * j, 384 * j + 384), 12);
        assert forall|k: int| 0 <= k < 256 implies #[trigger] decode12_vec(dk)[j][k] == to_i32s(sv[j])[k] by {
            assert(decode12_block(dk, j)[k] as int == sv[j][k]);
        }
        assert(decode12_vec(dk)[j] =~= to_i32s(sv[j]));
    }
    assert(decode12_vec(dk) =~= Seq::new(RANK as nat, |j: int| to_i32s(secret_hat(sigma, j))));
}

/// The ciphertext has 32 (du k + dv) bytes, and u' and v' have coefficients in `[0, q)`.
proof fn lemma_ciphertext_shape(ek: Seq<u8>, m: Seq<u8>, r: Seq<u8>)
    requires
        ek.len() == 384 * RANK + 32,
    ensures
        kpke_encrypt(ek, m, r).len() == 1088,
        forall|i: int| 0 <= i < RANK ==> #[trigger] canonical(decrypt_u(kpke_encrypt(ek, m, r), i)),
        canonical(decrypt_v(kpke_encrypt(ek, m, r))),
{
    let rho = ek.subrange(384 * RANK, 384 * RANK + 32);
    let blocks = Seq::new(RANK as nat,
        |i: int| byte_encode_spec(compress_poly(encrypt_u(rho, r, i), 10), 10));
    assert forall|j: int| 0 <= j < blocks.len() implies #[trigger] blocks[j].len() == 320 by {
        lemma_encode_spec_len(compress_poly(encrypt_u(rho, r, j), 10), 10);
    }
    lemma_concat_blocks_len(blocks, 320);
    lemma_encode_spec_len(compress_poly(encrypt_v(ek, m, r), 4), 4);
    let c = kpke_encrypt(ek, m, r);
    lemma2_to64();
    assert forall|i: int| 0 <= i < RANK implies #[trigger] canonical(decrypt_u(c, i)) by {
        let b = c.subrange(320 * i, 320 * (i + 1));
        lemma_decoded_below(b, 10);
        crate::codec::lemma_decode_spec_len(b, 10);
        assert forall|k: int| 0 <= k < 256 implies 0 <= #[trigger] decrypt_u(c, i)[k] < 3329 by {
            lemma_decompress_below(10, crate::codec::byte_decode_spec(b, 10)[k] as int);
        }
    }
    let bv = c.subrange(960, 1088);
    lemma_decoded_below(bv, 4);
    crate::codec::lemma_decode_spec_len(bv, 4);
    assert forall|k: int| 0 <= k < 256 implies 0 <= #[trigger] decrypt_v(c)[k] < 3329 by {
        lemma_decompress_below(4, crate::codec::byte_decode_spec(bv, 4)[k] as int);
    }
}

/// NTT(u'[i]) = (Â^T ∘ ŷ)[i] + NTT(e1[i] + (u'[i] - u[i])).
proof fn lemma_ntt_u_prime(d: Seq<u8>, m: Seq<u8>, r: Seq<u8>, i: int)
    requires
        canonical(decrypt_u(kpke_ciphertext(d, m, r), i)),
    ensures
        ntt_spec(decrypt_u(kpke_ciphertext(d, m, r), i))
            == add_mod(row_dot(matrix_col(keygen_rho(d), i), secret_hat_vec(r), RANK as nat),
                ntt_spec(add_mod(encrypt_e1(r, i), u_error(d, m, r, i)))),
{
    let rho = keygen_rho(d);
    let c = kpke_ciphertext(d, m, r);
    let ui = row_dot(matrix_col(rho, i), secret_hat_vec(r), RANK as nat);
    let u = encrypt_u(rho, r, i);
    let up = decrypt_u(c, i);
    let e1 = encrypt_e1(r, i);
    let du = u_error(d, m, r, i);
    assert(up =~= add_mod(u, du)) by {
        assert forall|k: int| 0 <= k < 256 implies #[trigger] up[k] == add_mod(u, du)[k] by {
            lemma_add_mod_noop(u[k], up[k] - u[k], 3329);
            lemma_mod_twice(u[k], 3329);
            lemma_add_mod_noop(u[k], (up[k] - u[k]) % 3329, 3329);
            lemma_small_mod(up[k] as nat, 3329);
        }
    }
    assert(canonical(ui));
    lemma_ntt_add(u, du);
    lemma_ntt_add(inv_ntt_spec(ui), e1);
    lemma_ntt_of_inv(ui);
    lemma_add_mod_assoc(ui, ntt_spec(e1), ntt_spec(du));
    lemma_ntt_add(e1, du);
}

/// The sum of the difference of two sums with a common first term.
proof fn lemma_sub_common(p: Seq<int>, a: Seq<int>, b: Seq<int>)
    ensures
        sub_mod(add_mod(p, a), add_mod(p, b)) == sub_mod(a, b),
{
    assert forall|k: int| 0 <= k < 256 implies #[trigger] sub_mod(add_mod(p, a), add_mod(p, b))[k]
        == sub_mod(a, b)[k] by {
        lemma_sub_mod_noop(p[k] + a[k], p[k] + b[k], 3329);
        lemma_mod_twice(p[k] + a[k], 3329);
        lemma_mod_twice(p[k] + b[k], 3329);
        lemma_sub_mod_noop((p[k] + a[k]) % 3329, (p[k] + b[k]) % 3329, 3329);
        assert((p[k] + a[k]) - (p[k] + b[k]) == a[k] - b[k]);
    }
    assert(sub_mod(add_mod(p, a), add_mod(p, b)) =~= sub_mod(a, b));
}

/// `(v' - x) = mu + ((y - x) + e2 + (v' - v))` modulo q, where `v = y + e2 + mu`.
proof fn lemma_final_elem(mu: int, y: int, x: int, e2: int, vp: int)
    requires
        0 <= vp < 3329,
    ensures
        (mu + ((((y - x) % 3329 + e2) % 3329 + (vp - (((y + e2) % 3329 + mu) % 3329)) % 3329) % 3329)) % 3329
            == (vp - x) % 3329,
{
    let q = 3329int;
    let a = (y - x) % q;
    let b = (a + e2) % q;
    let v = ((y + e2) % q + mu) % q;
    let c = (vp - v) % q;
    let t = (b + c) % q;
    lemma_fundamental_div_mod(y - x, q);
    lemma_fundamental_div_mod(a + e2, q);
    lemma_fundamental_div_mod(y + e2, q);
    lemma_fundamental_div_mod((y + e2) % q + mu, q);
    lemma_fundamental_div_mod(vp - v, q);
    lemma_fundamental_div_mod(b + c, q);
    let k = -((y - x) / q) - ((a + e2) / q) + ((y + e2) / q) + (((y + e2) % q + mu) / q) - ((vp - v) / q)
        - ((b + c) / q);
    assert(mu + t == (vp - x) + q * k) by (nonlinear_arith)
        requires
            y - x == q * ((y - x) / q) + a,
            a + e2 == q * ((a + e2) / q) + b,
            y + e2 == q * ((y + e2) / q) + (y + e2) % q,
            (y + e2) % q + mu == q * (((y + e2) % q + mu) / q) + v,
            vp - v == q * ((vp - v) / q) + c,
            b + c == q * ((b + c) / q) + t,
            k == -((y - x) / q) - ((a + e2) / q) + ((y + e2) / q) + (((y + e2) % q + mu) / q) - ((vp - v) / q)
                - ((b + c) / q);
    lemma_mod_multiples_vanish(k, vp - x, q);
}

/// The vectors ŝ and ŷ as 32-bit representations.
proof fn lemma_hat_vectors(sigma: Seq<u8>, r: Seq<u8>)
    ensures
        forall|i: int| 0 <= i < RANK ==> #[trigger] ints(secret_hat_vec(sigma)[i]) == secret_hat(sigma, i)
            && reduced(secret_hat_vec(sigma)[i]) && secret_hat_vec(sigma)[i].len() == 256,
        forall|i: int| 0 <= i < RANK ==> #[trigger] ints(secret_hat_vec(r)[i]) == y_hat(r, i)
            && reduced(secret_hat_vec(r)[i]) && secret_hat_vec(r)[i].len() == 256,
{
    assert forall|i: int| 0 <= i < RANK implies #[trigger] ints(secret_hat_vec(sigma)[i]) == secret_hat(sigma, i)
        && reduced(secret_hat_vec(sigma)[i]) && secret_hat_vec(sigma)[i].len() == 256 by {
        lemma_ntt_canonical(secret_eta1_spec(sigma, 0, i));
        lemma_ints_to_i32s(secret_hat(sigma, i));
    }
    assert forall|i: int| 0 <= i < RANK implies #[trigger] ints(secret_hat_vec(r)[i]) == y_hat(r, i)
        && reduced(secret_hat_vec(r)[i]) && secret_hat_vec(r)[i].len() == 256 by {
        lemma_ntt_canonical(secret_eta1_spec(r, 0, i));
        lemma_ints_to_i32s(y_hat(r, i));
    }
}

/// t̂[j] = (Â ∘ ŝ)[j] + ê[j].
proof fn lemma_public_hat_split(rho: Seq<u8>, sigma: Seq<u8>, j: int)
    requires
        0 <= j < RANK,
    ensures
        public_hat(rho, sigma, j) == add_mod(as_hat(rho, sigma, j), error_hat(sigma, j)),
{
    let n = RANK as nat;
    let row = matrix_row(rho, j);
    let shv = secret_hat_vec(sigma);
    lemma_hat_vectors(sigma, sigma);
    assert forall|i: int| 0 <= i < n implies #[trigger] reduced(row[i]) && row[i].len() == 256 by {
        lemma_matrix_entry_reduced(rho, j, i);
    }
    assert forall|i: int| 0 <= i < n implies #[trigger] reduced(shv[i]) && shv[i].len() == 256 by {}
    lemma_row_dot_vsum(row, shv, n);
    lemma_vsum_ext(|i: int| tmul(ints(row[i]), ints(shv[i])), |i: int| tmul(a_hat(rho, j, i), secret_hat(sigma, i)), n);
}

/// (Â^T ∘ ŷ)[i] as the encryption computes it.
proof fn lemma_col_dot(rho: Seq<u8>, r: Seq<u8>, i: int)
    requires
        0 <= i < RANK,
    ensures
        row_dot(matrix_col(rho, i), secret_hat_vec(r), RANK as nat) == ay_hat(rho, r, i),
{
    let n = RANK as nat;
    let col = matrix_col(rho, i);
    let yv = secret_hat_vec(r);
    lemma_hat_vectors(r, r);
    assert forall|j: int| 0 <= j < n implies #[trigger] reduced(col[j]) && col[j].len() == 256 by {
        lemma_matrix_entry_reduced(rho, j, i);
    }
    assert forall|j: int| 0 <= j < n implies #[trigger] reduced(yv[j]) && yv[j].len() == 256 by {}
    lemma_row_dot_vsum(col, yv, n);
    lemma_vsum_ext(|j: int| tmul(ints(col[j]), ints(yv[j])), |j: int| tmul(a_hat(rho, j, i), y_hat(r, j)), n);
}

/// (Â ∘ ŝ)^T ∘ ŷ = ŝ^T ∘ (Â^T ∘ ŷ).
proof fn lemma_as_y(rho: Seq<u8>, sigma: Seq<u8>, r: Seq<u8>)
    ensures
        vsum(|j: int| tmul(as_hat(rho, sigma, j), y_hat(r, j)), RANK as nat)
            == vsum(|i: int| tmul(secret_hat(sigma, i), ay_hat(rho, r, i)), RANK as nat),
{
    let n = RANK as nat;
    let a = |j: int, i: int| a_hat(rho, j, i);
    let sh = |i: int| secret_hat(sigma, i);
    let yh = |j: int| y_hat(r, j);
    let p = |j: int| tmul(as_hat(rho, sigma, j), y_hat(r, j));
    let lt = |j: int| tmul(vsum(|i: int| tmul(a(j, i), sh(i)), n), yh(j));
    let rt = |i: int| tmul(sh(i), vsum(|j: int| tmul(a(j, i), yh(j)), n));
    let q = |i: int| tmul(secret_hat(sigma, i), ay_hat(rho, r, i));
    lemma_transpose(a, sh, yh, n);
    assert forall|j: int| 0 <= j < n implies #[trigger] p(j) == lt(j) by {
        lemma_vsum_ext(|i: int| tmul(a_hat(rho, j, i), secret_hat(sigma, i)), |i: int| tmul(a(j, i), sh(i)), n);
    }
    lemma_vsum_ext(p, lt, n);
    assert forall|i: int| 0 <= i < n implies #[trigger] rt(i) == q(i) by {
        lemma_vsum_ext(|j: int| tmul(a(j, i), yh(j)), |j: int| tmul(a_hat(rho, j, i), y_hat(r, j)), n);
    }
    lemma_vsum_ext(rt, q, n);
}

/// t̂^T ∘ ŷ = ŝ^T ∘ (Â^T ∘ ŷ) + ê^T ∘ ŷ.
proof fn lemma_big_y(d: Seq<u8>, r: Seq<u8>)
    requires
        keygen_digest(d).len() == 64,
    ensures
        row_dot(decode12_vec(kpke_ek(d)), secret_hat_vec(r), RANK as nat) == add_mod(sAy(d, r), ey_sum(d, r)),
{
    let n = RANK as nat;
    let rho = keygen_rho(d);
    let sigma = keygen_sigma(d);
    lemma_keys_decode(d);
    lemma_hat_vectors(sigma, r);
    let tv = decode12_vec(kpke_ek(d));
    let yv = secret_hat_vec(r);
    assert forall|j: int| 0 <= j < n implies #[trigger] reduced(tv[j]) && tv[j].len() == 256 by {
        lemma_ints_to_i32s(public_hat(rho, sigma, j));
    }
    assert forall|j: int| 0 <= j < n implies #[trigger] reduced(yv[j]) && yv[j].len() == 256 by {}
    lemma_row_dot_vsum(tv, yv, n);
    let t0 = |j: int| tmul(ints(tv[j]), ints(yv[j]));
    let p = |j: int| tmul(as_hat(rho, sigma, j), y_hat(r, j));
    let q = |j: int| tmul(error_hat(sigma, j), y_hat(r, j));
    let t1 = |j: int| add_mod(p(j), q(j));
    assert forall|j: int| 0 <= j < n implies #[trigger] t0(j) == t1(j) by {
        lemma_ints_to_i32s(public_hat(rho, sigma, j));
        lemma_public_hat_split(rho, sigma, j);
        lemma_tmul_add(as_hat(rho, sigma, j), error_hat(sigma, j), y_hat(r, j));
    }
    lemma_vsum_ext(t0, t1, n);
    lemma_vsum_add(p, q, n);
    lemma_as_y(rho, sigma, r);
}

/// One term of ŝ^T ∘ NTT(u').
proof fn lemma_x_term(d: Seq<u8>, m: Seq<u8>, r: Seq<u8>, i: int)
    requires
        keygen_digest(d).len() == 64,
        0 <= i < RANK,
    ensures
        tmul(ints(decode12_vec(kpke_dk(d))[i]), ints(to_i32s(ntt_spec(decrypt_u(kpke_ciphertext(d, m, r), i)))))
            == add_mod(tmul(secret_hat(keygen_sigma(d), i), ay_hat(keygen_rho(d), r, i)),
                tmul(secret_hat(keygen_sigma(d), i), z_hat(d, m, r, i))),
{
    let rho = keygen_rho(d);
    let sigma = keygen_sigma(d);
    let c = kpke_ciphertext(d, m, r);
    lemma_keys_decode(d);
    lemma_ciphertext_shape(kpke_ek(d), m, r);
    let sh = secret_hat(sigma, i);
    lemma_ntt_canonical(secret_eta1_spec(sigma, 0, i));
    lemma_ints_to_i32s(sh);
    assert(canonical(decrypt_u(c, i)));
    lemma_ntt_canonical(decrypt_u(c, i));
    lemma_ints_to_i32s(ntt_spec(decrypt_u(c, i)));
    lemma_ntt_u_prime(d, m, r, i);
    lemma_col_dot(rho, r, i);
    let ay = ay_hat(rho, r, i);
    let z = z_hat(d, m, r, i);
    lemma_tmul_comm(sh, add_mod(ay, z));
    lemma_tmul_add(ay, z, sh);
    lemma_tmul_comm(ay, sh);
    lemma_tmul_comm(z, sh);
}

/// ŝ^T ∘ NTT(u') = ŝ^T ∘ (Â^T ∘ ŷ) + ŝ^T ∘ NTT(e1 + (u' - u)).
proof fn lemma_big_x(d: Seq<u8>, m: Seq<u8>, r: Seq<u8>)
    requires
        keygen_digest(d).len() == 64,
    ensures
        row_dot(decode12_vec(kpke_dk(d)),
            Seq::new(RANK as nat, |j: int| to_i32s(ntt_spec(decrypt_u(kpke_ciphertext(d, m, r), j)))), RANK as nat)
            == add_mod(sAy(d, r), sz_sum(d, m, r)),
{
    let n = RANK as nat;
    let rho = keygen_rho(d);
    let sigma = keygen_sigma(d);
    let c = kpke_ciphertext(d, m, r);
    lemma_keys_decode(d);
    lemma_ciphertext_shape(kpke_ek(d), m, r);
    let sv = decode12_vec(kpke_dk(d));
    let uh = Seq::new(n, |j: int| to_i32s(ntt_spec(decrypt_u(c, j))));
    assert forall|j: int| 0 <= j < n implies #[trigger] reduced(sv[j]) && sv[j].len() == 256 by {
        lemma_ntt_canonical(secret_eta1_spec(sigma, 0, j));
        lemma_ints_to_i32s(secret_hat(sigma, j));
    }
    assert forall|j: int| 0 <= j < n implies #[trigger] reduced(uh[j]) && uh[j].len() == 256 by {
        lemma_ntt_canonical(decrypt_u(c, j));
        lemma_ints_to_i32s(ntt_spec(decrypt_u(c, j)));
    }
    lemma_row_dot_vsum(sv, uh, n);
    let t0 = |i: int| tmul(ints(sv[i]), ints(uh[i]));
    let p = |i: int| tmul(secret_hat(sigma, i), ay_hat(rho, r, i));
    let q = |i: int| tmul(secret_hat(sigma, i), z_hat(d, m, r, i));
    let t1 = |i: int| add_mod(p(i), q(i));
    assert forall|i: int| 0 <= i < n implies #[trigger] t0(i) == t1(i) by {
        lemma_x_term(d, m, r, i);
    }
    lemma_vsum_ext(t0, t1, n);
    lemma_vsum_add(p, q, n);
}

/// What K-PKE.Decrypt computes from a K-PKE.Encrypt ciphertext under keys from
/// K-PKE.KeyGen: `w = mu + noise` in R_q, where mu = Decompress_1(ByteDecode_1(m)) and the
/// noise is `e^T y - s^T (e1 + (u' - u)) + e2 + (v' - v)` (`kpke_noise_rq`).
pub proof fn lemma_decrypt_of_encrypt(d: Seq<u8>, m: Seq<u8>, r: Seq<u8>)
    requires
        keygen_digest(d).len() == 64,
    ensures
        decrypt_w(kpke_dk(d), kpke_ciphertext(d, m, r)) == add_mod(message_poly(m), kpke_noise_rq(d, m, r)),
{
    lemma_noise_in_rq(d, m, r);
    let c = kpke_ciphertext(d, m, r);
    let big_y = row_dot(decode12_vec(kpke_ek(d)), secret_hat_vec(r), RANK as nat);
    let big_x = row_dot(decode12_vec(kpke_dk(d)),
        Seq::new(RANK as nat, |j: int| to_i32s(ntt_spec(decrypt_u(c, j)))), RANK as nat);
    lemma_big_y(d, r);
    lemma_big_x(d, m, r);
    lemma_sub_common(sAy(d, r), ey_sum(d, r), sz_sum(d, m, r));
    lemma_inv_ntt_sub(big_y, big_x);
    lemma_keys_decode(d);
    lemma_ciphertext_shape(kpke_ek(d), m, r);
    let iy = inv_ntt_spec(big_y);
    let ix = inv_ntt_spec(big_x);
    let e2 = encrypt_e2(r);
    let mu = message_poly(m);
    let vp = decrypt_v(c);
    let w = decrypt_w(kpke_dk(d), c);
    assert forall|k: int| 0 <= k < 256 implies #[trigger] w[k] == add_mod(mu, kpke_noise(d, m, r))[k] by {
        lemma_final_elem(mu[k], iy[k], ix[k], e2[k], vp[k]);
    }
    assert(w =~= add_mod(mu, kpke_noise(d, m, r)));
}

/// Whether Compress_1 recovers message bit `b` from `1665 b + n` (n in `[0, q)`): for
/// b = 0 the noise must lie in `[0, 832]` or `[2497, q)`, for b = 1 in `[0, 831]` or `[2497, q)`.
pub open spec fn bit_survives(b: int, n: int) -> bool {
    if b == 0 { n <= 832 || n >= 2497 } else { n <= 831 || n >= 2497 }
}

/// Compress_1 recovers a message bit `b` from `1665 b + n` exactly when `bit_survives(b, n)`.
proof fn lemma_compress_bit(b: int, n: int)
    requires
        b == 0 || b == 1,
        0 <= n < 3329,
    ensures
        (crate::field::compress_value(1, (1665 * b + n) % 3329) == b) <==> bit_survives(b, n),
{
    lemma2_to64();
    let x = (1665 * b + n) % 3329;
    if b == 0 {
        lemma_small_mod(n as nat, 3329);
    } else if n < 1664 {
        lemma_small_mod((1665 + n) as nat, 3329);
    } else {
        lemma_mod_multiples_vanish(1, n - 1664, 3329);
        lemma_small_mod((n - 1664) as nat, 3329);
    }
    assert(0 <= x < 3329);
    let y = x * 2 + 1664;
    assert(crate::field::compress_value(1, x) == (y / 3329) % 2);
    if y < 3329 {
        lemma_fundamental_div_mod_converse(y, 3329, 0, y);
    } else if y < 6658 {
        lemma_fundamental_div_mod_converse(y, 3329, 1, y - 3329);
    } else {
        lemma_fundamental_div_mod_converse(y, 3329, 2, y - 6658);
    }
}

/// K-PKE decrypts what it encrypted exactly when the noise lets every bit through: for keys
/// from K-PKE.KeyGen(d), randomness `r` and a 32-byte message `m`, K-PKE.Decrypt gives `m`
/// back if and only if every coefficient of the decryption noise
/// `e^T y - s^T (e1 + (u' - u)) + e2 + (v' - v)` lets the message bit there through.
pub proof fn lemma_kpke_correct(d: Seq<u8>, m: Seq<u8>, r: Seq<u8>)
    requires
        keygen_digest(d).len() == 64,
        m.len() == 32,
    ensures
        crate::pke::kpke_decrypt(kpke_dk(d), kpke_ciphertext(d, m, r)) == m
            <==> forall|k: int| 0 <= k < 256 ==> #[trigger] bit_survives(
                crate::codec::byte_decode_spec(m, 1)[k] as int, kpke_noise_rq(d, m, r)[k]),
{
    lemma_decrypt_of_encrypt(d, m, r);
    let w = decrypt_w(kpke_dk(d), kpke_ciphertext(d, m, r));
    let bits = crate::codec::byte_decode_spec(m, 1);
    let noise = kpke_noise_rq(d, m, r);
    lemma_decoded_below(m, 1);
    crate::codec::lemma_decode_spec_len(m, 1);
    lemma2_to64();
    let cw = compress_poly(w, 1);
    assert forall|k: int| 0 <= k < 256 implies (#[trigger] cw[k] == bits[k]) <==> bit_survives(bits[k] as int, noise[k])
        && cw[k] < 2 by {
        assert(bits[k] < 2);
        assert(0 <= noise[k] < 3329);
        assert(w[k] == (1665 * bits[k] + noise[k]) % 3329);
        lemma_compress_bit(bits[k] as int, noise[k]);
        let x = (1665 * bits[k] + noise[k]) % 3329;
        assert(0 <= crate::field::compress_value(1, x) < 2);
    }
    let dec = crate::pke::kpke_decrypt(kpke_dk(d), kpke_ciphertext(d, m, r));
    if forall|k: int| 0 <= k < 256 ==> #[trigger] bit_survives(bits[k] as int, noise[k]) {
        assert forall|k: int| 0 <= k < 256 implies #[trigger] cw[k] == bits[k] by {
            assert(bit_survives(bits[k] as int, noise[k]));
        }
        assert(cw =~= bits);
        crate::codec::lemma_encode_decode(m, 1);
    } else {
        let k0 = choose|k: int| 0 <= k < 256 && !#[trigger] bit_survives(bits[k] as int, noise[k]);
        assert(cw[k0] != bits[k0]);
        crate::codec::lemma_decode_encode(cw, 1);
        assert(crate::codec::byte_decode_spec(byte_encode_spec(cw, 1), 1)[k0] as int == (cw[k0] as int) % 2);
        if dec == m {
            assert(byte_encode_spec(cw, 1) == m);
            assert(bits[k0] as int == (cw[k0] as int) % 2);
            assert(cw[k0] < 2);
            lemma_small_mod(cw[k0] as nat, 2);
        }
    }
}

/// The NTT of a sum is the sum of the NTTs.
proof fn lemma_ntt_vsum(p: spec_fn(int) -> Seq<int>, n: nat)
    requires
        forall|j: int| 0 <= j < n ==> #[trigger] p(j).len() == 256,
    ensures
        ntt_spec(vsum(p, n)) == vsum(|j: int| ntt_spec(p(j)), n),
    decreases n,
{
    if n == 0 {
        lemma_ntt_zero();
    } else {
        let n1 = (n - 1) as nat;
        lemma_ntt_vsum(p, n1);
        lemma_vsum_canonical(p, n1);
        assert(p(n - 1).len() == 256);
        lemma_ntt_add(vsum(p, n1), p(n - 1));
    }
}

/// e^T y in R_q.
pub open spec fn ey_rq(d: Seq<u8>, r: Seq<u8>) -> Seq<int> {
    vsum(|j: int| poly_mul(secret_eta1_spec(keygen_sigma(d), RANK as u8, j), secret_eta1_spec(r, 0, j)), RANK as nat)
}

/// s^T (e1 + (u' - u)) in R_q.
pub open spec fn sz_rq(d: Seq<u8>, m: Seq<u8>, r: Seq<u8>) -> Seq<int> {
    vsum(|i: int| poly_mul(secret_eta1_spec(keygen_sigma(d), 0, i), add_mod(encrypt_e1(r, i), u_error(d, m, r, i))),
        RANK as nat)
}

/// ê^T ∘ ŷ = NTT(e^T y).
proof fn lemma_ey_ntt(d: Seq<u8>, r: Seq<u8>)
    ensures
        ey_sum(d, r) == ntt_spec(ey_rq(d, r)),
        canonical(ey_rq(d, r)),
{
    let sigma = keygen_sigma(d);
    let n = RANK as nat;
    let pe = |j: int| poly_mul(secret_eta1_spec(sigma, RANK as u8, j), secret_eta1_spec(r, 0, j));
    assert forall|j: int| 0 <= j < n implies #[trigger] tmul(error_hat(sigma, j), y_hat(r, j))
        == ntt_spec(pe(j)) by {
        lemma_ntt_mul(secret_eta1_spec(sigma, RANK as u8, j), secret_eta1_spec(r, 0, j));
    }
    lemma_vsum_ext(|j: int| tmul(error_hat(sigma, j), y_hat(r, j)), |j: int| ntt_spec(pe(j)), n);
    assert forall|j: int| 0 <= j < n implies #[trigger] pe(j).len() == 256 by {}
    lemma_ntt_vsum(pe, n);
    lemma_vsum_canonical(pe, n);
}

/// ŝ^T ∘ NTT(e1 + (u' - u)) = NTT(s^T (e1 + (u' - u))).
proof fn lemma_sz_ntt(d: Seq<u8>, m: Seq<u8>, r: Seq<u8>)
    ensures
        sz_sum(d, m, r) == ntt_spec(sz_rq(d, m, r)),
        canonical(sz_rq(d, m, r)),
{
    let sigma = keygen_sigma(d);
    let n = RANK as nat;
    let ps = |i: int| poly_mul(secret_eta1_spec(sigma, 0, i), add_mod(encrypt_e1(r, i), u_error(d, m, r, i)));
    assert forall|i: int| 0 <= i < n implies #[trigger] tmul(secret_hat(sigma, i), z_hat(d, m, r, i))
        == ntt_spec(ps(i)) by {
        lemma_ntt_mul(secret_eta1_spec(sigma, 0, i), add_mod(encrypt_e1(r, i), u_error(d, m, r, i)));
    }
    lemma_vsum_ext(|i: int| tmul(secret_hat(sigma, i), z_hat(d, m, r, i)), |i: int| ntt_spec(ps(i)), n);
    assert forall|i: int| 0 <= i < n implies #[trigger] ps(i).len() == 256 by {}
    lemma_ntt_vsum(ps, n);
    lemma_vsum_canonical(ps, n);
}

/// The noise in R_q: `e^T y - s^T (e1 + (u' - u)) + e2 + (v' - v)`, with the products of
/// R_q = Z_q[X] / (X^256 + 1).
pub open spec fn kpke_noise_rq(d: Seq<u8>, m: Seq<u8>, r: Seq<u8>) -> Seq<int> {
    add_mod(add_mod(sub_mod(ey_rq(d, r), sz_rq(d, m, r)), encrypt_e2(r)), v_error(d, m, r))
}

/// The noise that decryption computes through the NTT is the noise in R_q.
pub proof fn lemma_noise_in_rq(d: Seq<u8>, m: Seq<u8>, r: Seq<u8>)
    ensures
        kpke_noise(d, m, r) == kpke_noise_rq(d, m, r),
{
    let ey = ey_rq(d, r);
    let sz = sz_rq(d, m, r);
    lemma_ey_ntt(d, r);
    lemma_sz_ntt(d, m, r);
    lemma_ntt_canonical(ey);
    lemma_ntt_canonical(sz);
    lemma_inv_ntt_sub(ntt_spec(ey), ntt_spec(sz));
    lemma_ntt_roundtrip(ey);
    lemma_ntt_roundtrip(sz);
    assert(inv_ntt_spec(ntt_spec(ey)) =~= ey);
    assert(inv_ntt_spec(ntt_spec(sz)) =~= sz);
}

} // verus!
