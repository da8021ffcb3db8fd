//! What the NTT computes: the residues of a polynomial modulo `X^2 - zeta^(2 BitRev7(i) + 1)`
//! (FIPS 203, 4.3), and hence that it turns the product of R_q into the product of T_q.
use vstd::prelude::*;
use vstd::arithmetic::power::{pow, lemma_pow_adds, lemma_pow0};
use vstd::arithmetic::div_mod::{lemma_add_mod_noop, lemma_mul_mod_noop_left, lemma_mul_mod_noop_right,
    lemma_mod_twice, lemma_small_mod, lemma_fundamental_div_mod, lemma_fundamental_div_mod_converse,
    lemma_sub_mod_noop};
use crate::roots::{lemma_zeta_128, lemma_roots_are_powers};
use crate::tq::tmul;
use crate::ntt::{ints, reduced, ntt_mul_spec, lemma_reduced_base_case, lemma_roots_reduced};
use crate::ntt::{NTT_ROOTS, MOD_ROOTS, bitrev7, twiddle, layer_len, fwd_layer, fwd_layers, ntt_spec, inv_ntt_spec,
    lemma_ntt_roundtrip};

verus! {

/// `g(0) + g(1) + ... + g(n - 1)` over the integers.
pub open spec fn isum(g: spec_fn(int) -> int, n: nat) -> int
    decreases n,
{
    if n == 0 { 0 } else { isum(g, (n - 1) as nat) + g(n - 1) }
}

/// Sums of functions that agree below `n` agree.
proof fn lemma_isum_ext(g: spec_fn(int) -> int, h: spec_fn(int) -> int, n: nat)
    requires
        forall|j: int| 0 <= j < n ==> #[trigger] g(j) == h(j),
    ensures
        isum(g, n) == isum(h, n),
    decreases n,
{
    if n > 0 {
        lemma_isum_ext(g, h, (n - 1) as nat);
        assert(g(n - 1) == h(n - 1));
    }
}

/// Sums of functions that agree modulo q below `n` agree modulo q.
proof fn lemma_isum_mod(g: spec_fn(int) -> int, h: spec_fn(int) -> int, n: nat)
    requires
        forall|j: int| 0 <= j < n ==> #[trigger] g(j) % 3329 == h(j) % 3329,
    ensures
        isum(g, n) % 3329 == isum(h, n) % 3329,
    decreases n,
{
    if n > 0 {
        let n1 = (n - 1) as nat;
        lemma_isum_mod(g, h, n1);
        assert(g(n - 1) % 3329 == h(n - 1) % 3329);
        lemma_add_mod_noop(isum(g, n1), g(n - 1), 3329);
        lemma_add_mod_noop(isum(h, n1), h(n - 1), 3329);
    }
}

/// The sum of a pointwise sum is the sum of the sums.
proof fn lemma_isum_add(g: spec_fn(int) -> int, h: spec_fn(int) -> int, n: nat)
    ensures
        isum(|j: int| g(j) + h(j), n) == isum(g, n) + isum(h, n),
    decreases n,
{
    if n > 0 {
        lemma_isum_add(g, h, (n - 1) as nat);
    }
}

/// A constant factor comes out of a sum.
proof fn lemma_isum_scale(g: spec_fn(int) -> int, c: int, n: nat)
    ensures
        isum(|j: int| c * g(j), n) == c * isum(g, n),
    decreases n,
{
    if n > 0 {
        let n1 = (n - 1) as nat;
        lemma_isum_scale(g, c, n1);
        assert(c * isum(g, n1) + c * g(n - 1) == c * (isum(g, n1) + g(n - 1))) by (nonlinear_arith);
    }
}

/// A sum over `n + m` terms splits after the first `n`.
proof fn lemma_isum_split(g: spec_fn(int) -> int, n: nat, m: nat)
    ensures
        isum(g, n + m) == isum(g, n) + isum(|j: int| g(n + j), m),
    decreases m,
{
    if m > 0 {
        let m1 = (m - 1) as nat;
        lemma_isum_split(g, n, m1);
        assert((n + m - 1) as nat == n + m1);
    }
}

/// A sum over `2 n` terms is the sum of its even terms plus the sum of its odd terms.
proof fn lemma_isum_even_odd(g: spec_fn(int) -> int, n: nat)
    ensures
        isum(g, 2 * n) == isum(|j: int| g(2 * j), n) + isum(|j: int| g(2 * j + 1), n),
    decreases n,
{
    if n > 0 {
        let n1 = (n - 1) as nat;
        lemma_isum_even_odd(g, n1);
        let a = (2 * n1 + 1) as nat;
        assert(isum(g, a + 1) == isum(g, a) + g(a as int));
        assert(isum(g, a) == isum(g, 2 * n1) + g(2 * n1 as int));
        assert(a + 1 == 2 * n);
    }
}

/// 17^e modulo q.
pub open spec fn zeta_pow(e: int) -> int {
    pow(17, e as nat) % 3329
}

/// Powers of 17 modulo q multiply by adding exponents.
proof fn lemma_zeta_add(a: int, b: int)
    requires
        0 <= a,
        0 <= b,
    ensures
        zeta_pow(a + b) == (zeta_pow(a) * zeta_pow(b)) % 3329,
{
    lemma_pow_adds(17, a as nat, b as nat);
    assert((a + b) as nat == a as nat + b as nat);
    lemma_mul_mod_noop_left(pow(17, a as nat), pow(17, b as nat), 3329);
    lemma_mul_mod_noop_right(pow(17, a as nat) % 3329, pow(17, b as nat), 3329);
}

/// 17^128 = -1 and 17^256 = 1 modulo q.
proof fn lemma_zeta_order()
    ensures
        zeta_pow(128) == 3328,
        zeta_pow(256) == 1,
        zeta_pow(0) == 1,
{
    lemma_zeta_128();
    lemma_zeta_add(128, 128);
    assert((3328int * 3328) % 3329 == 1);
    lemma_pow0(17);
}

/// The powers of 17 modulo q repeat with period 256.
proof fn lemma_zeta_period(e: int, k: int)
    requires
        0 <= e,
        0 <= k,
    ensures
        zeta_pow(e + 256 * k) == zeta_pow(e),
    decreases k,
{
    if k > 0 {
        lemma_zeta_period(e, k - 1);
        lemma_zeta_order();
        lemma_zeta_add(e + 256 * (k - 1), 256);
        assert(e + 256 * (k - 1) + 256 == e + 256 * k);
        assert(0 <= zeta_pow(e) < 3329);
        lemma_small_mod(zeta_pow(e) as nat, 3329);
    }
}

/// Adding 128 to the exponent negates modulo q.
proof fn lemma_zeta_half(e: int)
    requires
        0 <= e,
    ensures
        zeta_pow(e + 128) == (-zeta_pow(e)) % 3329,
{
    lemma_zeta_order();
    lemma_zeta_add(e, 128);
    lemma_mul_mod_noop_right(zeta_pow(e), 3328, 3329);
    lemma_mul_mod_noop_right(zeta_pow(e), -1, 3329);
    assert(3328int % 3329 == (-1int) % 3329);
    assert(zeta_pow(e) * -1 == -zeta_pow(e));
}

/// Reversing the 7 bits of `2 x + s` halves the reversal of `x` and puts `s` on top.
proof fn lemma_bitrev7_double(x: u8, s: u8)
    by (bit_vector)
    requires
        x < 64,
        s < 2,
    ensures
        2 * (bitrev7((2 * x + s) as u8) as u32) == (bitrev7(x) as u32) + 128 * (s as u32),
{
}

/// Reversing the 7 bits of `64 + x` adds one to the reversal of `x`.
proof fn lemma_bitrev7_top(x: u8)
    by (bit_vector)
    requires
        x < 64,
    ensures
        bitrev7((64 + x) as u8) as u32 == (bitrev7(x) as u32) + 1,
{
}

/// The number of blocks after `k` layers of the transform: 2^k.
pub open spec fn nblocks(k: nat) -> int {
    if k == 0 { 1 } else if k == 1 { 2 } else if k == 2 { 4 } else if k == 3 { 8 } else if k == 4 { 16 }
    else if k == 5 { 32 } else if k == 6 { 64 } else { 128 }
}

/// The length of a block after `k` layers of the transform: 256 / 2^k.
pub open spec fn bsize(k: nat) -> int {
    if k == 0 { 256 } else if k == 1 { 128 } else if k == 2 { 64 } else if k == 3 { 32 } else if k == 4 { 16 }
    else if k == 5 { 8 } else if k == 6 { 4 } else { 2 }
}

/// After `k` layers, block `b` holds the residue of the input modulo `X^bsize(k) - 17^block_exp(k, b)`.
pub open spec fn block_exp(k: nat, b: int) -> int {
    if k == 0 { 128 } else { bitrev7((nblocks((k - 1) as nat) + b / 2) as u8) as int + 128 * (b % 2) }
}

/// Coefficient `idx % bsize(k)` of the residue of `f` that block `idx / bsize(k)` holds after
/// `k` layers: `sum_j f[t + bsize(k) j] c^j` with `c = 17^block_exp(k, b)`.
pub open spec fn residue(f: Seq<int>, k: nat, idx: int) -> int {
    isum(|j: int| residue_term(f, k, idx, j), nblocks(k) as nat)
}

/// Term `j` of `residue(f, k, idx)`.
pub open spec fn residue_term(f: Seq<int>, k: nat, idx: int, j: int) -> int {
    f[idx % bsize(k) + bsize(k) * j] * zeta_pow(block_exp(k, idx / bsize(k)) * j)
}

/// `(a + z b) mod q` depends on `a` and `b` modulo q only.
proof fn lemma_lin_mod(a: int, b: int, a1: int, b1: int, z: int)
    requires
        a % 3329 == a1 % 3329,
        b % 3329 == b1 % 3329,
    ensures
        (a + z * b) % 3329 == (a1 + z * b1) % 3329,
        (a - z * b) % 3329 == (a1 - z * b1) % 3329,
{
    lemma_mul_mod_noop_right(z, b, 3329);
    lemma_mul_mod_noop_right(z, b1, 3329);
    lemma_add_mod_noop(a, z * b, 3329);
    lemma_add_mod_noop(a1, z * b1, 3329);
    lemma_sub_mod_noop(a, z * b, 3329);
    lemma_sub_mod_noop(a1, z * b1, 3329);
}

/// The shape of the blocks after `k` and `k + 1` layers.
proof fn lemma_block_shape(k: nat)
    requires
        k < 7,
    ensures
        bsize(k) == 2 * layer_len(k as int),
        bsize((k + 1) as nat) == layer_len(k as int),
        nblocks((k + 1) as nat) == 2 * nblocks(k),
        128int / layer_len(k as int) == nblocks(k),
        bsize(k) * nblocks(k) == 256,
        1 <= nblocks(k) <= 64,
        layer_len(k as int) >= 2,
{
}

/// The twiddle factor of block `b` in layer `k` is `17^BitRev7(2^k + b)` and squares to the
/// constant of the block it splits.
proof fn lemma_block_twiddle(k: nat, b: int)
    requires
        k < 7,
        0 <= b < nblocks(k),
    ensures
        twiddle(nblocks(k) + b) == zeta_pow(bitrev7((nblocks(k) + b) as u8) as int),
        2 * (bitrev7((nblocks(k) + b) as u8) as int) == block_exp(k, b),
        block_exp((k + 1) as nat, 2 * b) == bitrev7((nblocks(k) + b) as u8) as int,
        block_exp((k + 1) as nat, 2 * b + 1) == bitrev7((nblocks(k) + b) as u8) as int + 128,
{
    lemma_block_shape(k);
    let i = nblocks(k) + b;
    let ez = bitrev7(i as u8) as int;
    assert(twiddle(i) == zeta_pow(ez)) by {
        lemma_roots_are_powers();
        assert(0 <= i < 128);
        assert(NTT_ROOTS@[i] as int == pow(17, bitrev7(i as u8) as nat) % 3329);
    }
    assert(2 * ez == block_exp(k, b)) by {
        if k == 0 {
            assert(bitrev7(1u8) == 64u8) by (bit_vector);
        } else {
            let x = (nblocks((k - 1) as nat) + b / 2) as u8;
            let sb = (b % 2) as u8;
            assert(x < 64);
            assert(sb < 2);
            lemma_bitrev7_double(x, sb);
            assert((2 * x + sb) as u8 == i as u8);
        }
    }
    assert((2 * b) / 2 == b && (2 * b) % 2 == 0);
    assert((2 * b + 1) / 2 == b && (2 * b + 1) % 2 == 1);
}

/// `x ((p z) mod q) = z (x p)` modulo q, and the same with `-((p z) mod q)` and `-z`.
proof fn lemma_term_mod(x: int, p: int, z: int)
    ensures
        (x * ((p * z) % 3329)) % 3329 == (z * (x * p)) % 3329,
        (x * ((-((p * z) % 3329)) % 3329)) % 3329 == ((-z) * (x * p)) % 3329,
{
    lemma_mul_mod_noop_right(x, p * z, 3329);
    assert(x * (p * z) == z * (x * p)) by (nonlinear_arith);
    let m = (p * z) % 3329;
    lemma_mul_mod_noop_right(x, -m, 3329);
    lemma_mul_mod_noop_right(x, -(p * z), 3329);
    lemma_sub_mod_noop(0, p * z, 3329);
    assert((0 - p * z) % 3329 == (0int % 3329 - m) % 3329);
    assert(0int % 3329 == 0);
    assert(x * -(p * z) == (-z) * (x * p)) by (nonlinear_arith);
    assert((x * -m) % 3329 == (x * ((-m) % 3329)) % 3329);
    assert((x * -(p * z)) % 3329 == (x * ((-(p * z)) % 3329)) % 3329);
}

/// Where `idx` sits after `k` and after `k + 1` layers.
proof fn lemma_positions(k: nat, idx: int) -> (r: (int, int))
    requires
        k < 7,
        0 <= idx < 256,
    ensures
        0 <= r.0 < nblocks(k),
        0 <= r.1 < bsize(k),
        idx == bsize(k) * r.0 + r.1,
        idx / bsize(k) == r.0,
        idx % bsize(k) == r.1,
        idx / (2 * layer_len(k as int)) == r.0,
        idx % (2 * layer_len(k as int)) == r.1,
        r.1 < layer_len(k as int) ==> idx / layer_len(k as int) == 2 * r.0 && idx % layer_len(k as int) == r.1,
        r.1 >= layer_len(k as int) ==> idx / layer_len(k as int) == 2 * r.0 + 1
            && idx % layer_len(k as int) == r.1 - layer_len(k as int),
{
    lemma_block_shape(k);
    let bs = bsize(k);
    let len = layer_len(k as int);
    let b = idx / bs;
    let t = idx % bs;
    lemma_fundamental_div_mod(idx, bs);
    assert(b < nblocks(k)) by (nonlinear_arith)
        requires idx == bs * b + t, 0 <= t, idx < 256, bs * nblocks(k) == 256, bs > 0;
    assert(0 <= b) by (nonlinear_arith)
        requires idx == bs * b + t, t < bs, idx >= 0, bs > 0;
    assert(idx == (2 * b) * len + t) by (nonlinear_arith) requires idx == bs * b + t, bs == 2 * len;
    if t < len {
        lemma_fundamental_div_mod_converse(idx, len, 2 * b, t);
    } else {
        lemma_fundamental_div_mod_converse(idx, len, 2 * b + 1, t - len);
    }
    (b, t)
}

/// Layer `k` of the transform maps the residues after `k` layers to those after `k + 1`.
#[verifier::rlimit(60)]
proof fn lemma_layer_residue(f: Seq<int>, k: nat, idx: int)
    requires
        f.len() == 256,
        k < 7,
        0 <= idx < 256,
        forall|x: int| 0 <= x < 256 ==> #[trigger] fwd_layers(f, k)[x] % 3329 == residue(f, k, x) % 3329,
    ensures
        fwd_layers(f, (k + 1) as nat)[idx] % 3329 == residue(f, (k + 1) as nat, idx) % 3329,
{
    let g = fwd_layers(f, k);
    let k1 = (k + 1) as nat;
    let len = layer_len(k as int);
    let bs = bsize(k);
    let nb = nblocks(k);
    lemma_block_shape(k);
    let (b, t) = lemma_positions(k, idx);
    lemma_block_twiddle(k, b);
    let ez = bitrev7((nb + b) as u8) as int;
    let c = block_exp(k, b);
    let z = twiddle(nb + b);
    assert(fwd_layers(f, k1) == fwd_layer(g, len));
    let h = |jp: int| residue_term(f, k1, idx, jp);
    assert(residue(f, k1, idx) == isum(h, (2 * nb) as nat));
    lemma_isum_even_odd(h, nb as nat);
    let new = fwd_layer(g, len)[idx];
    if t < len {
        assert(new == (g[idx] + z * g[idx + len]) % 3329);
        let (b1, t1) = lemma_positions(k, idx + len);
        assert(b1 == b && t1 == t + len) by {
            lemma_fundamental_div_mod_converse(idx + len, bs, b, t + len);
        }
        assert forall|j: int| 0 <= j < nb implies #[trigger] h(2 * j) == residue_term(f, k, idx, j) by {
            assert(len * (2 * j) == bs * j) by (nonlinear_arith) requires bs == 2 * len;
            assert(ez * (2 * j) == c * j) by (nonlinear_arith) requires c == 2 * ez;
        }
        lemma_isum_ext(|j: int| h(2 * j), |j: int| residue_term(f, k, idx, j), nb as nat);
        assert forall|j: int| 0 <= j < nb implies #[trigger] h(2 * j + 1) % 3329
            == (z * residue_term(f, k, idx + len, j)) % 3329 by {
            assert(len * (2 * j + 1) == bs * j + len) by (nonlinear_arith) requires bs == 2 * len;
            assert(ez * (2 * j + 1) == c * j + ez) by (nonlinear_arith) requires c == 2 * ez;
            assert(c * j >= 0) by (nonlinear_arith) requires c >= 0, j >= 0;
            lemma_zeta_add(c * j, ez);
            lemma_term_mod(f[t + len + bs * j], zeta_pow(c * j), z);
        }
        let g1 = |j: int| residue_term(f, k, idx + len, j);
        lemma_isum_mod(|j: int| h(2 * j + 1), |j: int| z * g1(j), nb as nat);
        lemma_isum_scale(g1, z, nb as nat);
        let r0 = residue(f, k, idx);
        let r1 = residue(f, k, idx + len);
        let odd = isum(|j: int| h(2 * j + 1), nb as nat);
        assert(odd % 3329 == (z * r1) % 3329);
        lemma_add_mod_noop(r0, odd, 3329);
        lemma_add_mod_noop(r0, z * r1, 3329);
        assert(g[idx] % 3329 == r0 % 3329);
        assert(g[idx + len] % 3329 == r1 % 3329);
        lemma_lin_mod(g[idx], g[idx + len], r0, r1, z);
        lemma_mod_twice(g[idx] + z * g[idx + len], 3329);
    } else {
        assert(new == (g[idx - len] - z * g[idx]) % 3329);
        let (b1, t1) = lemma_positions(k, idx - len);
        assert(b1 == b && t1 == t - len) by {
            lemma_fundamental_div_mod_converse(idx - len, bs, b, t - len);
        }
        assert forall|j: int| 0 <= j < nb implies #[trigger] h(2 * j) == residue_term(f, k, idx - len, j) by {
            assert(len * (2 * j) == bs * j) by (nonlinear_arith) requires bs == 2 * len;
            assert((ez + 128) * (2 * j) == c * j + 256 * j) by (nonlinear_arith) requires c == 2 * ez;
            assert(c * j >= 0) by (nonlinear_arith) requires c >= 0, j >= 0;
            lemma_zeta_period(c * j, j);
        }
        lemma_isum_ext(|j: int| h(2 * j), |j: int| residue_term(f, k, idx - len, j), nb as nat);
        assert forall|j: int| 0 <= j < nb implies #[trigger] h(2 * j + 1) % 3329
            == ((-z) * residue_term(f, k, idx, j)) % 3329 by {
            assert(len * (2 * j + 1) == bs * j + len) by (nonlinear_arith) requires bs == 2 * len;
            assert((ez + 128) * (2 * j + 1) == (c * j + ez + 128) + 256 * j) by (nonlinear_arith)
                requires c == 2 * ez;
            assert(c * j >= 0) by (nonlinear_arith) requires c >= 0, j >= 0;
            lemma_zeta_period(c * j + ez + 128, j);
            lemma_zeta_half(c * j + ez);
            lemma_zeta_add(c * j, ez);
            lemma_term_mod(f[t - len + len + bs * j], zeta_pow(c * j), z);
            assert(t - len + len == t);
        }
        let g1 = |j: int| residue_term(f, k, idx, j);
        lemma_isum_mod(|j: int| h(2 * j + 1), |j: int| (-z) * g1(j), nb as nat);
        lemma_isum_scale(g1, -z, nb as nat);
        let r0 = residue(f, k, idx - len);
        let r1 = residue(f, k, idx);
        let odd = isum(|j: int| h(2 * j + 1), nb as nat);
        assert(odd % 3329 == ((-z) * r1) % 3329);
        lemma_add_mod_noop(r0, odd, 3329);
        lemma_add_mod_noop(r0, (-z) * r1, 3329);
        assert(r0 + (-z) * r1 == r0 - z * r1) by (nonlinear_arith);
        assert(g[idx - len] % 3329 == r0 % 3329);
        assert(g[idx] % 3329 == r1 % 3329);
        lemma_lin_mod(g[idx - len], g[idx], r0, r1, z);
        lemma_mod_twice(g[idx - len] - z * g[idx], 3329);
    }
}

/// After `k` layers the transform holds, modulo q, the residues of its input.
proof fn lemma_layers_residue(f: Seq<int>, k: nat)
    requires
        f.len() == 256,
        k <= 7,
    ensures
        forall|x: int| 0 <= x < 256 ==> #[trigger] fwd_layers(f, k)[x] % 3329 == residue(f, k, x) % 3329,
    decreases k,
{
    if k == 0 {
        assert forall|x: int| 0 <= x < 256 implies #[trigger] fwd_layers(f, k)[x] % 3329
            == residue(f, k, x) % 3329 by {
            lemma_zeta_order();
            let g = |j: int| residue_term(f, 0, x, j);
            assert(g(0) == f[x] * 1);
            assert(isum(g, 0) == 0);
            assert(isum(g, 1) == isum(g, 0) + g(0));
            assert(residue(f, 0, x) == isum(g, 1));
        }
    } else {
        let k0 = (k - 1) as nat;
        lemma_layers_residue(f, k0);
        assert forall|x: int| 0 <= x < 256 implies #[trigger] fwd_layers(f, k)[x] % 3329
            == residue(f, k, x) % 3329 by {
            lemma_layer_residue(f, k0, x);
        }
    }
}

/// Coefficient `k` of the NTT as FIPS 203 defines it (4.3): with `i = k / 2` and
/// `gamma = 17^(2 BitRev7(i) + 1)`, the sum over `j < 128` of `f[2 j + k % 2] gamma^j`,
/// modulo q. Residue `i` of the NTT is `f` modulo `X^2 - gamma`.
pub open spec fn ntt_direct(f: Seq<int>, k: int) -> int {
    isum(|j: int| f[2 * j + k % 2] * zeta_pow((2 * bitrev7((k / 2) as u8) as int + 1) * j), 128) % 3329
}

/// The exponent of the last layer's blocks is `2 BitRev7(b) + 1`.
proof fn lemma_last_block_exp(b: int)
    requires
        0 <= b < 128,
    ensures
        block_exp(7, b) == 2 * (bitrev7(b as u8) as int) + 1,
{
    let x = (b / 2) as u8;
    let sb = (b % 2) as u8;
    lemma_bitrev7_top(x);
    lemma_bitrev7_double(x, sb);
    assert((2 * x + sb) as u8 == b as u8);
    assert((64 + x) as u8 == (nblocks(6) + b / 2) as u8);
}

/// The layered transform computes the NTT of FIPS 203 (4.3) coefficient by coefficient.
pub proof fn lemma_ntt_is_direct(f: Seq<int>)
    requires
        f.len() == 256,
    ensures
        ntt_spec(f) == Seq::new(256, |k: int| ntt_direct(f, k)),
{
    lemma_layers_residue(f, 7);
    assert forall|k: int| 0 <= k < 256 implies #[trigger] ntt_spec(f)[k] == ntt_direct(f, k) by {
        let b = k / 2;
        lemma_last_block_exp(b);
        assert forall|j: int| 0 <= j < 128 implies #[trigger] residue_term(f, 7, k, j)
            == f[2 * j + k % 2] * zeta_pow((2 * bitrev7((k / 2) as u8) as int + 1) * j) by {}
        lemma_isum_ext(|j: int| residue_term(f, 7, k, j),
            |j: int| f[2 * j + k % 2] * zeta_pow((2 * bitrev7((k / 2) as u8) as int + 1) * j), 128);
        assert(fwd_layers(f, 7)[k] % 3329 == residue(f, 7, k) % 3329);
        assert(0 <= ntt_spec(f)[k] < 3329);
        lemma_small_mod(ntt_spec(f)[k] as nat, 3329);
    }
    assert(ntt_spec(f) =~= Seq::new(256, |k: int| ntt_direct(f, k)));
}

/// A sum is unchanged when its terms are taken in rotated order.
proof fn lemma_isum_rotate(g: spec_fn(int) -> int, a: int, n: int)
    requires
        0 <= a < n,
    ensures
        isum(|b: int| g((a + b) % n), n as nat) == isum(g, n as nat),
{
    let rg = |b: int| g((a + b) % n);
    let na = (n - a) as nat;
    let an = a as nat;
    lemma_isum_split(rg, na, an);
    lemma_isum_split(g, an, na);
    assert forall|j: int| 0 <= j < na implies #[trigger] rg(j) == g(an + j) by {
        lemma_small_mod((a + j) as nat, n as nat);
    }
    lemma_isum_ext(rg, |j: int| g(an + j), na);
    assert forall|j: int| 0 <= j < an implies #[trigger] rg(na + j) == g(j) by {
        lemma_fundamental_div_mod_converse(a + (na + j), n, 1, j);
    }
    lemma_isum_ext(|j: int| rg(na + j), g, an);
    assert(na + an == n as nat);
}

/// The two orders of a double sum agree.
proof fn lemma_isum_swap(f: spec_fn(int, int) -> int, n: nat, m: nat)
    ensures
        isum(|a: int| isum(|b: int| f(a, b), m), n) == isum(|b: int| isum(|a: int| f(a, b), n), m),
    decreases n,
{
    if n > 0 {
        let n1 = (n - 1) as nat;
        lemma_isum_swap(f, n1, m);
        let inner = |b: int| isum(|a: int| f(a, b), n1);
        let last = |b: int| f(n1 as int, b);
        lemma_isum_add(inner, last, m);
        let lhs = |b: int| isum(|a: int| f(a, b), n);
        let rhs = |b: int| inner(b) + last(b);
        assert forall|b: int| 0 <= b < m implies #[trigger] lhs(b) == rhs(b) by {
            assert(isum(|a: int| f(a, b), n) == isum(|a: int| f(a, b), n1) + f(n - 1, b));
        }
        lemma_isum_ext(lhs, rhs, m);
        assert(isum(|a: int| isum(|b: int| f(a, b), m), n)
            == isum(|a: int| isum(|b: int| f(a, b), m), n1) + isum(|b: int| f(n - 1, b), m));
        lemma_isum_ext(|b: int| f(n - 1, b), last, m);
        assert(isum(|a: int| isum(|b: int| f(a, b), m), n1) == isum(inner, m));
        assert(isum(rhs, m) == isum(inner, m) + isum(last, m));
    } else {
        lemma_isum_zero(|b: int| isum(|a: int| f(a, b), n), m);
    }
}

/// A product of two sums is the double sum of the products of their terms.
proof fn lemma_isum_product(u: spec_fn(int) -> int, v: spec_fn(int) -> int, n: nat, m: nat)
    ensures
        isum(u, n) * isum(v, m) == isum(|a: int| isum(|b: int| u(a) * v(b), m), n),
{
    let sv = isum(v, m);
    lemma_isum_scale(u, sv, n);
    let lhs = |a: int| sv * u(a);
    let rhs = |a: int| isum(|b: int| u(a) * v(b), m);
    assert forall|a: int| 0 <= a < n implies #[trigger] lhs(a) == rhs(a) by {
        lemma_isum_scale(v, u(a), m);
        let ua = u(a);
        assert(sv * ua == ua * sv) by (nonlinear_arith);
        lemma_isum_ext(|b: int| ua * v(b), |b: int| u(a) * v(b), m);
    }
    lemma_isum_ext(lhs, rhs, n);
    assert(isum(u, n) * sv == sv * isum(u, n)) by (nonlinear_arith);
}

/// A sum of zeros is zero.
proof fn lemma_isum_zero(g: spec_fn(int) -> int, n: nat)
    requires
        forall|j: int| 0 <= j < n ==> #[trigger] g(j) == 0,
    ensures
        isum(g, n) == 0,
    decreases n,
{
    if n > 0 {
        lemma_isum_zero(g, (n - 1) as nat);
    }
}

/// Term `a` of coefficient `n` of the product in R_q = Z_q[X] / (X^256 + 1): `f[a] g[n - a]`,
/// negated where `X^a X^(n - a + 256)` wraps around `X^256 = -1`.
pub open spec fn nega_term(f: Seq<int>, g: Seq<int>, n: int, a: int) -> int {
    if a <= n { f[a] * g[n - a] } else { -(f[a] * g[n - a + 256]) }
}

/// The product of `f` and `g` in R_q = Z_q[X] / (X^256 + 1), reduced into `[0, q)`.
pub open spec fn poly_mul(f: Seq<int>, g: Seq<int>) -> Seq<int> {
    Seq::new(256, |n: int| isum(|a: int| nega_term(f, g, n, a), 256) % 3329)
}

/// Term `n` of the residue-`t` coefficient of `p` modulo `X^2 - 17^e`: `X^n` leaves
/// `17^(e (n / 2)) X^(n % 2)`.
pub open spec fn ev_term(p: Seq<int>, e: int, t: int, n: int) -> int {
    if n % 2 == t { p[n] * zeta_pow(e * (n / 2)) } else { 0 }
}

/// Coefficient `t` of `p` modulo `X^2 - 17^e`, before reduction modulo q.
pub open spec fn ev(p: Seq<int>, e: int, t: int) -> int {
    isum(|n: int| ev_term(p, e, t, n), 256)
}

/// Term `(a, b)` of coefficient `t` of `X^a X^b` modulo `X^2 - 17^e`, weighted by `f[a] g[b]`.
pub open spec fn pair_term(f: Seq<int>, g: Seq<int>, e: int, t: int, a: int, b: int) -> int {
    if (a + b) % 2 == t { f[a] * g[b] * zeta_pow(e * ((a + b) / 2)) } else { 0 }
}

/// The double sum of all pair terms.
pub open spec fn pair_sum(f: Seq<int>, g: Seq<int>, e: int, t: int) -> int {
    isum(|a: int| isum(|b: int| pair_term(f, g, e, t, a, b), 256), 256)
}

/// The NTT coefficients are the residues `ev`, reduced modulo q.
proof fn lemma_direct_is_ev(p: Seq<int>, k: int)
    requires
        0 <= k < 256,
    ensures
        ntt_direct(p, k) == ev(p, 2 * (bitrev7((k / 2) as u8) as int) + 1, k % 2) % 3329,
{
    let e = 2 * (bitrev7((k / 2) as u8) as int) + 1;
    let t = k % 2;
    let w = |n: int| ev_term(p, e, t, n);
    lemma_isum_even_odd(w, 128);
    let direct = |j: int| p[2 * j + k % 2] * zeta_pow((2 * bitrev7((k / 2) as u8) as int + 1) * j);
    assert forall|j: int| 0 <= j < 128 implies #[trigger] w(2 * j) == (if t == 0 { direct(j) } else { 0 }) by {
        assert((2 * j) % 2 == 0 && (2 * j) / 2 == j);
    }
    assert forall|j: int| 0 <= j < 128 implies #[trigger] w(2 * j + 1) == (if t == 1 { direct(j) } else { 0 }) by {
        assert((2 * j + 1) % 2 == 1 && (2 * j + 1) / 2 == j);
    }
    if t == 0 {
        lemma_isum_ext(|j: int| w(2 * j), direct, 128);
        lemma_isum_zero(|j: int| w(2 * j + 1), 128);
    } else {
        lemma_isum_zero(|j: int| w(2 * j), 128);
        lemma_isum_ext(|j: int| w(2 * j + 1), direct, 128);
    }
    assert(ev(p, e, t) == isum(w, 256));
}

/// Where `X^a X^b` lands in R_q, and its residue modulo `X^2 - 17^e` for odd `e`: the
/// wrapped terms carry `-1 = 17^(128 e)`.
proof fn lemma_nega_pair(f: Seq<int>, g: Seq<int>, e: int, t: int, a: int, b: int)
    requires
        0 <= a < 256,
        0 <= b < 256,
        e >= 1,
        e % 2 == 1,
        t == 0 || t == 1,
    ensures
        ({
            let n = (a + b) % 256;
            (if n % 2 == t { zeta_pow(e * (n / 2)) * nega_term(f, g, n, a) } else { 0 }) % 3329
                == pair_term(f, g, e, t, a, b) % 3329
        }),
{
    let n = (a + b) % 256;
    if a + b < 256 {
        lemma_small_mod((a + b) as nat, 256);
        assert(nega_term(f, g, n, a) == f[a] * g[b]);
        assert(zeta_pow(e * (n / 2)) * (f[a] * g[b]) == f[a] * g[b] * zeta_pow(e * (n / 2))) by (nonlinear_arith);
    } else {
        lemma_fundamental_div_mod_converse(a + b, 256, 1, a + b - 256);
        assert(n == a + b - 256);
        assert(a > n);
        assert(nega_term(f, g, n, a) == -(f[a] * g[b]));
        assert(n % 2 == (a + b) % 2);
        assert((a + b) / 2 == n / 2 + 128);
        let x = e * (n / 2);
        assert(x >= 0) by (nonlinear_arith) requires e >= 1, n >= 0, x == e * (n / 2);
        assert(e * ((a + b) / 2) == x + 128 + 256 * ((e - 1) / 2)) by (nonlinear_arith)
            requires (a + b) / 2 == n / 2 + 128, x == e * (n / 2), e % 2 == 1, e >= 1;
        lemma_zeta_period(x + 128, (e - 1) / 2);
        lemma_zeta_half(x);
        let fg = f[a] * g[b];
        let zx = zeta_pow(x);
        if n % 2 == t {
            // zeta_pow(e (a + b) / 2) = -zx (mod q)
            lemma_mul_mod_noop_right(fg, -zx, 3329);
            assert(zx * -fg == fg * -zx) by (nonlinear_arith);
        }
    }
}

/// The residues of a product in R_q are the sums of the pair terms, modulo q.
#[verifier::rlimit(40)]
proof fn lemma_ev_product(f: Seq<int>, g: Seq<int>, e: int, t: int)
    requires
        e >= 1,
        e % 2 == 1,
        t == 0 || t == 1,
    ensures
        ev(poly_mul(f, g), e, t) % 3329 == pair_sum(f, g, e, t) % 3329,
{
    let h = poly_mul(f, g);
    let kt = |n: int, a: int| if n % 2 == t { zeta_pow(e * (n / 2)) * nega_term(f, g, n, a) } else { 0 };
    let row = |n: int| isum(|a: int| kt(n, a), 256);
    assert forall|n: int| 0 <= n < 256 implies #[trigger] ev_term(h, e, t, n) % 3329 == row(n) % 3329 by {
        let gn = |a: int| nega_term(f, g, n, a);
        if n % 2 == t {
            let z = zeta_pow(e * (n / 2));
            lemma_isum_scale(gn, z, 256);
            lemma_isum_ext(|a: int| kt(n, a), |j: int| z * gn(j), 256);
            let hn = isum(gn, 256);
            assert(h[n] == hn % 3329);
            lemma_mul_mod_noop_left(hn, z, 3329);
            assert(hn * z == z * hn) by (nonlinear_arith);
        } else {
            lemma_isum_zero(|a: int| kt(n, a), 256);
        }
    }
    lemma_isum_mod(|n: int| ev_term(h, e, t, n), row, 256);
    lemma_isum_swap(kt, 256, 256);
    let col = |a: int| isum(|n: int| kt(n, a), 256);
    let prow = |a: int| isum(|b: int| pair_term(f, g, e, t, a, b), 256);
    assert forall|a: int| 0 <= a < 256 implies #[trigger] col(a) % 3329 == prow(a) % 3329 by {
        let ga = |n: int| kt(n, a);
        lemma_isum_rotate(ga, a, 256);
        assert forall|b: int| 0 <= b < 256 implies #[trigger] ga((a + b) % 256) % 3329
            == pair_term(f, g, e, t, a, b) % 3329 by {
            lemma_nega_pair(f, g, e, t, a, b);
        }
        lemma_isum_mod(|b: int| ga((a + b) % 256), |b: int| pair_term(f, g, e, t, a, b), 256);
        lemma_isum_ext(ga, |n: int| kt(n, a), 256);
    }
    lemma_isum_mod(col, prow, 256);
}

/// `(x p)(y q) = x y (p q mod m)` modulo q.
proof fn lemma_mod_prod(x: int, y: int, p: int, q: int)
    ensures
        (x * p * (y * q)) % 3329 == (x * y * ((p * q) % 3329)) % 3329,
{
    assert(x * p * (y * q) == (x * y) * (p * q)) by (nonlinear_arith);
    lemma_mul_mod_noop_right(x * y, p * q, 3329);
}

/// `(z (x p))(y q) = x y (z (p q mod m) mod m)` modulo q.
proof fn lemma_mod_prod3(x: int, y: int, z: int, p: int, q: int)
    ensures
        (z * (x * p) * (y * q)) % 3329 == (x * y * ((z * ((p * q) % 3329)) % 3329)) % 3329,
{
    assert(z * (x * p) * (y * q) == (x * y) * (z * (p * q))) by (nonlinear_arith);
    lemma_mul_mod_noop_right(z, p * q, 3329);
    lemma_mul_mod_noop_right(x * y, z * (p * q), 3329);
    lemma_mul_mod_noop_right(x * y, z * ((p * q) % 3329), 3329);
}

/// The sums of the term products of two pairs of sums, as one double sum.
proof fn lemma_two_products(u0: spec_fn(int) -> int, v0: spec_fn(int) -> int, u1: spec_fn(int) -> int,
    v1: spec_fn(int) -> int)
    ensures
        isum(u0, 256) * isum(v0, 256) + isum(u1, 256) * isum(v1, 256)
            == isum(|a: int| isum(|b: int| u0(a) * v0(b) + u1(a) * v1(b), 256), 256),
{
    lemma_isum_product(u0, v0, 256, 256);
    lemma_isum_product(u1, v1, 256, 256);
    let s0 = |a: int| isum(|b: int| u0(a) * v0(b), 256);
    let s1 = |a: int| isum(|b: int| u1(a) * v1(b), 256);
    lemma_isum_add(s0, s1, 256);
    let both = |a: int| s0(a) + s1(a);
    let joint = |a: int| isum(|b: int| u0(a) * v0(b) + u1(a) * v1(b), 256);
    assert forall|a: int| 0 <= a < 256 implies #[trigger] both(a) == joint(a) by {
        let p0 = |b: int| u0(a) * v0(b);
        let p1 = |b: int| u1(a) * v1(b);
        lemma_isum_add(p0, p1, 256);
        lemma_isum_ext(|b: int| p0(b) + p1(b), |b: int| u0(a) * v0(b) + u1(a) * v1(b), 256);
    }
    lemma_isum_ext(both, joint, 256);
}

/// Coefficient 0 of a product modulo `X^2 - 17^e`: `f0 g0 + 17^e f1 g1`.
proof fn lemma_ev_mul_even(f: Seq<int>, g: Seq<int>, e: int)
    requires
        e >= 1,
    ensures
        (ev(f, e, 0) * ev(g, e, 0) + zeta_pow(e) * (ev(f, e, 1) * ev(g, e, 1))) % 3329
            == pair_sum(f, g, e, 0) % 3329,
{
    let z = zeta_pow(e);
    let u0 = |n: int| ev_term(f, e, 0, n);
    let v0 = |n: int| ev_term(g, e, 0, n);
    let w1 = |n: int| ev_term(f, e, 1, n);
    let u1 = |n: int| z * w1(n);
    let v1 = |n: int| ev_term(g, e, 1, n);
    lemma_isum_scale(w1, z, 256);
    assert(z * (ev(f, e, 1) * ev(g, e, 1)) == (z * ev(f, e, 1)) * ev(g, e, 1)) by (nonlinear_arith);
    lemma_two_products(u0, v0, u1, v1);
    let joint = |a: int| isum(|b: int| u0(a) * v0(b) + u1(a) * v1(b), 256);
    let prow = |a: int| isum(|b: int| pair_term(f, g, e, 0, a, b), 256);
    assert forall|a: int| 0 <= a < 256 implies #[trigger] joint(a) % 3329 == prow(a) % 3329 by {
        assert forall|b: int| 0 <= b < 256 implies #[trigger] (u0(a) * v0(b) + u1(a) * v1(b)) % 3329
            == pair_term(f, g, e, 0, a, b) % 3329 by {
            let xa = e * (a / 2);
            let xb = e * (b / 2);
            assert(xa >= 0 && xb >= 0) by (nonlinear_arith) requires e >= 1, a >= 0, b >= 0, xa == e * (a / 2),
                xb == e * (b / 2);
            let pa = zeta_pow(xa);
            let pb = zeta_pow(xb);
            if a % 2 == 0 && b % 2 == 0 {
                assert(e * ((a + b) / 2) == xa + xb) by (nonlinear_arith)
                    requires (a + b) / 2 == a / 2 + b / 2, xa == e * (a / 2), xb == e * (b / 2);
                lemma_zeta_add(xa, xb);
                lemma_mod_prod(f[a], g[b], pa, pb);
                assert(u1(a) == z * 0);
            } else if a % 2 == 1 && b % 2 == 1 {
                assert(e * ((a + b) / 2) == e + (xa + xb)) by (nonlinear_arith)
                    requires (a + b) / 2 == a / 2 + b / 2 + 1, xa == e * (a / 2), xb == e * (b / 2);
                lemma_zeta_add(xa, xb);
                lemma_zeta_add(e, xa + xb);
                lemma_mod_prod3(f[a], g[b], z, pa, pb);
            } else {
                assert(u1(a) * v1(b) == 0) by (nonlinear_arith) requires u1(a) == z * 0 || v1(b) == 0;
            }
        }
        lemma_isum_mod(|b: int| u0(a) * v0(b) + u1(a) * v1(b), |b: int| pair_term(f, g, e, 0, a, b), 256);
    }
    lemma_isum_mod(joint, prow, 256);
}

/// Coefficient 1 of a product modulo `X^2 - 17^e`: `f0 g1 + f1 g0`.
proof fn lemma_ev_mul_odd(f: Seq<int>, g: Seq<int>, e: int)
    requires
        e >= 1,
    ensures
        (ev(f, e, 0) * ev(g, e, 1) + ev(f, e, 1) * ev(g, e, 0)) % 3329 == pair_sum(f, g, e, 1) % 3329,
{
    let u0 = |n: int| ev_term(f, e, 0, n);
    let v0 = |n: int| ev_term(g, e, 1, n);
    let u1 = |n: int| ev_term(f, e, 1, n);
    let v1 = |n: int| ev_term(g, e, 0, n);
    lemma_two_products(u0, v0, u1, v1);
    let joint = |a: int| isum(|b: int| u0(a) * v0(b) + u1(a) * v1(b), 256);
    let prow = |a: int| isum(|b: int| pair_term(f, g, e, 1, a, b), 256);
    assert forall|a: int| 0 <= a < 256 implies #[trigger] joint(a) % 3329 == prow(a) % 3329 by {
        assert forall|b: int| 0 <= b < 256 implies #[trigger] (u0(a) * v0(b) + u1(a) * v1(b)) % 3329
            == pair_term(f, g, e, 1, a, b) % 3329 by {
            let xa = e * (a / 2);
            let xb = e * (b / 2);
            assert(xa >= 0 && xb >= 0) by (nonlinear_arith) requires e >= 1, a >= 0, b >= 0, xa == e * (a / 2),
                xb == e * (b / 2);
            let pa = zeta_pow(xa);
            let pb = zeta_pow(xb);
            if a % 2 != b % 2 {
                assert(e * ((a + b) / 2) == xa + xb) by (nonlinear_arith)
                    requires (a + b) / 2 == a / 2 + b / 2, xa == e * (a / 2), xb == e * (b / 2);
                lemma_zeta_add(xa, xb);
                lemma_mod_prod(f[a], g[b], pa, pb);
            }
        }
        lemma_isum_mod(|b: int| u0(a) * v0(b) + u1(a) * v1(b), |b: int| pair_term(f, g, e, 1, a, b), 256);
    }
    lemma_isum_mod(joint, prow, 256);
}

/// `x mod q` may stand for `x` in a product modulo q.
proof fn lemma_mod_mul2(x: int, y: int)
    ensures
        ((x % 3329) * (y % 3329)) % 3329 == (x * y) % 3329,
{
    lemma_mul_mod_noop_left(x, y % 3329, 3329);
    lemma_mul_mod_noop_right(x, y, 3329);
}

/// The base-case products of reduced residues agree with those of unreduced ones.
proof fn lemma_base_case_mod(x0: int, y0: int, x1: int, y1: int, c: int)
    ensures
        ((x0 % 3329) * (y0 % 3329) + (x1 % 3329) * (y1 % 3329) * c) % 3329 == (x0 * y0 + c * (x1 * y1)) % 3329,
        ((x0 % 3329) * (y1 % 3329) + (x1 % 3329) * (y0 % 3329)) % 3329 == (x0 * y1 + x1 * y0) % 3329,
{
    lemma_mod_mul2(x0, y0);
    lemma_mod_mul2(x1, y1);
    lemma_mod_mul2(x0, y1);
    lemma_mod_mul2(x1, y0);
    let a = (x0 % 3329) * (y0 % 3329);
    let b = (x1 % 3329) * (y1 % 3329);
    lemma_mul_mod_noop_left(b, c, 3329);
    lemma_mul_mod_noop_left(x1 * y1, c, 3329);
    assert((x1 * y1) * c == c * (x1 * y1)) by (nonlinear_arith);
    lemma_add_mod_noop(a, b * c, 3329);
    lemma_add_mod_noop(x0 * y0, c * (x1 * y1), 3329);
    lemma_add_mod_noop((x0 % 3329) * (y1 % 3329), (x1 % 3329) * (y0 % 3329), 3329);
    lemma_add_mod_noop(x0 * y1, x1 * y0, 3329);
}

/// Coefficient `k` of NTT(f g) and of NTT(f) * NTT(g) agree.
#[verifier::rlimit(40)]
proof fn lemma_ntt_mul_coeff(f: Seq<int>, g: Seq<int>, k: int)
    requires
        f.len() == 256,
        g.len() == 256,
        0 <= k < 256,
    ensures
        ntt_spec(poly_mul(f, g))[k] == tmul(ntt_spec(f), ntt_spec(g))[k],
{
    let h = poly_mul(f, g);
    let nf = ntt_spec(f);
    let ng = ntt_spec(g);
    let i = k / 2;
    let e = 2 * (bitrev7(i as u8) as int) + 1;
    assert((2 * i) / 2 == i && (2 * i) % 2 == 0 && (2 * i + 1) / 2 == i && (2 * i + 1) % 2 == 1);
    assert(nf[2 * i] == ev(f, e, 0) % 3329 && nf[2 * i + 1] == ev(f, e, 1) % 3329) by {
        lemma_ntt_is_direct(f);
        lemma_direct_is_ev(f, 2 * i);
        lemma_direct_is_ev(f, 2 * i + 1);
    }
    assert(ng[2 * i] == ev(g, e, 0) % 3329 && ng[2 * i + 1] == ev(g, e, 1) % 3329) by {
        lemma_ntt_is_direct(g);
        lemma_direct_is_ev(g, 2 * i);
        lemma_direct_is_ev(g, 2 * i + 1);
    }
    assert(ntt_spec(h)[k] == ev(h, e, k % 2) % 3329) by {
        lemma_ntt_is_direct(h);
        lemma_direct_is_ev(h, k);
    }
    let c = MOD_ROOTS@[i] as int;
    assert(c == zeta_pow(e)) by {
        lemma_roots_are_powers();
        assert(0 <= i < 128);
    }
    lemma_base_case_mod(ev(f, e, 0), ev(g, e, 0), ev(f, e, 1), ev(g, e, 1), c);
    lemma_ev_product(f, g, e, k % 2);
    if k % 2 == 0 {
        lemma_ev_mul_even(f, g, e);
    } else {
        lemma_ev_mul_odd(f, g, e);
    }
}

/// The NTT turns the product of R_q = Z_q[X] / (X^256 + 1) into the product of T_q
/// (FIPS 203, 4.3): NTT(f g) = NTT(f) * NTT(g).
pub proof fn lemma_ntt_mul(f: Seq<int>, g: Seq<int>)
    requires
        f.len() == 256,
        g.len() == 256,
    ensures
        ntt_spec(poly_mul(f, g)) == tmul(ntt_spec(f), ntt_spec(g)),
{
    assert forall|k: int| 0 <= k < 256 implies #[trigger] ntt_spec(poly_mul(f, g))[k]
        == tmul(ntt_spec(f), ntt_spec(g))[k] by {
        lemma_ntt_mul_coeff(f, g, k);
    }
    assert(ntt_spec(poly_mul(f, g)) =~= tmul(ntt_spec(f), ntt_spec(g)));
}

/// On coefficients in `[0, q)`, the base-case products that `NTT::mul` computes are, modulo
/// q, the product of T_q.
pub proof fn lemma_ntt_mul_spec_is_tmul(a: Seq<i32>, b: Seq<i32>)
    requires
        a.len() == 256,
        b.len() == 256,
        reduced(a),
        reduced(b),
    ensures
        Seq::new(256, |k: int| ntt_mul_spec(a, b)[k] % 3329) == tmul(ints(a), ints(b)),
{
    lemma_roots_reduced();
    assert forall|k: int| 0 <= k < 256 implies #[trigger] ntt_mul_spec(a, b)[k] % 3329
        == tmul(ints(a), ints(b))[k] by {
        let i = k / 2;
        let (a0, a1, b0, b1) = (a[2 * i] as int, a[2 * i + 1] as int, b[2 * i] as int, b[2 * i + 1] as int);
        let g = MOD_ROOTS@[i] as int;
        assert(0 <= a0 < 3329 && 0 <= a1 < 3329 && 0 <= b0 < 3329 && 0 <= b1 < 3329 && 0 <= g < 3329);
        lemma_reduced_base_case(a0, a1, b0, b1, g);
        let x = if k % 2 == 0 { a0 * b0 + a1 * b1 * g } else { a0 * b1 + a1 * b0 };
        assert(ntt_mul_spec(a, b)[k] == x % 3329);
        lemma_mod_twice(x, 3329);
    }
    assert(Seq::new(256, |k: int| ntt_mul_spec(a, b)[k] % 3329) =~= tmul(ints(a), ints(b)));
}

/// Multiplying in R_q through the NTT: NTT^-1(NTT(f) * NTT(g)) is the product `f g` of R_q.
pub proof fn lemma_mul_through_ntt(f: Seq<int>, g: Seq<int>)
    requires
        f.len() == 256,
        g.len() == 256,
    ensures
        inv_ntt_spec(tmul(ntt_spec(f), ntt_spec(g))) == poly_mul(f, g),
{
    let h = poly_mul(f, g);
    lemma_ntt_mul(f, g);
    lemma_ntt_roundtrip(h);
    assert forall|i: int| 0 <= i < 256 implies #[trigger] h[i] % 3329 == h[i] by {
        lemma_mod_twice(isum(|a: int| nega_term(f, g, i, a), 256), 3329);
    }
    assert(Seq::new(256, |i: int| h[i] % 3329) =~= h);
}

} // verus!
