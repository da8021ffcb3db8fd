//! The ring T_q of NTT representations: its product and the laws it obeys.
use vstd::prelude::*;
use vstd::arithmetic::div_mod::{lemma_add_mod_noop, lemma_sub_mod_noop, lemma_mul_mod_noop_left,
    lemma_mul_mod_noop_right, lemma_mod_twice, lemma_small_mod};
use crate::ntt::{MOD_ROOTS, add_mod, zero_poly, canonical};

verus! {

/// The product in T_q (FIPS 203, Alg. 11) with every coefficient reduced into `[0, q)`:
/// residue `i` is `(a0 + a1 X)(b0 + b1 X)` modulo `X^2 - MOD_ROOTS[i]`.
pub open spec fn tmul(a: Seq<int>, b: Seq<int>) -> Seq<int> {
    Seq::new(256, |k: int| {
        let i = k / 2;
        let (a0, a1, b0, b1) = (a[2 * i], a[2 * i + 1], b[2 * i], b[2 * i + 1]);
        let g = MOD_ROOTS@[i] as int;
        if k % 2 == 0 { (a0 * b0 + a1 * b1 * g) % 3329 } else { (a0 * b1 + a1 * b0) % 3329 }
    })
}

/// `x mod q` may stand for `x` in a product followed by a sum, modulo q.
proof fn lemma_mod_in_product(x: int, y: int, z: int)
    ensures
        ((x % 3329) * y + z) % 3329 == (x * y + z) % 3329,
{
    lemma_add_mod_noop((x % 3329) * y, z, 3329);
    lemma_add_mod_noop(x * y, z, 3329);
    lemma_mul_mod_noop_left(x, y, 3329);
    lemma_mul_mod_noop_left(x % 3329, y, 3329);
    lemma_mod_twice(x, 3329);
}

proof fn lemma_distr(x: int, y: int, z: int)
    ensures
        (x + y) * z == x * z + y * z,
{
    assert((x + y) * z == x * z + y * z) by (nonlinear_arith);
}

/// Where the two coefficients of residue `k / 2` sit.
proof fn lemma_pair_index(k: int)
    requires
        0 <= k < 256,
    ensures
        0 <= k / 2 < 128,
        k % 2 == 0 ==> k == 2 * (k / 2),
        k % 2 == 1 ==> k == 2 * (k / 2) + 1,
        (2 * (k / 2)) / 2 == k / 2,
        (2 * (k / 2)) % 2 == 0,
        (2 * (k / 2) + 1) / 2 == k / 2,
        (2 * (k / 2) + 1) % 2 == 1,
{
}

/// The product in T_q is commutative.
pub proof fn lemma_tmul_comm(a: Seq<int>, b: Seq<int>)
    ensures
        tmul(a, b) == tmul(b, a),
{
    assert forall|k: int| 0 <= k < 256 implies #[trigger] tmul(a, b)[k] == tmul(b, a)[k] by {
        let i = k / 2;
        let (a0, a1, b0, b1) = (a[2 * i], a[2 * i + 1], b[2 * i], b[2 * i + 1]);
        let g = MOD_ROOTS@[i] as int;
        assert(a0 * b0 + a1 * b1 * g == b0 * a0 + b1 * a1 * g) by (nonlinear_arith);
        assert(a0 * b1 + a1 * b0 == b0 * a1 + b1 * a0) by (nonlinear_arith);
    }
    assert(tmul(a, b) =~= tmul(b, a));
}

/// The product in T_q is associative.
pub proof fn lemma_tmul_assoc(a: Seq<int>, b: Seq<int>, c: Seq<int>)
    ensures
        tmul(tmul(a, b), c) == tmul(a, tmul(b, c)),
{
    let ab = tmul(a, b);
    let bc = tmul(b, c);
    assert forall|k: int| 0 <= k < 256 implies #[trigger] tmul(ab, c)[k] == tmul(a, bc)[k] by {
        lemma_pair_index(k);
        let i = k / 2;
        let (a0, a1, b0, b1, c0, c1) = (a[2 * i], a[2 * i + 1], b[2 * i], b[2 * i + 1], c[2 * i], c[2 * i + 1]);
        let g = MOD_ROOTS@[i] as int;
        let p0 = a0 * b0 + a1 * b1 * g;
        let p1 = a0 * b1 + a1 * b0;
        let q0 = b0 * c0 + b1 * c1 * g;
        let q1 = b0 * c1 + b1 * c0;
        assert(ab[2 * i] == p0 % 3329 && ab[2 * i + 1] == p1 % 3329);
        assert(bc[2 * i] == q0 % 3329 && bc[2 * i + 1] == q1 % 3329);
        if k % 2 == 0 {
            // (p0 c0 + p1 c1 g) against (a0 q0 + a1 q1 g)
            lemma_mod_in_product(p0, c0, (p1 % 3329) * (c1 * g));
            lemma_mod_in_product(p1, c1 * g, p0 * c0);
            assert((p0 % 3329) * c0 + (p1 % 3329) * c1 * g == (p0 % 3329) * c0 + (p1 % 3329) * (c1 * g))
                by (nonlinear_arith);
            assert(p1 * (c1 * g) + p0 * c0 == p0 * c0 + p1 * (c1 * g));
            lemma_mod_in_product(q0, a0, (q1 % 3329) * (a1 * g));
            lemma_mod_in_product(q1, a1 * g, q0 * a0);
            assert(a0 * (q0 % 3329) + a1 * (q1 % 3329) * g == (q0 % 3329) * a0 + (q1 % 3329) * (a1 * g))
                by (nonlinear_arith);
            assert(q1 * (a1 * g) + q0 * a0 == q0 * a0 + q1 * (a1 * g));
            lemma_distr(a0 * b0, a1 * b1 * g, c0);
            lemma_distr(a0 * b1, a1 * b0, c1 * g);
            lemma_distr(b0 * c0, b1 * c1 * g, a0);
            lemma_distr(b0 * c1, b1 * c0, a1 * g);
            assert((a0 * b0) * c0 == (b0 * c0) * a0) by (nonlinear_arith);
            assert((a1 * b1 * g) * c0 == (b1 * c0) * (a1 * g)) by (nonlinear_arith);
            assert((a0 * b1) * (c1 * g) == (b1 * c1 * g) * a0) by (nonlinear_arith);
            assert((a1 * b0) * (c1 * g) == (b0 * c1) * (a1 * g)) by (nonlinear_arith);
        } else {
            lemma_mod_in_product(p0, c1, (p1 % 3329) * c0);
            lemma_mod_in_product(p1, c0, p0 * c1);
            assert(p1 * c0 + p0 * c1 == p0 * c1 + p1 * c0);
            lemma_mod_in_product(q0, a1, (q1 % 3329) * a0);
            lemma_mod_in_product(q1, a0, q0 * a1);
            assert(a0 * (q1 % 3329) + a1 * (q0 % 3329) == (q0 % 3329) * a1 + (q1 % 3329) * a0)
                by (nonlinear_arith);
            assert(q1 * a0 + q0 * a1 == q0 * a1 + q1 * a0);
            assert((p0 % 3329) * c1 + (p1 % 3329) * c0 == (p0 % 3329) * c1 + (p1 % 3329) * c0);
            lemma_distr(a0 * b0, a1 * b1 * g, c1);
            lemma_distr(a0 * b1, a1 * b0, c0);
            lemma_distr(b0 * c0, b1 * c1 * g, a1);
            lemma_distr(b0 * c1, b1 * c0, a0);
            assert((a0 * b0) * c1 == (b0 * c1) * a0) by (nonlinear_arith);
            assert((a1 * b1 * g) * c1 == (b1 * c1 * g) * a1) by (nonlinear_arith);
            assert((a0 * b1) * c0 == (b1 * c0) * a0) by (nonlinear_arith);
            assert((a1 * b0) * c0 == (b0 * c0) * a1) by (nonlinear_arith);
        }
    }
    assert(tmul(ab, c) =~= tmul(a, bc));
}

/// The product in T_q distributes over sums.
pub proof fn lemma_tmul_add(a: Seq<int>, b: Seq<int>, c: Seq<int>)
    ensures
        tmul(add_mod(a, b), c) == add_mod(tmul(a, c), tmul(b, c)),
{
    let s = add_mod(a, b);
    assert forall|k: int| 0 <= k < 256 implies #[trigger] tmul(s, c)[k] == add_mod(tmul(a, c), tmul(b, c))[k] by {
        lemma_pair_index(k);
        let i = k / 2;
        let (a0, a1, b0, b1, c0, c1) = (a[2 * i], a[2 * i + 1], b[2 * i], b[2 * i + 1], c[2 * i], c[2 * i + 1]);
        let g = MOD_ROOTS@[i] as int;
        assert(s[2 * i] == (a0 + b0) % 3329 && s[2 * i + 1] == (a1 + b1) % 3329);
        if k % 2 == 0 {
            lemma_mod_in_product(a0 + b0, c0, ((a1 + b1) % 3329) * (c1 * g));
            lemma_mod_in_product(a1 + b1, c1 * g, (a0 + b0) * c0);
            assert(((a0 + b0) % 3329) * c0 + ((a1 + b1) % 3329) * c1 * g
                == ((a0 + b0) % 3329) * c0 + ((a1 + b1) % 3329) * (c1 * g)) by (nonlinear_arith);
            assert((a1 + b1) * (c1 * g) + (a0 + b0) * c0
                == (a0 * c0 + a1 * c1 * g) + (b0 * c0 + b1 * c1 * g)) by (nonlinear_arith);
            lemma_add_mod_noop(a0 * c0 + a1 * c1 * g, b0 * c0 + b1 * c1 * g, 3329);
        } else {
            lemma_mod_in_product(a0 + b0, c1, ((a1 + b1) % 3329) * c0);
            lemma_mod_in_product(a1 + b1, c0, (a0 + b0) * c1);
            assert((a1 + b1) * c0 + (a0 + b0) * c1 == (a0 * c1 + a1 * c0) + (b0 * c1 + b1 * c0))
                by (nonlinear_arith);
            lemma_add_mod_noop(a0 * c1 + a1 * c0, b0 * c1 + b1 * c0, 3329);
        }
    }
    assert(tmul(s, c) =~= add_mod(tmul(a, c), tmul(b, c)));
}

/// `f(0) + f(1) + ... + f(n - 1)` in T_q, coefficient-wise modulo q.
pub open spec fn vsum(f: spec_fn(int) -> Seq<int>, n: nat) -> Seq<int>
    decreases n,
{
    if n == 0 { zero_poly() } else { add_mod(vsum(f, (n - 1) as nat), f(n - 1)) }
}

pub proof fn lemma_add_mod_comm(a: Seq<int>, b: Seq<int>)
    ensures
        add_mod(a, b) == add_mod(b, a),
{
    assert(add_mod(a, b) =~= add_mod(b, a));
}

pub proof fn lemma_add_mod_assoc(a: Seq<int>, b: Seq<int>, c: Seq<int>)
    ensures
        add_mod(add_mod(a, b), c) == add_mod(a, add_mod(b, c)),
{
    assert forall|k: int| 0 <= k < 256 implies #[trigger] add_mod(add_mod(a, b), c)[k]
        == add_mod(a, add_mod(b, c))[k] by {
        lemma_add_mod_noop(a[k] + b[k], c[k], 3329);
        lemma_mod_twice(c[k], 3329);
        lemma_add_mod_noop(a[k], b[k] + c[k], 3329);
        lemma_mod_twice(a[k], 3329);
        assert((a[k] + b[k]) + c[k] == a[k] + (b[k] + c[k]));
        lemma_add_mod_noop((a[k] + b[k]) % 3329, c[k], 3329);
        lemma_add_mod_noop(a[k], (b[k] + c[k]) % 3329, 3329);
        lemma_mod_twice(a[k] + b[k], 3329);
        lemma_mod_twice(b[k] + c[k], 3329);
    }
    assert(add_mod(add_mod(a, b), c) =~= add_mod(a, add_mod(b, c)));
}

/// Adding zero keeps a polynomial with coefficients in `[0, q)`.
pub proof fn lemma_add_mod_zero(a: Seq<int>)
    requires
        canonical(a),
    ensures
        add_mod(zero_poly(), a) == a,
        add_mod(a, zero_poly()) == a,
{
    assert forall|k: int| 0 <= k < 256 implies #[trigger] add_mod(zero_poly(), a)[k] == a[k] by {
        lemma_small_mod(a[k] as nat, 3329);
    }
    assert(add_mod(zero_poly(), a) =~= a);
    lemma_add_mod_comm(a, zero_poly());
}

proof fn lemma_add_mod_swap(a: Seq<int>, b: Seq<int>, c: Seq<int>, d: Seq<int>)
    ensures
        add_mod(add_mod(a, b), add_mod(c, d)) == add_mod(add_mod(a, c), add_mod(b, d)),
{
    lemma_add_mod_assoc(a, b, add_mod(c, d));
    lemma_add_mod_assoc(b, c, d);
    lemma_add_mod_comm(b, c);
    lemma_add_mod_assoc(c, b, d);
    lemma_add_mod_assoc(a, c, add_mod(b, d));
}

/// Sums of functions that agree below `n` agree.
pub proof fn lemma_vsum_ext(f: spec_fn(int) -> Seq<int>, g: spec_fn(int) -> Seq<int>, n: nat)
    requires
        forall|j: int| 0 <= j < n ==> #[trigger] f(j) == g(j),
    ensures
        vsum(f, n) == vsum(g, n),
    decreases n,
{
    if n > 0 {
        lemma_vsum_ext(f, g, (n - 1) as nat);
        assert(f(n - 1) == g(n - 1));
    }
}

/// Every sum has coefficients in `[0, q)`.
pub proof fn lemma_vsum_canonical(f: spec_fn(int) -> Seq<int>, n: nat)
    ensures
        canonical(vsum(f, n)),
    decreases n,
{
    if n > 0 {
        lemma_vsum_canonical(f, (n - 1) as nat);
    }
}

/// A sum of sums is the sum of the sums, term by term.
pub proof fn lemma_vsum_add(f: spec_fn(int) -> Seq<int>, g: spec_fn(int) -> Seq<int>, n: nat)
    ensures
        vsum(|j: int| add_mod(f(j), g(j)), n) == add_mod(vsum(f, n), vsum(g, n)),
    decreases n,
{
    let h = |j: int| add_mod(f(j), g(j));
    if n == 0 {
        assert(add_mod(zero_poly(), zero_poly()) =~= zero_poly());
    } else {
        lemma_vsum_add(f, g, (n - 1) as nat);
        let (a, b, c, d) = (vsum(f, (n - 1) as nat), f(n - 1), vsum(g, (n - 1) as nat), g(n - 1));
        assert(h(n - 1) == add_mod(b, d));
        lemma_add_mod_swap(a, c, b, d);
        assert(vsum(h, n) == add_mod(vsum(h, (n - 1) as nat), h(n - 1)));
    }
}

proof fn lemma_vsum_zero(n: nat)
    ensures
        vsum(|j: int| zero_poly(), n) == zero_poly(),
    decreases n,
{
    if n > 0 {
        lemma_vsum_zero((n - 1) as nat);
        assert(add_mod(zero_poly(), zero_poly()) =~= zero_poly());
    }
}

pub proof fn lemma_tmul_zero(c: Seq<int>)
    ensures
        tmul(zero_poly(), c) == zero_poly(),
{
    assert forall|k: int| 0 <= k < 256 implies #[trigger] tmul(zero_poly(), c)[k] == zero_poly()[k] by {
        lemma_pair_index(k);
        let i = k / 2;
        let z = zero_poly();
        assert(z[2 * i] == 0 && z[2 * i + 1] == 0);
        let g = MOD_ROOTS@[i] as int;
        assert(0 * c[2 * i] + 0 * c[2 * i + 1] * g == 0) by (nonlinear_arith);
        assert(0 * c[2 * i + 1] + 0 * c[2 * i] == 0);
    }
    assert(tmul(zero_poly(), c) =~= zero_poly());
}

/// A product with a sum is the sum of the products.
pub proof fn lemma_tmul_vsum(f: spec_fn(int) -> Seq<int>, c: Seq<int>, n: nat)
    ensures
        tmul(vsum(f, n), c) == vsum(|j: int| tmul(f(j), c), n),
    decreases n,
{
    let h = |j: int| tmul(f(j), c);
    if n == 0 {
        lemma_tmul_zero(c);
    } else {
        lemma_tmul_vsum(f, c, (n - 1) as nat);
        lemma_tmul_add(vsum(f, (n - 1) as nat), f(n - 1), c);
        assert(h(n - 1) == tmul(f(n - 1), c));
    }
}

/// The order of a double sum can be exchanged.
pub proof fn lemma_vsum_swap(f: spec_fn(int, int) -> Seq<int>, n: nat, m: nat)
    ensures
        vsum(|j: int| vsum(|i: int| f(j, i), m), n) == vsum(|i: int| vsum(|j: int| f(j, i), n), m),
    decreases n,
{
    let rows = |j: int| vsum(|i: int| f(j, i), m);
    let cols = |i: int| vsum(|j: int| f(j, i), n);
    if n == 0 {
        lemma_vsum_zero(m);
        lemma_vsum_ext(cols, |i: int| zero_poly(), m);
    } else {
        let n1 = (n - 1) as nat;
        let cols1 = |i: int| vsum(|j: int| f(j, i), n1);
        let last = |i: int| f(n - 1, i);
        lemma_vsum_swap(f, n1, m);
        assert(vsum(rows, n1) == vsum(cols1, m));
        assert(rows(n - 1) == vsum(last, m));
        lemma_vsum_add(cols1, last, m);
        assert forall|i: int| 0 <= i < m implies #[trigger] cols(i) == add_mod(cols1(i), last(i)) by {
            let col = |j: int| f(j, i);
            assert(vsum(col, n) == add_mod(vsum(col, n1), col(n - 1)));
        }
        lemma_vsum_ext(cols, |i: int| add_mod(cols1(i), last(i)), m);
    }
}

/// `(A s)^T ∘ y = s^T ∘ (A^T y)` in T_q: for a matrix with entries `a(j, i)`,
/// `sum_j (sum_i a(j, i) ∘ s(i)) ∘ y(j) = sum_i s(i) ∘ (sum_j a(j, i) ∘ y(j))`.
pub proof fn lemma_transpose(a: spec_fn(int, int) -> Seq<int>, s: spec_fn(int) -> Seq<int>,
    y: spec_fn(int) -> Seq<int>, n: nat)
    ensures
        vsum(|j: int| tmul(vsum(|i: int| tmul(a(j, i), s(i)), n), y(j)), n)
            == vsum(|i: int| tmul(s(i), vsum(|j: int| tmul(a(j, i), y(j)), n)), n),
{
    let f = |j: int, i: int| tmul(tmul(a(j, i), s(i)), y(j));
    let lhs_terms = |j: int| tmul(vsum(|i: int| tmul(a(j, i), s(i)), n), y(j));
    let rhs_terms = |i: int| tmul(s(i), vsum(|j: int| tmul(a(j, i), y(j)), n));
    assert forall|j: int| 0 <= j < n implies #[trigger] lhs_terms(j) == vsum(|i: int| f(j, i), n) by {
        let g = |i: int| tmul(a(j, i), s(i));
        lemma_tmul_vsum(g, y(j), n);
        lemma_vsum_ext(|k: int| tmul(g(k), y(j)), |i: int| f(j, i), n);
    }
    assert forall|i: int| 0 <= i < n implies #[trigger] rhs_terms(i) == vsum(|j: int| f(j, i), n) by {
        let col = |j: int| tmul(a(j, i), y(j));
        lemma_tmul_comm(s(i), vsum(col, n));
        lemma_tmul_vsum(col, s(i), n);
        assert forall|j: int| 0 <= j < n implies #[trigger] tmul(col(j), s(i)) == f(j, i) by {
            lemma_tmul_assoc(a(j, i), y(j), s(i));
            lemma_tmul_comm(y(j), s(i));
            lemma_tmul_assoc(a(j, i), s(i), y(j));
        }
        lemma_vsum_ext(|k: int| tmul(col(k), s(i)), |j: int| f(j, i), n);
    }
    lemma_vsum_ext(lhs_terms, |j: int| vsum(|i: int| f(j, i), n), n);
    lemma_vsum_ext(rhs_terms, |i: int| vsum(|j: int| f(j, i), n), n);
    lemma_vsum_swap(f, n, n);
}

} // verus!
