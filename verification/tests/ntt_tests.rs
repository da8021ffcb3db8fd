use mlkem::field::modq;
use mlkem::ntt::{bit_rev_7, pow_mod_q, MOD_ROOTS, NTT, NTT_ROOTS};
use mlkem::params::{N, Q, RANK};
use mlkem::ring::Poly;

#[test]
fn test_ntt_00() {
    let n1 = NTT::default();
    let n2 = NTT::default();
    let r: [i32; N] = n1.add(&n2).coefficients();
    assert_eq!(r, [0; N]);
    let r: [i32; N] = n1.mul(&n2).coefficients();
    assert_eq!(r, [0; N]);

    let n3 = NTT::from_poly(&Poly::from(&[1u16; N]));
    let r: [i32; N] = n1.mul(&n3).coefficients();
    assert_eq!(r, [0; N]);
}

#[test]
fn test_ntt_01() {
    let n1 = NTT::from_poly(&Poly::from(&[0u16; N]));
    let n2 = NTT::from_poly(&Poly::from(&[1u16; N]));
    let r = n1.add(&n2).inv();
    assert_eq!(r.coeff(), [1; N]);
}

#[test]
fn test_ntt_add_01() {
    let a: [i32; N] = std::array::from_fn(|_| modq(getrandom::u32().unwrap() as i32));
    let b: [i32; N] = std::array::from_fn(|_| modq(getrandom::u32().unwrap() as i32));
    let n1 = NTT::from_poly(&Poly::from(&a));
    let n2 = NTT::from_poly(&Poly::from(&b));
    let r0 = n1.add(&n2).inv();
    let r1 = std::array::from_fn(|i| modq(a[i] + b[i]));
    assert_eq!(r0.coeff(), r1);
}

#[test]
fn test_ntt_conv_01() {
    // 1 + 200x + 300x^2 + 0^254 + 0^255;
    let mut w = [0i32; N];
    w[0] = modq(Q as i32 - 1);
    w[1] = 200i32;
    w[2] = 300i32;
    w[3] = modq(Q as i32);
    for i in 4..253 {
        w[i] = modq((getrandom::u32().unwrap() & 0xFFFFFF) as i32);
    }
    w[253] = modq(-1);
    w[254] = 254;
    w[255] = Q as i32 - 2;

    let wh = NTT::from_poly(&Poly::from(&w));
    let _w = wh.inv();
    assert_eq!(w, _w.coeff());
}

#[test]
fn test_bit_rev7_1() {
    assert_eq!(bit_rev_7(0), 0);
    assert_eq!(bit_rev_7(1), 64);
    assert_eq!(bit_rev_7(64), 1);
    assert_eq!(bit_rev_7(2), 32);
    assert_eq!(bit_rev_7(32), 2);
    assert_eq!(bit_rev_7(3), 96);
    assert_eq!(bit_rev_7(96), 3);
    assert_eq!(bit_rev_7(7), 112);
    assert_eq!(bit_rev_7(112), 7);
    assert_eq!(bit_rev_7(63), 126);
    assert_eq!(bit_rev_7(99), 99);
    assert_eq!(bit_rev_7(107), 107);
    assert_eq!(bit_rev_7(119), 119);
    assert_eq!(bit_rev_7(126), 63);
    assert_eq!(bit_rev_7(127), 127);
    assert_eq!(bit_rev_7(98), 35);
}

#[test]
fn test_bit_rev7_2() {
    let mut perm = [0usize; 128];
    let mut mask = [0u8; 128];
    for x in 0..128 {
        let v = bit_rev_7(x);
        assert_eq!(perm[x as usize], 0);
        assert_eq!(mask[v], 0);
        perm[x as usize] = v;
        mask[v] += 1;
    }
    let mut total = 0;
    for i in 0..128 {
        assert_eq!(mask[i], 1);
        total += perm[i]
    }
    assert_eq!(total, 8128); // sum(list(range(0, 128)))
}

#[test]
fn test_mod_roots() {
    for i in 0..128u8 {
        let r = pow_mod_q(17, 2 * bit_rev_7(i) as u8 + 1);
        assert_eq!(r, MOD_ROOTS[i as usize] as i32);
    }
}

#[test]
fn test_ntt_roots() {
    for i in 0..128u8 {
        let r = pow_mod_q(17, bit_rev_7(i) as u8);
        assert_eq!(r, NTT_ROOTS[i as usize] as i32);
    }
}

fn sample_poly(seed: u32) -> [i32; N] {
    let mut c = [0i32; N];
    let mut s = seed;
    for i in 0..N {
        s = s.wrapping_mul(1103515245).wrapping_add(12345);
        c[i] = ((s >> 8) % 3329) as i32;
    }
    c
}

// NTT^-1(NTT(f)) = f for reduced f.
#[test]
fn ntt_roundtrip_on_fixed_polynomials() {
    for seed in 0..16u32 {
        let f = sample_poly(seed);
        let r = NTT::from_poly(&Poly::from(&f)).inv();
        assert_eq!(r.coeff(), f);
    }
}

// NTT^-1(NTT(a) + NTT(b)) = a + b mod q.
#[test]
fn ntt_is_additive_on_fixed_polynomials() {
    let a = sample_poly(7);
    let b = sample_poly(8);
    let r = NTT::from_poly(&Poly::from(&a)).add(&NTT::from_poly(&Poly::from(&b))).inv();
    let expected: [i32; N] = std::array::from_fn(|i| (a[i] + b[i]) % 3329);
    assert_eq!(r.coeff(), expected);
}

// The product in T_q is the product in R_q = Z_q[X]/(X^256 + 1).
#[test]
fn ntt_mul_is_negacyclic_convolution() {
    let a = sample_poly(3);
    let b = sample_poly(4);
    let p = NTT::from_poly(&Poly::from(&a)).mul(&NTT::from_poly(&Poly::from(&b)));
    let reduced: [u16; N] = std::array::from_fn(|i| (p.coefficients()[i] % 3329) as u16);
    let r = NTT::from_array(reduced).inv();
    let mut c = [0i64; N];
    for i in 0..N {
        for j in 0..N {
            let prod = a[i] as i64 * b[j] as i64;
            if i + j < N {
                c[i + j] += prod;
            } else {
                c[i + j - N] -= prod;
            }
        }
    }
    let expected: [i32; N] = std::array::from_fn(|i| c[i].rem_euclid(3329) as i32);
    assert_eq!(r.coeff(), expected);
}

// X * X^255 = X^256 = -1 in R_q.
#[test]
fn ntt_mul_x_by_x255() {
    let mut a = [0i32; N];
    a[1] = 1;
    let mut b = [0i32; N];
    b[255] = 1;
    let p = NTT::from_poly(&Poly::from(&a)).mul(&NTT::from_poly(&Poly::from(&b)));
    let reduced: [u16; N] = std::array::from_fn(|i| (p.coefficients()[i] % 3329) as u16);
    let r = NTT::from_array(reduced).inv();
    let mut expected = [0i32; N];
    expected[0] = 3328;
    assert_eq!(r.coeff(), expected);
}

#[test]
fn ntt_sub_and_base_case() {
    let a = NTT::from_array([5u16; N]);
    let b = NTT::from_array([7u16; N]);
    assert_eq!(a.sub(&b).coefficients(), [3327; N]);
    assert_eq!(b.sub(&a).coefficients(), [2; N]);
    // (1 + 2X)(3 + 4X) mod (X^2 - 17) = 3 + 8 * 17 + 10 X
    assert_eq!(NTT::base_case_multiply(1, 2, 3, 4, 17), (139, 10));
}

#[test]
fn ntt_to_u16_array() {
    let a = NTT::from_array([1234u16; N]);
    let v: [u16; N] = a.into();
    assert_eq!(v, [1234u16; N]);
}

#[test]
fn pow_mod_q_values() {
    assert_eq!(pow_mod_q(17, 0), 1);
    assert_eq!(pow_mod_q(17, 1), 17);
    assert_eq!(pow_mod_q(17, 128), 3328);
    assert_eq!(pow_mod_q(3328, 2), 1);
}

// SampleNTT accepts only values below q and is a function of its 34-byte input.
#[test]
fn sample_ntt_values_below_q_and_deterministic() {
    let mut b = [0u8; 34];
    for i in 0..34 {
        b[i] = i as u8;
    }
    let mut a1 = NTT::default();
    let mut a2 = NTT::from_array([1u16; N]);
    NTT::sample_ntt(&b, &mut a1);
    NTT::sample_ntt(&b, &mut a2);
    assert_eq!(a1.coefficients(), a2.coefficients());
    assert!(a1.coefficients().iter().all(|&x| 0 <= x && x < 3329));
    b[33] = 1;
    let mut a3 = NTT::default();
    NTT::sample_ntt(&b, &mut a3);
    assert_ne!(a1.coefficients(), a3.coefficients());
}

// Entry [i][j] of the matrix is SampleNTT(rho || j || i).
#[test]
fn sample_ntt_matrix_entries() {
    let rho = [42u8; 32];
    let mut ah = [[NTT::default(); RANK]; RANK];
    NTT::sample_ntt_matrix(&rho, &mut ah);
    for i in 0..RANK {
        for j in 0..RANK {
            let mut b = [42u8; 34];
            b[32] = j as u8;
            b[33] = i as u8;
            let mut e = NTT::default();
            NTT::sample_ntt(&b, &mut e);
            assert_eq!(ah[i][j].coefficients(), e.coefficients());
        }
    }
    assert_ne!(ah[0][1].coefficients(), ah[1][0].coefficients());
}

// Coefficient 2i + t of the NTT is the sum of f[2j + t] gamma^j with gamma = 17^(2 BitRev7(i) + 1).
#[test]
fn ntt_matches_direct_definition() {
    let a = sample_poly(5);
    let n = NTT::from_poly(&Poly::from(&a)).coefficients();
    for i in 0..128usize {
        let e = 2 * bit_rev_7(i as u8) as u64 + 1;
        let mut gamma: u64 = 1;
        for _ in 0..e {
            gamma = gamma * 17 % 3329;
        }
        for t in 0..2usize {
            let mut acc: u64 = 0;
            let mut g: u64 = 1;
            for j in 0..128usize {
                acc = (acc + (a[2 * j + t].rem_euclid(3329) as u64) * g) % 3329;
                g = g * gamma % 3329;
            }
            assert_eq!(n[2 * i + t].rem_euclid(3329) as u64, acc);
        }
    }
}

// The product of T_q commutes and distributes over the sum, modulo q.
#[test]
fn ntt_mul_commutes_and_distributes() {
    let a: [u16; N] = std::array::from_fn(|i| sample_poly(7)[i] as u16);
    let b: [u16; N] = std::array::from_fn(|i| sample_poly(8)[i] as u16);
    let c: [u16; N] = std::array::from_fn(|i| sample_poly(9)[i] as u16);
    let (na, nb, nc) = (NTT::from_array(a), NTT::from_array(b), NTT::from_array(c));
    assert_eq!(na.mul(&nb).coefficients(), nb.mul(&na).coefficients());
    let lhs = na.add(&nb).mul(&nc).coefficients();
    let ac = na.mul(&nc).coefficients();
    let bc = nb.mul(&nc).coefficients();
    for k in 0..N {
        assert_eq!(lhs[k].rem_euclid(3329), (ac[k] + bc[k]).rem_euclid(3329));
    }
}

// Base-case products come out reduced into [0, q).
#[test]
fn base_case_multiply_reduces() {
    assert_eq!(NTT::base_case_multiply(0, 3328, 0, 3328, 3312), (3312, 0));
    let mut c = [0u16; N];
    c[3] = 3328;
    let a = NTT::from_array(c);
    let p = a.mul(&a).coefficients();
    assert_eq!(p[2], 3312);
    assert!(p.iter().all(|&x| 0 <= x && x < 3329));
}

// SampleNTT over given stream bytes: the SHAKE128 stream gives what sample_ntt gives, and
// a stream with no value below q gives no coefficient.
#[test]
fn sample_ntt_from_stream_matches_sample_ntt() {
    let b: [u8; 34] = std::array::from_fn(|i| (3 * i) as u8);
    let mut expected = NTT::default();
    NTT::sample_ntt(&b, &mut expected);
    let mut xr = mlkem::sampler::XOF128::absorb_finalize(&b);
    let mut stream = vec![0u8; 3 * 512];
    xr.squeeze(&mut stream);
    let mut got = NTT::from_array([5u16; N]);
    assert!(NTT::sample_ntt_from_stream(&stream, &mut got));
    assert_eq!(got.coefficients(), expected.coefficients());

    let ff = vec![0xFFu8; 3072];
    let mut none = NTT::from_array([5u16; N]);
    assert!(!NTT::sample_ntt_from_stream(&ff, &mut none));
    assert_eq!(none.coefficients(), [0i32; N]);

    // one group 01 30 FF gives 0x001 and 0xFF3 (too large): one value, then zeros
    let mut one = NTT::from_array([5u16; N]);
    assert!(!NTT::sample_ntt_from_stream(&[0x01, 0x30, 0xFF, 0x55], &mut one));
    let c = one.coefficients();
    assert_eq!(c[0], 1);
    assert!(c[1..].iter().all(|&x| x == 0));
}
