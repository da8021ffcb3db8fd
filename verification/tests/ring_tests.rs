use mlkem::field::FieldElement;
use mlkem::params::N;
use mlkem::ring::{Poly, RingElement};
use mlkem::sampler::sample_poly_cbd_eta1;

#[test]
fn ring_conversions() {
    let z = RingElement::default();
    assert_eq!(z.coeff(), [0; N]);
    let f: [FieldElement; N] = std::array::from_fn(|i| FieldElement::from(i as i32 - 100));
    let p = RingElement::from(&f);
    assert_eq!(p.get(1), 3230);
    assert_eq!(p.get(200), 100);
    let u: [u16; N] = (&p).into();
    assert_eq!(u[0], 3229);
    let w: [i32; N] = (&p).into();
    assert_eq!(w[255], 155);
    let q = RingElement::from(&[7i32; N]);
    assert_eq!(q.coeff(), [7; N]);
    let r = RingElement::from(&[65535u16; N]);
    assert_eq!(r.coeff(), [65535; N]);
}

#[test]
fn poly_add_reduces() {
    let a = Poly::from(&[3000i32; N]);
    let b = Poly::from(&[400i32; N]);
    assert_eq!(a.add(&b).coeff(), [71; N]);
}

#[test]
fn poly_coefficients_are_writable() {
    let mut p = Poly::default();
    p.coefficients()[5] = 9;
    assert_eq!(p.get(5), 9);
    let q = Poly::from_coefficients([4; N]);
    assert_eq!(q.coeff(), [4; N]);
}

#[test]
fn poly_compress_and_encode() {
    let p = Poly::from(&[1664i32; N]);
    let c = p.compress::<10>();
    assert_eq!(c.coeff(), [512; N]);
    let enc = c.byte_encode_du();
    // 512 = 0b1000000000: four values fill the bytes 0, 0, 8, 32, 128
    assert_eq!(enc.to_vec(), [0u8, 2, 8, 32, 128].repeat(64));
    let v = Poly::from(&[1664i32; N]).compress::<4>();
    assert_eq!(v.coeff(), [8; N]);
    assert_eq!(v.byte_encode_dv(), [0x88u8; 128]);
}

#[test]
fn ring_byte_decode_1() {
    let mut m = [0u8; 32];
    m[0] = 0b0000_0101;
    m[31] = 0x80;
    let p = RingElement::byte_decode_1(&m);
    let c = p.coeff();
    assert_eq!(c[0], 1);
    assert_eq!(c[1], 0);
    assert_eq!(c[2], 1);
    assert_eq!(c[255], 1);
    assert_eq!(c.iter().sum::<i32>(), 3);
}

// SamplePolyCBD_2: each nibble gives (b0 + b1) - (b2 + b3) mod q.
#[test]
fn cbd_eta_2_values() {
    let mut b = [0u8; 128];
    b[0] = 0x03;
    b[1] = 0xC0;
    b[2] = 0x5A;
    let mut p = Poly::default();
    sample_poly_cbd_eta1(&b, &mut p);
    let c = p.coeff();
    assert_eq!(c[0], 2);
    assert_eq!(c[1], 0);
    assert_eq!(c[2], 0);
    assert_eq!(c[3], 3327);
    assert_eq!(c[4], 0);
    assert_eq!(c[5], 0);
    assert!(c[6..].iter().all(|&x| x == 0));
    let mut q = Poly::default();
    sample_poly_cbd_eta1(&[0xFF; 128], &mut q);
    assert_eq!(q.coeff(), [0; N]);
}

// SamplePolyCBD_3: each 6 bits give (b0 + b1 + b2) - (b3 + b4 + b5) mod q.
#[test]
fn cbd_eta_3_values() {
    let mut b = [0u8; 192];
    b[0] = 0b0000_0111;
    b[1] = 0b0000_1110;
    let mut p = Poly::default();
    p.sample_poly_cbd_eta_3(&b);
    let c = p.coeff();
    assert_eq!(c[0], 3);
    assert_eq!(c[1], 3326);
    assert!(c[2..].iter().all(|&x| x == 0));
}

// Coefficient 0 can be read too.
#[test]
fn ring_get_index_zero() {
    let p = Poly::from(&[7u16; N]);
    assert_eq!(p.get(0), 7);
}
