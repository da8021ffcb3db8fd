use mlkem::field::{
    compress, compress_1, decompress, decompress_1, modq, modq_i64, FieldElement, _modq_,
};
use mlkem::params::{DU, Q};

#[test]
fn test_modq() {
    for x in 0..0x0FFFFFFi32 {
        assert_eq!(x % Q as i32, modq(x));
    }
}

#[test]
fn test_u16_range() {
    for x in 0u16..65535 {
        let t = FieldElement::from(x).compress::<DU>();
        let v = u16::from(t);
        assert!(v <= (1 << DU) - 1);
    }
}

// for all y in Z_q and d < 12, compress(decompress(y)) = y
#[test]
fn test_decompress_then_compress() {
    for x in 0u16..65535 {
        let y = x & ((1 << DU) - 1);
        let t = FieldElement::decompress::<DU>(y).compress::<DU>();
        assert_eq!(y, t);
    }
}

// if d is large (i.e., close to 12), |x - decompress(compress(x))| <= 2
#[test]
fn test_compress_then_decompress() {
    for x in 0..Q {
        let t: u32 = decompress::<DU>(FieldElement::from(x as i32).compress::<DU>().into()).into();
        assert!(x.abs_diff(t) <= 2 || Q.abs_diff(x.abs_diff(t)) <= 1);
    }
}

#[test]
fn modq_of_negative_inputs() {
    assert_eq!(modq(-1), 3328);
    assert_eq!(modq(-3329), 0);
    assert_eq!(modq(-3330), 3328);
    assert_eq!(modq(-0x1000000), (-0x1000000i64).rem_euclid(3329) as i32);
    assert_eq!(_modq_(-5), 3324);
    assert_eq!(_modq_(3329 * 7 + 12), 12);
}

#[test]
fn modq_i64_small_and_large() {
    assert_eq!(modq_i64(3329 * 3329), 0);
    assert_eq!(modq_i64(-1), 3328);
    assert_eq!(modq_i64(0x200000000), (0x200000000i64 % 3329) as i32);
    let x: i64 = 3328 * 3328 + 3328 * 3328 * 3328;
    let r = modq_i64(x);
    assert!(0 <= r && r < 0x10000);
    assert_eq!(r as i64 % 3329, x % 3329);
}

#[test]
fn field_element_conversions() {
    assert_eq!(i32::from(FieldElement::from(-1i32)), 3328);
    assert_eq!(i32::from(FieldElement::from(i32::MAX)), (i32::MAX % 3329) as i32);
    assert_eq!(i32::from(FieldElement::from(i32::MIN)), (i32::MIN as i64).rem_euclid(3329) as i32);
    assert_eq!(u16::from(FieldElement::from(40000u16)), 40000 % 3329);
    assert_eq!(i32::from(FieldElement::default()), 0);
    assert_eq!(FieldElement::from(3330i32).value(), 1);
}

#[test]
fn field_element_add_sub() {
    let a = FieldElement::from(3000i32);
    let b = FieldElement::from(328i32);
    assert_eq!(FieldElement::add(&a, &b).value(), 3328);
    assert_eq!(FieldElement::sub(&b, &a).value(), 657);
    assert_eq!(FieldElement::sub(&a, &b).value(), 2672);
    assert_eq!(FieldElement::reduce_once(-1), 3328);
    assert_eq!(FieldElement::reduce_once(-3329), 0);
    assert_eq!(FieldElement::reduce_once(3328), 3328);
}

// Compress_d(x) = round(2^d x / q) mod 2^d and Decompress_d(y) = round(q y / 2^d).
#[test]
fn compress_and_decompress_values() {
    assert_eq!(compress::<10>(0), 0);
    assert_eq!(compress::<10>(1664), 512);
    assert_eq!(compress::<10>(3328), 0);
    assert_eq!(compress::<4>(208), 1);
    assert_eq!(compress::<4>(1000), 5);
    assert_eq!(decompress::<10>(512), 1665);
    assert_eq!(decompress::<4>(15), 3121);
    assert_eq!(compress_1(832), 0);
    assert_eq!(compress_1(833), 1);
    assert_eq!(compress_1(2496), 1);
    assert_eq!(compress_1(2497), 0);
    assert_eq!(decompress_1(0), 0);
    assert_eq!(decompress_1(1), 1665);
}

// Decompress then compress gives back y for every width.
#[test]
fn compress_decompress_roundtrip_all_widths() {
    for y in 0u16..(1 << 4) {
        assert_eq!(compress::<4>(decompress::<4>(y)), y);
    }
    for y in 0u16..(1 << 5) {
        assert_eq!(compress::<5>(decompress::<5>(y)), y);
    }
    for y in 0u16..(1 << 11) {
        assert_eq!(compress::<11>(decompress::<11>(y)), y);
    }
    for y in 0u16..2 {
        assert_eq!(compress_1(decompress_1(y)), y);
    }
}

// |x - Decompress(Compress(x))| mod q is at most about q / 2^(d+1).
#[test]
fn decompress_compress_error_bound() {
    for x in 0u16..3329 {
        let t = decompress::<4>(compress::<4>(x)) as i32;
        let diff = (x as i32 - t).rem_euclid(3329);
        let dist = diff.min(3329 - diff);
        assert!(dist <= (3329 + 16) / 32);
    }
}

// The 64-bit reduction is exact on the largest base-case products.
#[test]
fn modq_i64_reduces_base_case_products() {
    assert_eq!(modq_i64(3328 * 3328 * 3312), 3312);
    assert_eq!(modq_i64(3328 * 3328 + 3328 * 3328 * 3328), ((3328i64 * 3328 + 3328 * 3328 * 3328) % 3329) as i32);
    assert_eq!(modq_i64(-(3328 * 3328 * 3328)), (-(3328i64 * 3328 * 3328)).rem_euclid(3329) as i32);
}

// Addition in Z_q wraps around q.
#[test]
fn field_element_add_wraps() {
    let a = FieldElement::from(3000i32);
    let b = FieldElement::from(3000i32);
    assert_eq!(i32::from(FieldElement::add(&a, &b)), 2671);
}
