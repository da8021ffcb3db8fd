use mlkem::codec::{
    _byte_decode_bssl_, _byte_decode_go_crypto_, _byte_encode_bssl_, byte_decode_1,
    byte_decode_10, byte_decode_11, byte_decode_12, byte_decode_4, byte_decode_5, byte_encode,
    byte_encode_10, byte_encode_11, byte_encode_12, byte_encode_4, byte_encode_5,
    byte_encode_1, byte_decode,
};
use mlkem::params::{DU, N, Q};

fn gen_random_u16(mask: u16) -> u16 {
    getrandom::u32().unwrap() as u16 & mask
}

fn gen_random_u16_modq_array(mask: u16) -> [u16; N] {
    let mut r: [u16; N] = [0; N];
    for i in 0..N {
        r[i] = getrandom::u32().unwrap() as u16 & mask;
        while r[i] >= Q as u16 {
            r[i] -= Q as u16;
        }
    }
    r
}

#[test]
fn test_byte_encode_00() {
    let f = [0u16; N];
    let mut enc = [0u8; 32 * DU as usize];
    let mut enc_bssl = [0u8; 32 * DU as usize];
    byte_encode(f, &mut enc, DU);
    _byte_encode_bssl_(f, &mut enc_bssl, DU);
    assert_eq!(enc, enc_bssl);
}

#[test]
fn test_byte_encode_q_minus_1() {
    let f = [Q as u16 & 0x3FF; N];
    let mut enc = [0u8; 32 * DU as usize];
    let mut enc_bssl = [0u8; 32 * DU as usize];
    byte_encode(f, &mut enc, DU);
    _byte_encode_bssl_(f, &mut enc_bssl, DU);
    assert_eq!(enc, enc_bssl);
}

#[test]
fn test_byte_encode_random() {
    let f = [gen_random_u16(0x3FF); N];
    let mut enc = [0u8; 32 * DU as usize];
    let mut enc_bssl = [0u8; 32 * DU as usize];
    byte_encode(f, &mut enc, DU);
    _byte_encode_bssl_(f, &mut enc_bssl, DU);
    assert_eq!(enc, enc_bssl);
}

#[test]
fn test_byte_encode_random_arr() {
    let f = gen_random_u16_modq_array(0x3FF);
    let mut enc = [0u8; 32 * DU as usize];
    let mut enc_bssl = [0u8; 32 * DU as usize];
    byte_encode(f, &mut enc, DU);
    _byte_encode_bssl_(f, &mut enc_bssl, DU);
    assert_eq!(enc, enc_bssl);
}

#[test]
fn test_byte_decode_generic() {
    {
        let b = [0; 32];
        let mut dec = [0u16; N];
        byte_decode_1(&b, &mut dec);
        assert_eq!(dec, [0u16; N]);
    }
    {
        let b = [1; 32];
        let mut dec = [0u16; N];
        byte_decode_1(&b, &mut dec);
        for i in 0..N {
            if i % 8 == 0 {
                assert_eq!(dec[i], 1u16);
            } else {
                assert_eq!(dec[i], 0u16);
            }
        }
    }
    {
        let b = [0xF0; 32];
        let mut dec = [0u16; N];
        byte_decode_1(&b, &mut dec);
        for i in 0..N {
            if i % 8 < 4 {
                assert_eq!(dec[i], 0u16);
            } else {
                assert_eq!(dec[i], 1u16);
            }
        }
    }
    {
        let b = [0xFF; 32];
        let mut dec = [0u16; N];
        byte_decode_1(&b, &mut dec);
        assert_eq!(dec, [1u16; N]);
    }
    {
        let mut b = [0u8; 32];
        b[0] = 73;
        let mut dec = [0u16; N];
        byte_decode_1(&b, &mut dec);
        assert_eq!(dec[0..8], [1, 0, 0, 1, 0, 0, 1, 0]);
    }
}

// 3328 = 0b0000110100000000; its 10 low bits 0100000000, four times over,
// fill five bytes 0, 1, 4, 16, 64.
#[test]
fn test_byte_encode_decode_q_minus_1() {
    let f = [(Q - 1) as u16; N];

    let mut enc = [0u8; 32 * DU as usize];
    let mut enc_bssl = [0u8; 32 * DU as usize];
    byte_encode(f, &mut enc, DU);
    _byte_encode_bssl_(f, &mut enc_bssl, DU);
    assert_eq!(enc, [0u8, 1, 4, 16, 64].repeat(64).as_slice());

    let mut dec = [0; N];
    let mut dec_bssl = [0; N];
    _byte_decode_go_crypto_(&enc, &mut dec, DU);
    let ok = _byte_decode_bssl_(&enc, &mut dec_bssl, DU);
    assert!(ok);
    assert_eq!(dec, dec_bssl);
}

#[test]
fn test_byte_encode_decode_random_arr() {
    let f = gen_random_u16_modq_array(0x3FF);

    let mut enc = [0u8; 32 * DU as usize];
    let mut enc_bssl = [0u8; 32 * DU as usize];
    byte_encode(f, &mut enc, DU);
    _byte_encode_bssl_(f, &mut enc_bssl, DU);
    assert_eq!(enc, enc_bssl);

    let mut dec = [0u16; N];
    _byte_decode_go_crypto_(&enc, &mut dec, DU);
    assert_eq!(dec, f);
    let mut dec_bssl = [0u16; N];
    let ok = _byte_decode_bssl_(&enc, &mut dec_bssl, DU);
    assert!(ok);
    assert_eq!(dec, dec_bssl);
}

#[test]
fn test_byte_encode_decode_4() {
    for _i in 0..1024 {
        let f = gen_random_u16_modq_array(0xFFFF);
        let mut enc = [0u8; 32 * 4usize];
        let mut enc_bssl = [0u8; 32 * 4usize];
        byte_encode_4(f, &mut enc);
        _byte_encode_bssl_(f, &mut enc_bssl, 4);
        assert_eq!(enc, enc_bssl);

        let mut dec = [0u16; N];
        byte_decode_4(&enc, &mut dec);
        let mut dec_bssl = [0u16; N];
        let ok = _byte_decode_bssl_(&enc, &mut dec_bssl, 4);
        assert!(ok);
        assert_eq!(dec, dec_bssl);

        let mut dec_go = [0u16; N];
        _byte_decode_go_crypto_(&enc, &mut dec_go, 4);
        assert_eq!(dec, dec_go);
    }
}

#[test]
fn test_byte_encode_decode_5() {
    for _i in 0..1024 {
        let f = gen_random_u16_modq_array(0xFFFF);
        let mut enc = [0u8; 32 * 5usize];
        let mut enc_bssl = [0u8; 32 * 5usize];
        byte_encode_5(f, &mut enc);
        _byte_encode_bssl_(f, &mut enc_bssl, 5);
        assert_eq!(enc, enc_bssl);

        let mut dec = [0u16; N];
        byte_decode_5(&enc, &mut dec);
        let mut dec_bssl = [0u16; N];
        let ok = _byte_decode_bssl_(&enc, &mut dec_bssl, 5);
        assert!(ok);
        assert_eq!(dec, dec_bssl);

        let mut dec_go = [0u16; N];
        _byte_decode_go_crypto_(&enc, &mut dec_go, 5);
        assert_eq!(dec, dec_go);
    }
}

#[test]
fn test_byte_encode_decode_10() {
    for _i in 0..1024 {
        let f = gen_random_u16_modq_array(0xFFFF);
        let mut enc = [0u8; 32 * 10usize];
        let mut enc_bssl = [0u8; 32 * 10usize];
        byte_encode_10(f, &mut enc);
        _byte_encode_bssl_(f, &mut enc_bssl, 10);
        assert_eq!(enc, enc_bssl);

        let mut dec = [0u16; N];
        byte_decode_10(&enc, &mut dec);
        let mut dec_bssl = [0u16; N];
        let ok = _byte_decode_bssl_(&enc, &mut dec_bssl, 10);
        assert!(ok);
        assert_eq!(dec, dec_bssl);

        let mut dec_go = [0u16; N];
        _byte_decode_go_crypto_(&enc, &mut dec_go, 10);
        assert_eq!(dec, dec_go);
    }
}

#[test]
fn test_byte_encode_decode_11() {
    for _i in 0..1024 {
        let f = gen_random_u16_modq_array(0xFFFF);
        let mut enc = [0u8; 32 * 11usize];
        let mut enc_bssl = [0u8; 32 * 11usize];
        byte_encode_11(f, &mut enc);
        _byte_encode_bssl_(f, &mut enc_bssl, 11);
        assert_eq!(enc, enc_bssl);

        let mut dec = [0u16; N];
        byte_decode_11(&enc, &mut dec);
        let mut dec_bssl = [0u16; N];
        let ok = _byte_decode_bssl_(&enc, &mut dec_bssl, 11);
        assert!(ok);
        assert_eq!(dec, dec_bssl);

        let mut dec_go = [0u16; N];
        _byte_decode_go_crypto_(&enc, &mut dec_go, 11);
        assert_eq!(dec, dec_go);
    }
}

#[test]
fn test_byte_encode_decode_12() {
    for _i in 0..2038 {
        let f = gen_random_u16_modq_array(0xFFFF);
        let mut enc = [0u8; 32 * 12usize];
        let mut enc_bssl = [0u8; 32 * 12usize];
        byte_encode_12(f, &mut enc);
        _byte_encode_bssl_(f, &mut enc_bssl, 12);
        assert_eq!(enc, enc_bssl);

        let mut dec = [0u16; N];
        byte_decode_12(&enc, &mut dec);

        let mut dec_go = [0u16; N];
        _byte_decode_go_crypto_(&enc, &mut dec_go, 12);
        assert_eq!(dec, dec_go);

        let mut dec_bssl = [0u16; N];
        let ok = _byte_decode_bssl_(&enc, &mut dec_bssl, 12);
        assert!(ok);
        assert_eq!(dec, dec_bssl);
    }
}

// Decoding an encoding gives back each coefficient modulo 2^d.
#[test]
fn decode_of_encode_keeps_low_bits() {
    let mut f = [0u16; N];
    for i in 0..N {
        f[i] = (i as u16).wrapping_mul(2654) ^ 0xA5C3;
    }
    for d in [1u8, 4, 5, 10, 11, 12] {
        let mut enc = vec![0u8; 32 * d as usize];
        byte_encode(f, &mut enc, d);
        let mut dec = [0u16; N];
        byte_decode(&enc, &mut dec, d);
        for i in 0..N {
            let low = f[i] % (1u16 << d);
            let expected = if d == 12 { low % 3329 } else { low };
            assert_eq!(dec[i], expected);
        }
    }
}

// Encoding a decoding gives back the bytes (for d = 12, bytes whose values lie below q).
#[test]
fn encode_of_decode_gives_back_bytes() {
    for d in [1u8, 4, 5, 10, 11] {
        let mut b = vec![0u8; 32 * d as usize];
        for (i, x) in b.iter_mut().enumerate() {
            *x = (i as u8).wrapping_mul(37).wrapping_add(11);
        }
        let mut dec = [0u16; N];
        byte_decode(&b, &mut dec, d);
        let mut enc = vec![0u8; 32 * d as usize];
        byte_encode(dec, &mut enc, d);
        assert_eq!(enc, b);
    }
}

#[test]
fn byte_encode_1_of_alternating_bits() {
    let mut f = [0u16; N];
    for i in 0..N {
        f[i] = (i % 2) as u16;
    }
    let mut enc = [0u8; 32];
    byte_encode_1(f, &mut enc);
    assert_eq!(enc, [0xAAu8; 32]);
}

#[test]
fn byte_encode_12_two_coefficients() {
    let mut f = [0u16; N];
    f[0] = 0x123;
    f[1] = 0xABC;
    let mut enc = [0u8; 384];
    byte_encode_12(f, &mut enc);
    assert_eq!(enc[0..3], [0x23, 0xC1, 0xAB]);
    assert!(enc[3..].iter().all(|&x| x == 0));
    let mut dec = [0u16; N];
    byte_decode_12(&enc, &mut dec);
    assert_eq!(dec, f);
}

// The checking decoder refuses an encoding with a value of q or more, after writing
// the values before it.
#[test]
fn byte_decode_bssl_refuses_values_of_q_or_more() {
    let mut f = [5u16; N];
    f[3] = 3329;
    let mut enc = [0u8; 384];
    byte_encode_12(f, &mut enc);
    let mut dec = [7u16; N];
    let ok = _byte_decode_bssl_(&enc, &mut dec, 12);
    assert!(!ok);
    assert_eq!(dec[0..3], [5, 5, 5]);
    assert!(dec[3..].iter().all(|&x| x == 7));
}

// Bytes after the first 32 d of the output buffer are left alone.
#[test]
fn byte_encode_keeps_tail() {
    let f = [0x3FFu16; N];
    let mut enc = [0xEEu8; 330];
    byte_encode(f, &mut enc, 10);
    assert!(enc[..320].iter().all(|&x| x == 0xFF));
    assert!(enc[320..].iter().all(|&x| x == 0xEE));
}

// ByteDecode_12 reduces each 12-bit value modulo q: FF 0F holds 4095, which is 766 mod q.
#[test]
fn byte_decode_12_reduces_modulo_q() {
    let mut b = [0u8; 384];
    b[0] = 0xFF;
    b[1] = 0x0F;
    let mut f = [1u16; N];
    byte_decode_12(&b, &mut f);
    assert_eq!(f[0], 766);
    assert!(f[1..].iter().all(|&x| x == 0));
    let mut g = [1u16; N];
    byte_decode(&b, &mut g, 12);
    assert_eq!(f, g);
}
