use mlkem::decrypt;
use mlkem::pke::{key_gen, key_gen_from_seeds, DecryptionKey, EncryptionKey};
use mlkem::prf::{prf_eta1, prf_eta2, sha3_256, sha3_512, shake256};
use mlkem::params::{DU, DV, N, RANK};
use mlkem::ring::Poly;
use mlkem::sampler::{sample_secret_eta1, sample_secret_eta2, XOF128, XOF256};

fn hex(b: &[u8]) -> String {
    b.iter().map(|x| format!("{:02x}", x)).collect()
}

fn digest(b: &[u8]) -> String {
    let mut h = [0u8; 32];
    sha3_256(b, &mut h);
    hex(&h)
}

#[test]
fn sha3_and_shake_known_answers() {
    let mut h = [0u8; 32];
    sha3_256(b"abc", &mut h);
    assert_eq!(hex(&h), "3a985da74fe225b2045c172d6bd390bd855f086e3e9d525b46bfe24511431532");
    let data: Vec<u8> = (0u8..33).collect();
    let mut g = [0u8; 64];
    sha3_512(&data, &mut g);
    assert_eq!(
        hex(&g),
        "f55d3aa4a656d91b04900111a8edff4c7aa7ebef8717f9679be4c2852fa098ed\
         8050e70477869e8ad13f62f70436e429e83dd9c268cc1f4d6e410004317a10aa"
    );
    let mut j = [0u8; 32];
    shake256(b"abc", &mut j);
    assert_eq!(hex(&j), "483366601360a8771c6863080cc4114d8db44530f8f1e1ee4f94ea37e78b5739");
}

// PRF_eta(s, b) = SHAKE256(s || b), 128 bytes.
#[test]
fn prf_known_answer() {
    let s = [7u8; 32];
    let mut h1 = [0u8; 128];
    prf_eta1(&s, 5, &mut h1);
    assert_eq!(
        hex(&h1),
        "e1dd6d7a5517bd680944a0edda95bd66809266e71e1b95409c083d3bed4081b7\
         0aa21da574e7d8da3dfd79b7458bd02dd170f49adc04b4b8720d1e463593aad5\
         d6716f67cd05be33ea15aad6d0ee3be9aadd1bf440c0608a5ea05b0f111c2171\
         b3ff7d4f0284f658db364e55d818ff607bbb699b34b54c9621c64ceee230a679"
    );
    let mut h2 = [0u8; 128];
    prf_eta2(&s, 5, &mut h2);
    assert_eq!(h1, h2);
    prf_eta2(&s, 6, &mut h2);
    assert_ne!(h1, h2);
}

// A reader hands out the stream in order, whatever the lengths of the reads.
#[test]
fn xof_reads_are_contiguous() {
    let input: Vec<u8> = (0u8..34).collect();
    let mut x = XOF128::absorb_finalize(&input);
    let mut a = [0u8; 5];
    let mut b = [0u8; 7];
    x.squeeze(&mut a);
    x.squeeze(&mut b);
    let mut y = XOF128::absorb_finalize(&input);
    let mut all = [0u8; 12];
    y.squeeze(&mut all);
    assert_eq!(hex(&all), "42b3c5cbdc45441a59489b99");
    assert_eq!(all[..5], a);
    assert_eq!(all[5..], b);
    let mut z = XOF256::absorb_finalize(b"abc");
    let mut c = [0u8; 16];
    let mut d = [0u8; 16];
    z.squeeze(&mut c);
    z.squeeze(&mut d);
    assert_eq!(hex(&c) + &hex(&d), "483366601360a8771c6863080cc4114d8db44530f8f1e1ee4f94ea37e78b5739");
}

// Secret polynomials have coefficients in {-2, ..., 2} mod q, and the counter moves on by k.
#[test]
fn secret_sampling() {
    let sigma = [3u8; 32];
    let mut n = 4u8;
    let mut s = [Poly::default(); RANK];
    sample_secret_eta1(sigma, &mut n, &mut s);
    assert_eq!(n, 4 + RANK as u8);
    for p in s.iter() {
        assert!(p.coeff().iter().all(|&x| x <= 2 || x >= 3327));
    }
    let mut e = Poly::default();
    sample_secret_eta2(sigma, 5, &mut e);
    assert_eq!(e.coeff(), s[1].coeff());
    assert_ne!(s[0].coeff(), s[1].coeff());
}

// K-PKE.KeyGen against a direct transcription of FIPS 203, Alg. 13.
#[test]
fn key_gen_known_answers() {
    let (ek, dk) = key_gen([0u8; 32]);
    assert_eq!(ek.key_bytes().len(), 384 * RANK + 32);
    assert_eq!(dk.key_bytes().len(), 384 * RANK);
    assert_eq!(digest(ek.key_bytes()), "07f81a8b0e266a3ee92d3a63cdae5cff921905544c9dd797a849e1d054180eca");
    assert_eq!(digest(dk.key_bytes()), "334a8b60cf2cbce485b7a7e2be7ab2839f3cb6c4cce3dfd00c0d9bf2b53684a8");
    assert_eq!(
        hex(&ek.key_bytes()[384 * RANK..]),
        "6d3ae406763c50457d1481402aafc7e23f43f9d1d7c0af7060ac1daa9ecb0e67"
    );

    let d: [u8; 32] = std::array::from_fn(|i| i as u8);
    let (ek2, dk2) = key_gen(d);
    assert_eq!(digest(ek2.key_bytes()), "a24e16d8f8f9383a95b77050f4d9fd2f5733eec1d63ef3c23ebf9918173669a7");
    assert_eq!(digest(dk2.key_bytes()), "4c6954b8b0e3268ef19ae0eb25efdacdd504d6fa2afa6bb6f49f4a951716c96a");
    assert_eq!(hex(&dk2.key_bytes()[..8]), "27d2a77f33756f61");
}

// The key pair is a function of the seed.
#[test]
fn key_gen_is_deterministic() {
    let d = [9u8; 32];
    let (ek1, dk1) = key_gen(d);
    let (ek2, dk2) = key_gen(d);
    assert_eq!(ek1, ek2);
    assert_eq!(dk1.key_bytes(), dk2.key_bytes());
    let (ek3, _) = key_gen([10u8; 32]);
    assert_ne!(ek1, ek3);
}

// Every encoded coefficient of both keys is below q.
#[test]
fn key_gen_encodes_reduced_coefficients() {
    let (ek, dk) = key_gen([1u8; 32]);
    for key in [&ek.key_bytes()[..384 * RANK], dk.key_bytes()] {
        for chunk in key.chunks(3) {
            let x = chunk[0] as u16 | ((chunk[1] as u16 & 0xF) << 8);
            let y = (chunk[1] as u16 >> 4) | ((chunk[2] as u16) << 4);
            assert!(x < 3329 && y < 3329);
        }
    }
    assert_eq!(N, 256);
}

#[test]
fn key_constructors() {
    let ek = EncryptionKey::new([1u8; 1184], [2u8; 32]);
    assert_eq!(ek.key_bytes(), &[1u8; 1184][..]);
    assert_eq!(ek.clone(), ek);
    let dk = DecryptionKey::new([3u8; 1152]);
    assert_eq!(dk.key_bytes(), &[3u8; 1152][..]);
    let dk2 = decrypt::DecryptionKey::new([4u8; 1152]);
    assert_eq!(dk2.key_bytes(), &[4u8; 1152][..]);
}

#[test]
fn test_generic_main() {
    for _ in 0..2048 {
        let mut d: [u8; 32] = [0u8; 32];
        getrandom::fill(&mut d).expect("random bytes");
        let (pk, dk) = key_gen(d);
        let mut r: [u8; 32] = [0u8; 32];
        getrandom::fill(&mut r).expect("random bytes");
        let mut m: [u8; 32] = [0u8; 32];
        getrandom::fill(&mut m).expect("random bytes");
        let c: [u8; 32 * (DU * RANK as u8 + DV) as usize] = pk.encrypt(m, r);
        let md = dk.decrypt(c);
        assert_eq!(md, m);
    }
}

// K-PKE.Encrypt against a direct transcription of FIPS 203, Alg. 14.
#[test]
fn encrypt_known_answer() {
    let (ek, dk) = key_gen([0u8; 32]);
    assert!(ek.is_valid());
    assert!(dk.is_valid());
    let c = ek.encrypt([128u8; 32], [1u8; 32]);
    assert_eq!(c.len(), 1088);
    assert_eq!(digest(&c), "e335f8b5f6f9a7e074adc0cc4b8578bc34e7394d207532c2ddadab04e1656706");
    assert_eq!(dk.decrypt(c), [128u8; 32]);

    let d: [u8; 32] = std::array::from_fn(|i| i as u8);
    let (ek2, dk2) = key_gen(d);
    let c2 = ek2.encrypt([128u8; 32], [1u8; 32]);
    assert_eq!(digest(&c2), "b853d7575d22f85f03b6ef9156c53a0fa95b5c5b0ad98b1bc80b2c74e30c30c1");
    assert_eq!(dk2.decrypt(c2), [128u8; 32]);
}

// Encryption is a function of the key, the message and the randomness.
#[test]
fn encrypt_is_deterministic() {
    let (ek, dk) = key_gen([5u8; 32]);
    let m: [u8; 32] = std::array::from_fn(|i| (i * 7) as u8);
    let c1 = ek.encrypt(m, [2u8; 32]);
    let c2 = ek.encrypt(m, [2u8; 32]);
    assert_eq!(c1, c2);
    let c3 = ek.encrypt(m, [3u8; 32]);
    assert_ne!(c1, c3);
    assert_eq!(dk.decrypt(c1), m);
    assert_eq!(dk.decrypt(c3), m);
}

// The modulus check refuses a key with a coefficient of q or more.
#[test]
fn key_validity_checks() {
    let (ek, dk) = key_gen([6u8; 32]);
    let mut bad = [0u8; 1184];
    bad.copy_from_slice(ek.key_bytes());
    // first coefficient = 0xFFF
    bad[0] = 0xFF;
    bad[1] |= 0x0F;
    assert!(!EncryptionKey::new(bad, [0u8; 32]).is_valid());
    let mut bad_dk = [0u8; 1152];
    bad_dk.copy_from_slice(dk.key_bytes());
    bad_dk[1151] = 0xFF;
    assert!(!DecryptionKey::new(bad_dk).is_valid());
    assert!(EncryptionKey::new([0u8; 1184], [0u8; 32]).is_valid());
    assert!(DecryptionKey::new([0u8; 1152]).is_valid());
}

// With the zero key, the ciphertext of the zero message decrypts to zero.
#[test]
fn decrypt_zero_key() {
    let dk = DecryptionKey::new([0u8; 1152]);
    let c = [0u8; 1088];
    assert_eq!(dk.decrypt(c), [0u8; 32]);
    // v' = Decompress_4(8) = 1665 everywhere: every bit of the message is 1
    let mut c2 = [0u8; 1088];
    for b in c2[960..].iter_mut() {
        *b = 0x88;
    }
    assert_eq!(dk.decrypt(c2), [0xFFu8; 32]);
}

// Decryption gives back the message for fixed seeds, messages and randomness.
#[test]
fn decrypt_recovers_message_fixed_inputs() {
    for s in 0u8..8 {
        let d: [u8; 32] = std::array::from_fn(|i| (i as u8).wrapping_mul(7).wrapping_add(s));
        let (ek, dk) = key_gen(d);
        let m: [u8; 32] = std::array::from_fn(|i| (i as u8).wrapping_mul(37) ^ s);
        let r: [u8; 32] = std::array::from_fn(|i| (i as u8).wrapping_add(s.wrapping_mul(29)));
        let c = ek.encrypt(m, r);
        assert_eq!(dk.decrypt(c), m);
    }
}

// KeyGen from d is KeyGen from the seeds (rho, sigma) = G(d || k).
#[test]
fn key_gen_from_seeds_matches_key_gen() {
    let d: [u8; 32] = std::array::from_fn(|i| (i as u8).wrapping_mul(11));
    let mut data = [0u8; 33];
    data[..32].copy_from_slice(&d);
    data[32] = RANK as u8;
    let mut g = [0u8; 64];
    sha3_512(&data, &mut g);
    let rho: [u8; 32] = g[..32].try_into().unwrap();
    let sigma: [u8; 32] = g[32..].try_into().unwrap();
    let (ek1, dk1) = key_gen(d);
    let (ek2, dk2) = key_gen_from_seeds(rho, sigma);
    assert_eq!(ek1.key_bytes(), ek2.key_bytes());
    assert_eq!(dk1.key_bytes(), dk2.key_bytes());
}

// Encrypt accepts a key that fails the modulus check: ByteDecode_12 reduces its values modulo
// q, so all-0xFF blocks (4095) act as blocks of 766.
#[test]
fn encrypt_reduces_key_coefficients() {
    let ff = EncryptionKey::new([0xFFu8; 1184], [0xFFu8; 32]);
    assert!(!ff.is_valid());
    let mut block = [0u8; 384];
    mlkem::codec::byte_encode_12([766u16; N], &mut block);
    let mut key = [0xFFu8; 1184];
    for i in 0..RANK {
        key[384 * i..384 * (i + 1)].copy_from_slice(&block);
    }
    let reduced = EncryptionKey::new(key, [0xFFu8; 32]);
    assert!(reduced.is_valid());
    let m = [0x5Au8; 32];
    let r = [7u8; 32];
    assert_eq!(ff.encrypt(m, r), reduced.encrypt(m, r));
    let dk = DecryptionKey::new([0xFFu8; 1152]);
    assert!(!dk.is_valid());
    let _ = dk.decrypt(ff.encrypt(m, r));
}
