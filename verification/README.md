# mlkem

K-PKE, the public-key encryption scheme inside ML-KEM (FIPS 203), for the
ML-KEM-768 parameters (k = 3, eta1 = eta2 = 2, du = 10, dv = 4), written in
Verus. Every function states its result in its contract, over mathematical
models (integers, sequences), and Verus proves the code against it.

Layout of `src/`:

- `params.rs`: q, n and the parameter set.
- `field.rs`: reduction modulo q (Barrett), Compress_d and Decompress_d, and the
  field element type; laws on compress/decompress round trips.
- `codec.rs`: ByteEncode_d and ByteDecode_d for d in {1, 4, 5, 10, 11, 12}
  (ByteDecode_12 reduces modulo q), plus two bit-serial codecs; laws that
  decoding undoes encoding and back.
- `ring.rs`: polynomials of R_q, their encodings, and SamplePolyCBD_eta.
- `ntt.rs`: NTT, NTT^-1, arithmetic in T_q (every product reduced into
  `[0, q)`), SampleNTT on the SHAKE128 stream and on given stream bytes; laws
  that NTT^-1 undoes NTT and that the transform is additive.
- `roots.rs`: the proof that the twiddle and base-case tables are the powers of
  17 that FIPS 203 defines them to be.
- `sampler.rs`, `prf.rs`: SHAKE128/SHAKE256 readers, SHA3-256/512, PRF_eta and
  the secret samplers. The hash functions come from the `sha3` crate; their
  contracts name the digests and output streams rather than restating Keccak.
- `pke.rs`: K-PKE.KeyGen (from the seed d, or from the seeds rho and sigma),
  K-PKE.Encrypt and K-PKE.Decrypt, with contracts
  that give the exact bytes of keys, ciphertexts and messages.
- `decrypt.rs`: the decryption key as the decrypting side holds it.
- `convolution.rs`: what the NTT computes: coefficient `2i + t` is the sum of
  `f[2j + t] zeta^((2 BitRev7(i) + 1) j)`, so that residue `i` is `f` modulo
  `X^2 - zeta^(2 BitRev7(i) + 1)`; and hence that the NTT turns the product of
  R_q = Z_q[X]/(X^256 + 1) into the product of T_q.
- `tq.rs`: products and sums in T_q and their ring laws (commutativity,
  associativity, distributivity, transposition of a matrix product).
- `correct.rs`: the correctness of K-PKE: decryption of an encryption gives the
  message plus the noise `e^T y - s^T (e1 + (u' - u)) + e2 + (v' - v)` in R_q,
  and hence the message itself whenever every noise coefficient lies within
  about q/4 of 0.

`app/main.rs` runs key generation, encryption and decryption once.
