//! K-PKE building blocks of ML-KEM (FIPS 203) with machine-checked contracts.
pub mod params;
pub mod field;
pub mod codec;
pub mod ring;
pub mod ntt;
pub mod sampler;
pub mod prf;
pub mod pke;
pub mod decrypt;
pub mod roots;
pub mod tq;
pub mod correct;
pub mod convolution;
