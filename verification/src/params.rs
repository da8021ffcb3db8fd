use vstd::prelude::*;

verus! {

/// The ML-KEM prime: 2^8 * 13 + 1.
pub const Q: u32 = 3329;
pub const QI32: i32 = 3329;
pub const QU32: u32 = 3329;
pub const QI64: i64 = 3329;

/// Number of coefficients of a ring element.
pub const N: usize = 256;
/// floor(q / 2)
pub const HALF_Q: u32 = 1664;
/// ceil(q / 2)
pub const HALF_Q_UP: u16 = 1665;
/// floor(2^24 / q)
pub const BARRETT_MULTIPLIER_24: i64 = 5039;
/// floor(2^32 / q)
pub const BARRETT_MULTIPLIER_32: i64 = 1290167;
pub const BARRETT_SHIFT_24: u64 = 24;
pub const BARRETT_SHIFT_32: i32 = 32;

/// Module rank k of the ML-KEM-768 parameter set.
pub const RANK: usize = 3;
pub const ETA1: u8 = 2;
pub const ETA2: u8 = 2;
pub const DU: u8 = 10;
pub const DV: u8 = 4;

} // verus!
