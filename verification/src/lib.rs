//! Verified fixed-point arithmetic, trigonometry, Fourier transform and a
//! multi-token ledger.

pub mod wide;
pub mod abdk;
pub mod erc6909;
pub mod trig;
pub mod fourier;
