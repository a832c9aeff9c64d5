//! Exact summation of floating-point expansions.
//!
//! An expansion is a sequence of IEEE 754 binary64 numbers, listed by
//! increasing magnitude, no two of which have a bit at the same place, and
//! which together stand for one real value. This crate adds two expansions
//! without rounding error.
//!
//! Every number is handled by its bit pattern (`u64`, as `f64::to_bits`
//! gives it). The modules, from the ground up:
//!
//! - `binary64`: how a bit pattern is read; a finite number is an integer
//!   multiple of 2^-1074, and the proofs count in that unit;
//! - `rounding`, `arith`: rounding to nearest, ties to even, and the sum and
//!   difference of two numbers, proved against that reading;
//! - `two_sum`: a rounded sum together with its rounding error;
//! - `expansion`: the sum of two expansions, `robust_sum`;
//! - `grid`, `nearest`, `exactness`: why the rounding error of a sum is a
//!   binary64 number that `two_sum` finds;
//! - `nonoverlap`, `summation`, `closure`: why the sum of two expansions is
//!   again an expansion, of the exact sum;
//! - `laws`: the shape of every sum, and the sums that come out exact in a
//!   single component.

pub mod binary64;
pub mod rounding;
pub mod arith;
pub mod two_sum;
pub mod expansion;
pub mod laws;
pub mod grid;
pub mod nearest;
pub mod nonoverlap;
pub mod exactness;
pub mod summation;
pub mod closure;

pub use expansion::{robust_sum, try_robust_sum, SumError};
