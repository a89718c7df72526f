//! Truncated formal power series over the prime field of order 998244353.
//!
//! A series is held as the coefficients of its lowest terms; every coefficient
//! that is not stored is zero. The library offers the ring operations, the
//! derivative and the antiderivative, and the inverse, the logarithm, the
//! exponential and the integer powers of a series to a given precision.
//!
//! The field's arithmetic and the multiplication of coefficient sequences are
//! those of `ac_library`. Everything else is verified: each operation states
//! which series it returns, and the `laws` module states what holds between
//! the operations.
//!
//! - `field`, `units`: the field, and the proof that its nonzero elements have
//!   inverses.
//! - `sums`, `series`: power series with integer coefficients and their ring
//!   identities, over which the contracts are stated.
//! - `fps`, `convolution`: the series container and the ring operators.
//! - `inverse`, `calculus`, `log_exp`, `power`: the analytic operators.
//! - `checked`: the operators that are not defined on every series, with the
//!   test made at run time.

pub mod calculus;
pub mod checked;
pub mod convolution;
pub mod field;
pub mod fps;
pub mod inverse;
pub mod laws;
pub mod log_exp;
pub mod power;
pub mod series;
pub mod sums;
pub mod units;

pub use crate::checked::DomainError;
pub use crate::fps::{FPS, FPS998244353};
