//! Fixed-capacity signed decimal integers with verified arithmetic.

pub mod bigint;
pub mod digits;
pub mod laws;
pub mod text;

pub use crate::bigint::BigInt;
