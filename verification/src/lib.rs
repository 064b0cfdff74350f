//! Arbitrary-precision integer multiplication.
//!
//! A big integer is a sign together with a little-endian sequence of base
//! 2^32 digits.  This crate provides the digit configuration, the
//! carry-propagating scalar multiplication kernel, the schoolbook
//! vector-by-vector multiplication kernel, and the sign-aware entry points,
//! each with a verified contract relating the digit buffers to the integer
//! values they denote.

pub mod digit;
pub mod laws;
pub mod mul;
pub mod value;
