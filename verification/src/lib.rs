//! An exponent range-check AIR over the Mersenne-31 field.
//!
//! The library builds a witness trace for repeated multiplication by a fixed
//! generator modulo a fixed modulus, and evaluates the polynomial constraints
//! that a valid trace must satisfy, including a bit-split encoding of the
//! comparison "remainder < modulus". A polynomial-commitment backend consumes
//! the trace and the constraint residuals; it stays outside this crate.

pub mod bits;
pub mod constraints;
pub mod field;
pub mod trace;
