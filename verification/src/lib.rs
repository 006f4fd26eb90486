//! Prime-field arithmetic, univariate polynomials with Lagrange
//! interpolation, and Shamir threshold secret sharing built on both.

pub mod euclid;
pub mod field;
pub mod interp;
pub mod modarith;
pub mod poly;
pub mod polyspec;
pub mod roots;
pub mod sss;

pub use euclid::multiplicative_inverse;
pub use field::{SampleFF, SampleFFE};
pub use poly::{add_list, UniPoly};
pub use sss::SSS;

use vstd::prelude::*;

verus! {

/// The error kinds reported by every fallible operation in this crate.
#[derive(Debug, Clone, Copy, PartialEq, Eq)]
pub enum FieldError {
    /// A field was asked for with a modulus below 2.
    InvalidModulus,
    /// An arithmetic operation combined elements of distinct fields.
    DifferentField,
    /// An inverse was requested for a value not coprime with the modulus.
    NoInverse,
    /// An interpolation received a repeated x-coordinate.
    DuplicatePoint,
}

} // verus!
