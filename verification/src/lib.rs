//! Analysis of square integer matrices: symmetry, exact determinant,
//! invariant factors of the quotient lattice modulo |det|, and exhaustive
//! enumeration of modular null vectors with a time-boxed display policy.

pub mod analysis;
pub mod arith;
pub mod determinant;
pub mod matrix;
pub mod search;
pub mod snf;
