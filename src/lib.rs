//! A set-membership accumulator over the class group of an imaginary
//! quadratic field: binary quadratic forms, an affine monoid over them, a
//! sparse tensor folded into a global root, and the prover's request logic.

pub mod bignum;
pub mod error;
pub mod algebra;
pub mod hashing;
pub mod primes;
pub mod param;
pub mod affine;
pub mod tensor;
pub mod folding;
pub mod wire;
pub mod service;
pub mod laws;
pub mod codec;
