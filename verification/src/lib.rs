//! Zero-knowledge proof building blocks over the BLS12-381 scalar field:
//! field arithmetic, R1CS, polynomials, multilinear extensions, sum-check,
//! QAP, Spartan and polynomial commitments.
pub mod field;
pub mod fields;
pub mod r1cs;
pub mod mle;
pub mod poly;
pub mod qap;
pub mod sumcheck;
pub mod spartan;
pub mod commitments;
pub mod halving;
pub mod openings;
pub mod roots;
pub mod univariate;
