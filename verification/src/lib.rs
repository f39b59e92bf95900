//! Interactive arguments over the scalar field of Curve25519, made
//! non-interactive with a Fiat-Shamir transcript.
//!
//! - [`field`]: the field, and what is taken on trust of its arithmetic.
//! - [`fiatshamir`]: the transcript, with its implementation for Merlin.
//! - [`univariate`] and [`multilinear`]: polynomials in one variable by their
//!   values at `0, 1, ..., d`, and multilinear extensions by their values on
//!   the hypercube.
//! - [`linearsumcheck`] and [`sumcheck`]: the sumcheck argument.
//! - [`grandproduct`]: the grand-product argument, built on the sumcheck.
//! - [`spark`]: the argument for a sparse matrix, built on both.
//! - [`matmul`]: the argument for a product of matrices, built on the
//!   sumcheck.
//!
//! Every prover and verifier is specified by a function of its input and of
//! the state of the transcript. On those functions the crate proves that the
//! arguments are complete ([`completeness`], [`product_completeness`],
//! [`spark_completeness`]) and deterministic ([`determinism`]); the
//! mathematics for it is in [`algebra`], [`differences`], [`interpolation`]
//! and [`folding`].

pub mod algebra;
pub mod completeness;
pub mod determinism;
pub mod differences;
pub mod fiatshamir;
pub mod field;
pub mod folding;
pub mod grandproduct;
pub mod interpolation;
pub mod linearsumcheck;
pub mod matmul;
pub mod multilinear;
pub mod product_completeness;
pub mod spark;
pub mod spark_completeness;
pub mod sumcheck;
pub mod univariate;
