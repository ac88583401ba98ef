//! Simulation of the sum-check protocol and of the GKR protocol over layered
//! arithmetic circuits, on the scalar field of BLS12-381.
//!
//! - [`field`]: field elements, whose arithmetic is done by arkworks.
//! - [`arith`]: sums over ranges of integers and modular-arithmetic lemmas.
//! - [`mle_spec`]: the mathematics of multilinear extensions.
//! - [`mle`]: dense and sparse multilinear extensions and their evaluation.
//! - [`poly`]: sparse univariate polynomials.
//! - [`sumcheck`]: the sum-check provers and verifier.
//! - [`gkr`]: circuits, wiring predicates and the GKR prover, verifier and driver.
//! - [`bench`]: the protocol runs the benchmarks time.
//! - [`random`]: the seeded generators everything random is drawn from.
//! - [`timing`]: prover/verifier time accounting.
//! - [`util`]: small helpers shared across the crate.
pub mod arith;
pub mod bench;
pub mod mle;
pub mod mle_spec;
pub mod poly;
pub mod field;
pub mod gkr;
pub mod random;
pub mod sumcheck;
pub mod timing;
pub mod util;
