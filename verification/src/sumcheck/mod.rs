//! The sum-check protocol over one GKR layer.
//!
//! The prover/verifier interfaces ([`protocol`]), the per-layer instance
//! ([`instance`]), a [`naive`] prover that recomputes the sum from scratch
//! every round, a linear-time [`fast`] prover and the
//! [`standard_verifier`]. [`state`] holds the mathematics every prover is
//! proved against, [`tables`] what the linear-time prover's tables hold.
pub mod fast;
pub mod instance;
pub mod naive;
pub mod protocol;
pub mod state;
pub mod tables;
pub mod standard_verifier;
