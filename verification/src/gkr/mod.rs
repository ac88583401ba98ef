//! The GKR protocol over layered arithmetic circuits.
//!
//! [`circuit`] describes the wiring and evaluates it, [`predicates`] turns it
//! into per-layer add/mult predicates, and [`driver`] runs the full protocol,
//! one sum-check per layer, between a [`gkr_prover::GKRProver`] and a
//! [`gkr_verifier::GKRVerifier`]. [`identity`] holds the GKR identity the
//! protocol's completeness rests on.
pub mod circuit;
pub mod driver;
pub mod gkr_prover;
pub mod gkr_verifier;
pub mod identity;
pub mod predicates;
