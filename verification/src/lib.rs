//! A single-signature, descriptor-based wallet engine.
//!
//! The engine tracks spendable outputs and balances for two key-derivation
//! branches (external/receiving and internal/change), and builds fee-correct,
//! policy-constrained transactions and fee bumps from that state.
//! Cryptography (descriptor parsing and script derivation) is delegated to an
//! external library; everything the engine decides is stated in contracts and
//! verified.

pub mod bump;
pub mod errors;
pub mod laws;
pub mod tx_builder;
pub mod store;
pub mod types;
pub mod wallet;
