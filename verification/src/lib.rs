//! An anti-abuse engine for community chat servers.
//!
//! The engine watches a stream of moderation events (role and channel
//! mutations, kicks, bans, unbans), keeps them in an append-only action
//! ledger, and evaluates per-server rate-limit rules against that ledger.
//! When a rule's threshold is reached inside its sliding window, the engine
//! records the violation, marks the causing actions as consumed so that they
//! can never trigger the same rule again, and names the mitigation to carry
//! out against the offending actor.

pub mod access;
pub mod autocompletes;
pub mod errors;
pub mod handler;
pub mod limits;
pub mod seqs;
pub mod states;
pub mod store;
pub mod tasks;
pub mod utils;
