//! An in-memory pool of verified transactions, ordered by a pluggable scoring
//! policy, bounded in size and cost, and traversed through a readiness oracle.

pub mod candidates;
pub mod error;
pub mod index;
pub mod laws;
pub mod limits;
pub mod listener;
pub mod nonces;
pub mod order;
pub mod pool;
pub mod price;
pub mod ranking;
pub mod ready;
pub mod scoring;
pub mod senders;
pub mod traversal;
pub mod types;
pub mod verify;

pub use crate::candidates::Candidates;
pub use crate::error::Error;
pub use crate::limits::Options;
pub use crate::listener::{Event, Listener, NoopListener, Notice, Removal};
pub use crate::nonces::NonceTracker;
pub use crate::pool::Pool;
pub use crate::price::PriceScoring;
pub use crate::ready::{AlwaysReady, Readiness, Ready};
pub use crate::scoring::{Comparison, Scoring, ScoringChange, ScoringChoice};
pub use crate::types::{
    Address, SharedTransaction, SignedTransaction, UnverifiedTransaction, VerifiedTransaction,
    H256, U256,
};
pub use crate::verify::{NoopVerifier, Verifier};
