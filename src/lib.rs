//! An n-th order Markov chain over a caller-supplied event type.
//!
//! The chain learns, from training sequences, how often each event follows
//! each history of `order` events, and draws continuations at random with
//! probability proportional to those counts.
pub mod chain;
pub mod laws;
pub mod model;
mod sampling;

pub use chain::{MarkovChain, MarkovChainIter};
