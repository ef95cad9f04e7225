//! A first-order Markov chain over interned tokens.
//!
//! A [`Chain`] learns empirical transition frequencies between consecutive
//! tokens of fed training sequences, bracketed by a designated start and end
//! sentinel, and generates new sequences by a weighted random walk driven by
//! a caller-seeded [`SplitMix64`] generator.

mod chain;
mod rng;
mod strings;
mod table;
mod token;

pub use chain::Chain;
pub use chain::ChainError;
pub use rng::SplitMix64;
pub use token::Token;
