//! On-chain logic for a two-player rock-paper-scissors game.
//!
//! A host challenges an opponent by address and commits a move; the challenged
//! opponent answers with a move of their own, and the contract computes and
//! reports the outcome. At most one game may be pending per directed
//! (host, opponent) pair, and an administrator maintains a blacklist of
//! addresses that may not start games.
//!
//! The crate is organised around four pieces:
//! - [`state`]: the data model (moves, outcomes, game records, configuration),
//! - [`store`]: the ordered game store keyed by the (host, opponent) pair,
//! - [`access`]: the admin capability and the blacklist,
//! - [`contract`]: request-level orchestration (start, respond, queries).
//!
//! Message dispatch against a real host environment (binary serialisation,
//! address-format validation, persistent storage) is left to a thin exterior
//! that holds a [`contract::Contract`] value and forwards requests to it.

pub mod access;
pub mod contract;
pub mod error;
pub mod msg;
pub mod order;
pub mod state;
pub mod store;
