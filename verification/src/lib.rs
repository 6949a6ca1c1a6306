//! Synchronization core of a light blockchain-relay node.
//!
//! The crate keeps a fork-aware header tree with deterministic active-tip
//! selection (`chain`), drives a peer synchronization protocol over plain
//! inbound events and outbound commands, answers successor-block queries for
//! an external consumer, and dispatches body fetches through an injected
//! sampling capability (`sync`, `sampling`). Supporting modules hold an
//! ordered byte-key map (`btreemap`), elliptic-curve parameters (`ecc`) and
//! threshold-ECDSA payload bookkeeping types (`ecdsa`).

pub mod btreemap;
pub mod chain;
pub mod ecc;
pub mod ecdsa;
pub mod sampling;
pub mod sync;
