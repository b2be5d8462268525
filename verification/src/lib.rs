//! A reorganization-aware state-folding engine over an append-mostly ledger
//! whose tip may rewrite.
//!
//! The crate keeps an in-memory canonical chain of block headers
//! ([`archive::BlockArchive`]), reconciles it against observed tips and
//! multicasts `NewBlock` / `Reorg` events to depth-parameterized
//! subscriptions ([`subscriber::BlockSubscriber`]), and derives typed folded
//! states at any canonical block with memoization and single-flight slots
//! ([`engine::StateFoldEnvironment`]). Ledger access for user fold code is
//! restricted to a fixed block or a half-open block range
//! ([`access`]).

pub mod types;
pub mod archive;
pub mod subscriber;
pub mod foldable;
pub mod cache;
pub mod engine;
pub mod access;
pub mod mocks;
