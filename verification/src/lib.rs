//! Ledger-resident economic simulation for non-fungible "miner" tokens.
//!
//! Miner tokens accumulate hash-power that is aggregated per owner and used
//! to run a periodic weighted lottery selecting a block producer, while a
//! second resource ("power") is consumed by each miner over discrete epochs
//! and must be scheduled, refunded, and reconciled.
//!
//! The pieces, leaf first: [`smap`] and [`sset`] hold the verified
//! string-keyed containers; [`ledger`] the per-owner hash-power aggregates
//! with their conserved total; [`scheduler`] the epoch-indexed power
//! events; [`state`] the contract state and the cross-structure invariants
//! every operation preserves; [`index`], [`transfer`], [`mint`], [`custom`]
//! and [`mining`] the operations; [`laws`] the properties proved across
//! operations.
//!
//! The host ledger runtime (caller identity, block height, randomness,
//! persistent storage, event logs) is the embedder's concern: every entry
//! point takes those as plain values and returns plain values.

pub mod custom;
pub mod index;
pub mod internal;
pub mod laws;
pub mod ledger;
pub mod mining;
pub mod mint;
pub mod nft_metadata;
pub mod scheduler;
pub mod state;
pub mod smap;
pub mod sset;
pub mod transfer;
pub mod types;
