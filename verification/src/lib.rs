//! A cross-chain oracle staking, reporting and dispute-settlement protocol
//! between two ledgers: an execution chain that custodies the staked asset
//! and hosts the staking, registry and governance contracts, and an
//! oracle-consumer chain that stores reported values and arbitrates
//! disputes. The chains communicate only through asynchronous, unordered
//! messages, modelled here as explicit outbox queues that a harness drains
//! and hands to the other chain's inbound handler.

pub mod codec;
pub mod store;
pub mod hashing;
pub mod params;
pub mod types;
pub mod consumer;
pub mod execution;
pub mod laws;
pub mod sample;
