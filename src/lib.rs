//! Reassembly of a slot's ledger entries from erasure-coded shred packets:
//! parsing, deduplication, per-slot and per-FEC-set state, recovery of
//! missing data fragments, ordered entry extraction and eviction of old slots.
pub mod wire;
pub mod recovery;
pub mod fec;
pub mod entries;
pub mod slot;
pub mod tracker;
pub mod engine;
