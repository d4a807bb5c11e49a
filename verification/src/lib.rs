//! Storage core of a nostr relay: an append-only event log, a family of
//! secondary indexes over it, a tombstone set for deleted events, and a
//! version-numbered migration engine that upgrades older databases in place.
//!
//! The log and the indexes live in an embedded key-ordered store (LMDB via
//! the `heed` crate); every rule about key layout, index coherence and the
//! migration ladder is verified here against a mathematical model of the
//! table contents.

use vstd::prelude::*;

pub mod bytes;
pub mod event;
pub mod codec;
pub mod store;
pub mod keys;
pub mod ops;
pub mod migrate;
pub mod coherence;
pub mod scan;
pub mod web;

verus! {

/// The schema generation this build understands; databases at a lower level
/// are upgraded step by step on `Store::migrate`.
pub const CURRENT_MIGRATION_LEVEL: u32 = 5;

} // verus!
