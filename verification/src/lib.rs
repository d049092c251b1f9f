//! Origin registry for a mesh of media-relay nodes.
//!
//! A publishing relay announces where a namespace's content can be fetched;
//! the registry computes, from the static relay topology, the set of next-hop
//! records every other relay must hold, and maintains those records in a
//! keyed store with expiring entries under an at-most-one-writer protocol.
//!
//! [`registry::Registry`] is that store, with time as an explicit instant on
//! every operation, and [`engine::announce`] drives the whole fan-out against
//! it. A deployment whose records live in an external keyed store instead
//! makes the same decisions through [`engine::announce_plan`],
//! [`registry::put_decision`] and [`keys::origin_key`], and performs only the
//! reads and writes they dictate.

use vstd::prelude::*;

pub mod engine;
pub mod errors;
pub mod keys;
pub mod origin;
pub mod registry;
pub mod relay;
pub mod topology;

verus! {

/// Seconds a registry entry lives unless refreshed by its owning relay.
pub const ORIGIN_TTL_SECS: u64 = 600;

} // verus!
