//! Peer identifiers and network addresses as the core logic sees them.
//!
//! The identity layer derives a stable identifier from a peer's public key;
//! the logic in this crate only ever compares identifiers and never reads
//! the key material, so an identifier is carried as a plain integer handle.
//! Addresses likewise: discovery tracks which addresses of a peer are still
//! fresh, but never interprets them, so an address is a plain handle too.

use vstd::prelude::*;

verus! {

/// A stable identifier for a remote or local peer, derived from its public
/// key by the identity layer. Two peers are the same exactly when their
/// identifiers are equal.
#[derive(Clone, Copy, PartialEq, Eq, Structural, Debug)]
pub struct PeerId {
    pub id: u64,
}

/// A handle for a reachable network address of a peer. Discovery tracks
/// per-address freshness; the logic never reads the address itself.
pub type Addr = u64;

impl PeerId {
    /// Wraps a raw identifier handle.
    pub fn new(id: u64) -> (p: PeerId)
        ensures
            p.id == id,
    {
        PeerId { id }
    }
}

} // verus!
