//! A peer registry: an in-memory index of network peers keyed by a unique
//! identifier, with three interchangeable storage backends and a fair,
//! round-robin predicate search.

use vstd::prelude::*;

pub mod id;
pub mod peer;
pub mod store;
pub mod btree_manager;
pub mod hash_manager;
pub mod vec_manager;

pub use btree_manager::BTreeMapPeerManager;
pub use hash_manager::HashMapPeerManager;
pub use id::PeerId;
pub use peer::{ConnectionContext, Peer, PeerEntry};
pub use vec_manager::VecPeerManager;

verus! {

/// A planar coordinate pair.
#[derive(Clone, Copy, Debug)]
pub struct Point {
    pub x: usize,
    pub y: usize,
}

} // verus!
