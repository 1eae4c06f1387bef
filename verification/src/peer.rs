//! Peer records and connection contexts.
//!
//! A peer is an opaque record exposing its identifier; the registry shares
//! peers by reference-counted handle. A connection context pairs an outbound
//! gossip channel handle with a one-shot reply handle; its presence on an
//! entry means "currently connected".

use vstd::prelude::*;
use std::sync::Arc;
use crate::id::PeerId;

verus! {

/// Declares `tokio::sync::mpsc::UnboundedSender` so that connection contexts
/// can hold an outbound gossip channel handle. The registry never calls into
/// it; it only stores and returns the handle.
#[verifier::external_type_specification]
#[verifier::external_body]
#[verifier::reject_recursive_types(T)]
pub struct ExUnboundedSender<T>(tokio::sync::mpsc::UnboundedSender<T>);

/// Declares `futures_channel::oneshot::Sender` so that connection contexts
/// can hold a one-shot reply handle. The registry never calls into it; it
/// only stores and returns the handle.
#[verifier::external_type_specification]
#[verifier::external_body]
#[verifier::reject_recursive_types(T)]
pub struct ExOneshotSender<T>(futures_channel::oneshot::Sender<T>);

/// Relies on `Arc::clone` (std documentation: cloning produces another
/// pointer to the same allocation, so the clone carries the same value).
#[verifier::external_body]
pub(crate) fn clone_peer_handle(v: &Arc<Peer>) -> (r: Arc<Peer>)
    ensures
        r == *v,
{
    Arc::clone(v)
}

/// Relies on `rand::Rng::fill` on a `thread_rng` to fill a byte array;
/// nothing is promised of random bytes.
#[verifier::external_body]
fn random_bytes() -> [u8; 64] {
    let mut bytes = [0u8; 64];
    rand::Rng::fill(&mut rand::thread_rng(), &mut bytes[..]);
    bytes
}

/// The live-connection resources attached to a registered peer: an outbound
/// gossip channel handle and a single-use reply handle. Owned by whichever
/// subsystem established the connection; the registry only stores and
/// returns it.
pub struct ConnectionContext {
    /// Handle for outbound gossip-style messages.
    pub gossip: tokio::sync::mpsc::UnboundedSender<Vec<u8>>,
    /// Single-use completion handle for a one-shot reply.
    pub reply: futures_channel::oneshot::Sender<()>,
}

impl ConnectionContext {
    /// Packs the two channel handles of an established connection.
    pub fn new(
        gossip: tokio::sync::mpsc::UnboundedSender<Vec<u8>>,
        reply: futures_channel::oneshot::Sender<()>,
    ) -> (r: ConnectionContext)
        ensures
            r.gossip == gossip,
            r.reply == reply,
    {
        ConnectionContext { gossip, reply }
    }
}

/// An opaque peer record: an identifier plus protocol-defined payload bytes
/// that the registry never interprets.
pub struct Peer {
    id: PeerId,
    payload: [u8; 64],
}

impl Peer {
    /// The identifier under which this peer is registered, as a byte
    /// sequence.
    pub closed spec fn key(&self) -> Seq<u8> {
        self.id@
    }

    /// The peer's opaque payload bytes.
    pub closed spec fn payload_spec(&self) -> Seq<u8> {
        self.payload@
    }

    /// Builds a peer record from its identifier and payload.
    pub fn new(id: PeerId, payload: [u8; 64]) -> (r: Peer)
        ensures
            r.key() == id@,
            r.payload_spec() == payload@,
    {
        Peer { id, payload }
    }

    /// A peer with random identifier and payload, for fixtures.
    pub fn random() -> Peer {
        Peer { id: PeerId::new(random_bytes()), payload: random_bytes() }
    }

    /// Get the peer's id.
    pub fn id(&self) -> (r: &PeerId)
        ensures
            r@ == self.key(),
    {
        &self.id
    }
}

impl PeerId {
    /// A random identifier, for fixtures.
    pub fn random() -> PeerId {
        PeerId::new(random_bytes())
    }
}

/// One registry entry: a shared handle to the peer plus its optional
/// connection context. Keys are unique within a registry, and a replacing
/// insert overwrites both fields.
pub struct PeerEntry {
    /// Shared handle to the registered peer; handles cloned out of the
    /// registry stay valid after the entry is removed.
    pub peer: Arc<Peer>,
    /// Present exactly while the peer is connected.
    pub context: Option<ConnectionContext>,
}

} // verus!
