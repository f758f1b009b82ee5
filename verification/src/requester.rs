//! The request surface of the connectivity manager: what callers may ask,
//! and what comes back. The channel that carries these messages, and the
//! cloneable handle that wraps its send side, live outside this library.

use vstd::prelude::*;

use crate::error::ConnectivityError;
use crate::node_id::NodeId;
use crate::peer_pool::{PeerConnection, PeerPool, PeerPoolType};

verus! {

/// How connections are picked out of the active pools.
#[derive(Clone, Debug)]
pub enum ConnectivitySelection {
    /// Up to the given numbers of random members of the neighbour pool and
    /// of the random pool, deduplicated by node id.
    Propagation { num_neighbour: usize, num_random: usize },
    /// The single connection to this peer, if a pool holds one.
    Single(NodeId),
}

/// A request to the connectivity manager.
#[derive(Clone, Debug)]
pub enum ConnectivityRequest {
    AddPool(PeerPoolType),
    ReleasePool(PeerPoolType),
    GetPool(PeerPoolType),
    SelectConnections(ConnectivitySelection),
    BanPeer(NodeId),
}

/// The manager's reply to a request.
#[derive(Debug)]
pub enum ConnectivityResponse {
    /// Reply to `AddPool`.
    PoolAdded(Result<(), ConnectivityError>),
    /// Reply to `ReleasePool`, which is fire-and-forget.
    PoolReleased,
    /// Reply to `GetPool`: a snapshot of the pool.
    Pool(Result<PeerPool, ConnectivityError>),
    /// Reply to `SelectConnections`.
    Connections(Result<Vec<PeerConnection>, ConnectivityError>),
    /// Reply to `BanPeer`, which is fire-and-forget.
    PeerBanned,
}

} // verus!
