//! Failures surfaced by the connectivity layer.

use vstd::prelude::*;

use crate::peer_manager::PeerManagerError;

verus! {

/// What a connectivity operation can fail with.
#[derive(Clone, Copy, Debug, PartialEq, Eq, Structural)]
pub enum ConnectivityError {
    /// No active pool carries the given id.
    PoolNotFoundById,
    /// No active pool has the given role.
    PoolNotFoundByType,
    /// Every pool id has been handed out.
    PoolIdsExhausted,
    /// A directory operation failed.
    PeerManager(PeerManagerError),
    /// The manager actor is gone; its request channel is closed.
    ActorDisconnected,
    /// The reply channel was dropped before the manager answered.
    ActorResponseCancelled,
}

} // verus!
