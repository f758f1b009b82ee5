//! Peer pools: groups of desired live connections with a role, a freshness
//! timer, and a size target, plus the process-wide pool id allocator.

use vstd::prelude::*;

use crate::node_id::{node_id_values, NodeId};

verus! {

/// Identifier of a pool, unique within the manager's lifetime.
pub type PoolId = usize;

/// Hands out pool ids: every allocation yields a fresh id, strictly larger
/// than every id handed out before.
#[derive(Debug)]
pub struct PoolIdAllocator {
    next: PoolId,
}

impl PoolIdAllocator {
    /// The id the next allocation will return.
    pub closed spec fn next_id(self) -> int {
        self.next as int
    }

    pub fn new() -> (r: PoolIdAllocator)
        ensures
            r.next_id() == 0,
    {
        PoolIdAllocator { next: 0 }
    }

    /// True while fresh ids remain.
    pub fn has_next(&self) -> (r: bool)
        ensures
            r == (self.next_id() < PoolId::MAX),
    {
        self.next < PoolId::MAX
    }

    /// Allocates the next pool id.
    pub fn get_next_id(&mut self) -> (r: PoolId)
        requires
            old(self).next_id() < PoolId::MAX,
        ensures
            r == old(self).next_id(),
            final(self).next_id() == old(self).next_id() + 1,
    {
        let id = self.next;
        self.next = self.next + 1;
        id
    }
}

/// The role of a pool.
#[derive(Clone, Copy, Debug, PartialEq, Eq, Hash, Structural)]
pub enum PeerPoolType {
    /// Peers close to the local node by XOR distance.
    Neighbours,
    /// Uniformly sampled peers, disjoint from the neighbours.
    Random,
}

/// A cheap handle naming a pool by its id.
#[derive(Clone, Copy, Debug, PartialEq, Eq, Structural)]
pub struct PeerPoolHandle(pub PoolId);

/// How complete a pool is after its last refresh.
#[derive(Clone, Copy, Debug, PartialEq, Eq, Structural)]
pub enum PoolStatus {
    /// Never refreshed.
    Uninitialized,
    /// Holds at least the desired number of connections.
    Full,
    /// Holds at least the required minimum, but less than desired.
    Partial,
    /// Holds less than the required minimum.
    Failed,
}

/// Size target and freshness parameters of a pool.
#[derive(Clone, Copy, Debug, PartialEq, Eq, Structural)]
pub struct PoolParams {
    /// How many connections the pool aims to hold.
    pub num_desired: usize,
    /// How old the pool may grow before it counts as stale.
    pub stale_interval_ms: u64,
    /// Fewest connections below which the pool counts as failed, if set.
    pub min_required: Option<usize>,
}

/// A live connection handle: the transport side is owned elsewhere and named
/// by `conn_id`; the peer it reaches is named by `node_id`.
#[derive(Clone, Copy, Debug, PartialEq, Eq, Structural)]
pub struct PeerConnection {
    pub conn_id: u64,
    pub node_id: NodeId,
}

impl PeerConnection {
    /// The node id of the remote peer.
    pub fn peer_node_id(&self) -> (r: NodeId)
        ensures
            r == self.node_id,
    {
        self.node_id
    }
}

/// The node id values of a list of connections.
pub open spec fn connection_ids(conns: Seq<PeerConnection>) -> Seq<u128> {
    conns.map_values(|c: PeerConnection| c.node_id.value)
}

/// Copies a list of connections.
pub fn clone_connections(conns: &Vec<PeerConnection>) -> (r: Vec<PeerConnection>)
    ensures
        r@ == conns@,
{
    let mut out: Vec<PeerConnection> = Vec::new();
    let mut i: usize = 0;
    while i < conns.len()
        invariant
            i <= conns.len(),
            out@ == conns@.take(i as int),
        decreases conns.len() - i,
    {
        out.push(conns[i]);
        proof {
            assert(out@ =~= conns@.take(i as int + 1));
        }
        i = i + 1;
    }
    proof {
        assert(conns@.take(conns@.len() as int) =~= conns@);
    }
    out
}

/// True when `conns` holds a connection to `id`.
pub fn connections_contain(conns: &Vec<PeerConnection>, id: &NodeId) -> (r: bool)
    ensures
        r == connection_ids(conns@).contains(id.value),
{
    let mut i: usize = 0;
    while i < conns.len()
        invariant
            i <= conns.len(),
            forall|j: int| 0 <= j < i ==> connection_ids(conns@)[j] != id.value,
        decreases conns.len() - i,
    {
        if conns[i].node_id.value == id.value {
            proof {
                assert(connection_ids(conns@)[i as int] == id.value);
            }
            return true;
        }
        i = i + 1;
    }
    false
}

/// A list of connections reaches each peer at most once.
pub open spec fn distinct_connection_ids(conns: Seq<PeerConnection>) -> bool {
    forall|i: int, j: int|
        0 <= i < j < conns.len() ==> (#[trigger] conns[i]).node_id.value != (
        #[trigger] conns[j]).node_id.value
}

/// Removes the connection to `id` from `conns`, if one is held.
pub fn remove_connection_to(conns: &mut Vec<PeerConnection>, id: &NodeId)
    requires
        distinct_connection_ids(old(conns)@),
    ensures
        distinct_connection_ids(final(conns)@),
        forall|v: u128|
            #[trigger] connection_ids(final(conns)@).contains(v) <==> (connection_ids(
                old(conns)@,
            ).contains(v) && v != id.value),
        !connection_ids(old(conns)@).contains(id.value) ==> final(conns)@ == old(conns)@,
        connection_ids(old(conns)@).contains(id.value) ==> exists|i: int|
            {
                &&& 0 <= i < old(conns)@.len()
                &&& (#[trigger] old(conns)@[i]).node_id.value == id.value
                &&& final(conns)@ == old(conns)@.remove(i)
            },
{
    let ghost all = conns@;
    let mut i: usize = 0;
    while i < conns.len()
        invariant
            i <= conns.len(),
            conns@ == old(conns)@,
            all == conns@,
            distinct_connection_ids(all),
            forall|j: int| 0 <= j < i ==> (#[trigger] all[j]).node_id.value != id.value,
        decreases conns.len() - i,
    {
        if conns[i].node_id.value == id.value {
            conns.remove(i);
            proof {
                assert(connection_ids(all)[i as int] == id.value);
                assert(connection_ids(all).contains(id.value));
                assert(connection_ids(conns@) =~= connection_ids(all).remove(i as int));
                assert forall|a: int, b: int|
                    0 <= a < b < conns@.len() implies (#[trigger] conns@[a]).node_id.value != (
                #[trigger] conns@[b]).node_id.value by {
                    let a0 = if a < i {
                        a
                    } else {
                        a + 1
                    };
                    let b0 = if b < i {
                        b
                    } else {
                        b + 1
                    };
                    assert(all[a0].node_id.value != all[b0].node_id.value);
                }
                assert forall|v: u128| #[trigger]
                    connection_ids(conns@).contains(v) implies (connection_ids(all).contains(v)
                    && v != id.value) by {
                    let w = choose|w: int|
                        0 <= w < conns@.len() && connection_ids(conns@)[w] == v;
                    let w0 = if w < i {
                        w
                    } else {
                        w + 1
                    };
                    assert(connection_ids(all)[w0] == v);
                    if v == id.value {
                        assert(all[w0].node_id.value == all[i as int].node_id.value);
                    }
                }
                assert forall|v: u128|
                    connection_ids(all).contains(v) && v != id.value implies #[trigger]
                    connection_ids(conns@).contains(v) by {
                    let w = choose|w: int| 0 <= w < all.len() && connection_ids(all)[w] == v;
                    let w1 = if w < i {
                        w
                    } else {
                        w - 1
                    };
                    assert(connection_ids(conns@)[w1] == v);
                }
            }
            return ;
        }
        i = i + 1;
    }
    proof {
        assert forall|v: u128| #[trigger]
            connection_ids(conns@).contains(v) implies (connection_ids(all).contains(v) && v
            != id.value) by {
            let w = choose|w: int| 0 <= w < conns@.len() && connection_ids(conns@)[w] == v;
            assert(all[w].node_id.value == v);
        }
    }
}

/// A pool of currently desired connections.
#[derive(Debug)]
pub struct PeerPool {
    pub id: PoolId,
    pub status: PoolStatus,
    pub params: PoolParams,
    pub connections: Vec<PeerConnection>,
    pub pool_type: PeerPoolType,
    pub last_refreshed_ms: Option<u64>,
    pub refresh_in_progress: bool,
}

impl Clone for PeerPool {
    fn clone(&self) -> (r: Self)
        ensures
            r.id == self.id,
            r.status == self.status,
            r.params == self.params,
            r.connections@ == self.connections@,
            r.pool_type == self.pool_type,
            r.last_refreshed_ms == self.last_refreshed_ms,
            r.refresh_in_progress == self.refresh_in_progress,
    {
        PeerPool {
            id: self.id,
            status: self.status,
            params: self.params,
            connections: clone_connections(&self.connections),
            pool_type: self.pool_type,
            last_refreshed_ms: self.last_refreshed_ms,
            refresh_in_progress: self.refresh_in_progress,
        }
    }
}

impl PeerPool {
    /// The node id values of the pool's connections, in stored order.
    pub open spec fn spec_node_ids(self) -> Seq<u128> {
        connection_ids(self.connections@)
    }

    /// A pool never holds two connections to the same peer.
    pub open spec fn wf(self) -> bool {
        forall|i: int, j: int|
            0 <= i < j < self.spec_node_ids().len() ==> self.spec_node_ids()[i]
                != self.spec_node_ids()[j]
    }

    /// Stale: never refreshed, or refreshed longer ago than the stale
    /// interval.
    pub open spec fn spec_is_stale(self, now_ms: u64) -> bool {
        match self.last_refreshed_ms {
            None => true,
            Some(at) => now_ms > at && now_ms - at > self.params.stale_interval_ms,
        }
    }

    /// A fresh, empty, never-refreshed pool.
    pub fn new(pool_type: PeerPoolType, params: PoolParams, id: PoolId) -> (r: PeerPool)
        ensures
            r.id == id,
            r.status == PoolStatus::Uninitialized,
            r.params == params,
            r.connections@ == Seq::<PeerConnection>::empty(),
            r.pool_type == pool_type,
            r.last_refreshed_ms is None,
            !r.refresh_in_progress,
            r.wf(),
    {
        let r = PeerPool {
            id,
            status: PoolStatus::Uninitialized,
            params,
            connections: Vec::new(),
            pool_type,
            last_refreshed_ms: None,
            refresh_in_progress: false,
        };
        proof {
            assert(r.spec_node_ids() =~= Seq::<u128>::empty());
        }
        r
    }

    pub fn id(&self) -> (r: PoolId)
        ensures
            r == self.id,
    {
        self.id
    }

    pub fn pool_type(&self) -> (r: PeerPoolType)
        ensures
            r == self.pool_type,
    {
        self.pool_type
    }

    pub fn params(&self) -> (r: &PoolParams)
        ensures
            r == &self.params,
    {
        &self.params
    }

    /// True when the pool is due for a refresh at `now_ms`.
    pub fn is_stale(&self, now_ms: u64) -> (r: bool)
        ensures
            r == self.spec_is_stale(now_ms),
    {
        match self.last_refreshed_ms {
            None => true,
            Some(at) => now_ms > at && now_ms - at > self.params.stale_interval_ms,
        }
    }

    /// The node ids of the current connections, in stored order.
    pub fn get_node_ids(&self) -> (r: Vec<NodeId>)
        ensures
            node_id_values(r@) == self.spec_node_ids(),
    {
        let mut out: Vec<NodeId> = Vec::new();
        let mut i: usize = 0;
        while i < self.connections.len()
            invariant
                i <= self.connections.len(),
                node_id_values(out@) == self.spec_node_ids().take(i as int),
            decreases self.connections.len() - i,
        {
            let ghost prev = out@;
            out.push(self.connections[i].node_id);
            proof {
                assert(node_id_values(out@) =~= node_id_values(prev).push(
                    self.spec_node_ids()[i as int],
                ));
                assert(self.spec_node_ids().take(i as int + 1) =~= self.spec_node_ids().take(
                    i as int,
                ).push(self.spec_node_ids()[i as int]));
            }
            i = i + 1;
        }
        proof {
            assert(self.spec_node_ids().take(self.connections@.len() as int)
                =~= self.spec_node_ids());
        }
        out
    }

    /// The current connections.
    pub fn connections(&self) -> (r: &Vec<PeerConnection>)
        ensures
            r == &self.connections,
    {
        &self.connections
    }
}

/// A well-formed pool holds as many distinct node ids as connections: its
/// connection list has no duplicate peers.
pub proof fn lemma_pool_connections_unique(pool: PeerPool)
    requires
        pool.wf(),
    ensures
        pool.spec_node_ids().to_set().len() == pool.spec_node_ids().len(),
{
    let ids = pool.spec_node_ids();
    assert(ids.no_duplicates());
    ids.unique_seq_to_set();
}

/// Ids handed out by the allocator at different points are pairwise
/// distinct: the counter only grows, so an id never repeats.
pub proof fn lemma_pool_ids_distinct(
    earlier: PoolIdAllocator,
    later: PoolIdAllocator,
    id_earlier: PoolId,
    id_later: PoolId,
)
    requires
        id_earlier == earlier.next_id(),
        earlier.next_id() < later.next_id(),
        id_later == later.next_id(),
    ensures
        id_earlier != id_later,
{
}

} // verus!
