//! The connectivity manager: the single-writer owner of the active peer
//! pools. It decides, from its state and the directory, which peers to dial
//! or drop; performing the dials, and the channel loop that feeds it
//! requests and events, live outside this library.

use vstd::prelude::*;
use vstd::pervasive::VecAdditionalExecFns;

use crate::config::ConnectivityConfig;
use crate::error::ConnectivityError;
use crate::node_id::{node_id_values, NodeId};
use crate::peer::{FEATURE_COMMUNICATION_NODE};
use crate::peer_manager::{contains_node_id, PeerManager};
use crate::peer_pool::{
    clone_connections, connection_ids, connections_contain, distinct_connection_ids,
    remove_connection_to, PeerConnection, PeerPool, PeerPoolType, PoolId, PoolIdAllocator,
    PoolParams, PoolStatus,
};
use crate::peer_pools::PeerPools;
use crate::requester::{ConnectivityRequest, ConnectivitySelection};

verus! {

/// A connection lifecycle event from the connection manager.
#[derive(Clone, Debug)]
pub enum ConnectionManagerEvent {
    /// A connection to a peer came up.
    PeerConnected(PeerConnection),
    /// The connection to this peer dropped unexpectedly.
    PeerDisconnected(NodeId),
    /// The connection to this peer is about to close in an orderly way.
    PeerConnectWillClose(NodeId),
    /// Any other event; the manager ignores it.
    Other,
}

/// What a pool refresh asks the connection manager to do: dial the missing
/// desired peers and drop the connections that are no longer desired. The
/// results come back through `complete_pool_refresh`.
#[derive(Debug)]
pub struct RefreshPlan {
    pub pool_id: PoolId,
    pub to_dial: Vec<NodeId>,
    pub to_disconnect: Vec<NodeId>,
}

/// The connectivity manager's state.
#[derive(Debug)]
pub struct ConnectivityManager {
    /// Static configuration.
    pub config: ConnectivityConfig,
    /// The local node's own id; no pool ever connects to it.
    pub node_id: NodeId,
    /// The managed pools.
    pub active_pools: PeerPools,
    /// Connections not belonging to any managed pool, such as explicit
    /// dials. An observation buffer: no refresh logic applies to it.
    pub ad_hoc_pool: Vec<PeerConnection>,
    /// Inbound connections from client-role peers. An observation buffer.
    pub client_node_pool: Vec<PeerConnection>,
    /// Source of fresh pool ids.
    pub pool_id_allocator: PoolIdAllocator,
}

impl ConnectivityManager {
    /// The pools are well formed and pairwise disjoint, none of them
    /// connects to the local node, the observation buffers hold at most one
    /// connection per peer, and every pool id was handed out by the
    /// allocator.
    pub open spec fn wf(self) -> bool {
        &&& self.active_pools.wf()
        &&& !self.active_pools.holds_node_id(self.node_id.value)
        &&& distinct_connection_ids(self.ad_hoc_pool@)
        &&& distinct_connection_ids(self.client_node_pool@)
        &&& forall|i: int|
            0 <= i < self.active_pools.pools@.len() ==> (#[trigger] self.active_pools.pools@[i]).id
                < self.pool_id_allocator.next_id()
    }

    /// A manager with no pools and empty buffers.
    pub fn new(config: ConnectivityConfig, node_id: NodeId) -> (r: ConnectivityManager)
        ensures
            r.wf(),
            r.config == config,
            r.node_id == node_id,
            r.active_pools.pools@ == Seq::<PeerPool>::empty(),
            r.ad_hoc_pool@ == Seq::<PeerConnection>::empty(),
            r.client_node_pool@ == Seq::<PeerConnection>::empty(),
    {
        ConnectivityManager {
            config,
            node_id,
            active_pools: PeerPools::new(),
            ad_hoc_pool: Vec::new(),
            client_node_pool: Vec::new(),
            pool_id_allocator: PoolIdAllocator::new(),
        }
    }

    /// The size and freshness parameters a pool of this role gets.
    pub fn get_pool_params_by_type(&self, pool_type: PeerPoolType) -> (r: PoolParams)
        ensures
            r == spec_pool_params(self.config, pool_type),
    {
        match pool_type {
            PeerPoolType::Neighbours => PoolParams {
                num_desired: self.config.desired_neighbouring_pool_size,
                stale_interval_ms: self.config.neighbouring_pool_refresh_interval_ms,
                min_required: None,
            },
            PeerPoolType::Random => PoolParams {
                num_desired: self.config.desired_random_pool_size,
                stale_interval_ms: self.config.random_pool_refresh_interval_ms,
                min_required: Some(0),
            },
        }
    }

    /// A snapshot of the pool of this role.
    pub fn get_pool(&self, pool_type: PeerPoolType) -> (r: Result<PeerPool, ConnectivityError>)
        requires
            self.wf(),
        ensures
            get_pool_post(*self, pool_type, r),
    {
        match self.active_pools.get_by_type(pool_type) {
            Some(p) => Ok(p.clone()),
            None => Err(ConnectivityError::PoolNotFoundByType),
        }
    }

    /// Forgets the pool of this role; its connections stay alive but are no
    /// longer tracked. Idempotent.
    pub fn release_pool(&mut self, pool_type: PeerPoolType)
        requires
            old(self).wf(),
        ensures
            final(self).wf(),
            release_pool_post(*old(self), *final(self), pool_type),
    {
        let removed = self.active_pools.remove_by_type(pool_type);
        proof {
            if removed {
                let k = old(self).active_pools.idx_of_type(pool_type);
                assert forall|i: int| 0 <= i < self.active_pools.pools@.len() implies (
                #[trigger] self.active_pools.pools@[i]).id < self.pool_id_allocator.next_id() by {
                    let i0 = if i < k {
                        i
                    } else {
                        i + 1
                    };
                    assert(old(self).active_pools.pools@[i0].id < self.pool_id_allocator.next_id());
                }
                if self.active_pools.holds_node_id(self.node_id.value) {
                    let w = choose|w: int|
                        0 <= w < self.active_pools.pools@.len() && (
                        #[trigger] self.active_pools.pools@[w]).spec_node_ids().contains(
                            self.node_id.value,
                        );
                    let w0 = if w < k {
                        w
                    } else {
                        w + 1
                    };
                    assert(old(self).active_pools.pools@[w0].spec_node_ids().contains(
                        self.node_id.value,
                    ));
                }
            }
        }
    }
}

/// The parameter table: how large each pool should be and how often it is
/// refreshed. The neighbour pool has no failure floor; the random pool's
/// floor is zero.
pub open spec fn spec_pool_params(
    config: ConnectivityConfig,
    pool_type: PeerPoolType,
) -> PoolParams {
    match pool_type {
        PeerPoolType::Neighbours => PoolParams {
            num_desired: config.desired_neighbouring_pool_size,
            stale_interval_ms: config.neighbouring_pool_refresh_interval_ms,
            min_required: None,
        },
        PeerPoolType::Random => PoolParams {
            num_desired: config.desired_random_pool_size,
            stale_interval_ms: config.random_pool_refresh_interval_ms,
            min_required: Some(0usize),
        },
    }
}

/// How complete a pool of these parameters is when it holds `len`
/// connections: full at the desired size, failed below a set minimum,
/// partial in between. With no minimum set, any shortfall counts as
/// partial, never as failed.
pub open spec fn pool_status_for(params: PoolParams, len: nat) -> PoolStatus {
    if len >= params.num_desired {
        PoolStatus::Full
    } else {
        match params.min_required {
            None => PoolStatus::Partial,
            Some(m) => if len >= m {
                PoolStatus::Partial
            } else {
                PoolStatus::Failed
            },
        }
    }
}

/// The node id values of a list of records.
pub open spec fn model_ids(models: Seq<crate::peer::PeerModel>) -> Seq<u128> {
    models.map_values(|m: crate::peer::PeerModel| m.node_id)
}

/// The id list with repetitions dropped: each value keeps its first
/// occurrence, in order.
pub open spec fn dedup_ids(ids: Seq<u128>) -> Seq<u128>
    decreases ids.len(),
{
    if ids.len() == 0 {
        Seq::<u128>::empty()
    } else {
        let prefix = dedup_ids(ids.drop_last());
        if prefix.contains(ids.last()) {
            prefix
        } else {
            prefix.push(ids.last())
        }
    }
}

/// The filter keeping connections whose peer is among the given ids.
pub open spec fn in_ids_pred(ids: Seq<u128>) -> spec_fn(PeerConnection) -> bool {
    |c: PeerConnection| ids.contains(c.node_id.value)
}

/// The filter keeping id values outside the given set.
pub open spec fn not_in_ids_pred(ids: Seq<u128>) -> spec_fn(u128) -> bool {
    |x: u128| !ids.contains(x)
}

/// The filter keeping node ids of peers not currently held.
pub open spec fn dial_pred(held: Seq<u128>) -> spec_fn(NodeId) -> bool {
    |id: NodeId| !held.contains(id.value)
}

/// The pool's connection list after refresh results are admitted: each
/// incoming connection enters in order, unless its peer is the local node,
/// already sits in some pool, or is already in the list.
pub open spec fn admit_connections(
    conns: Seq<PeerConnection>,
    incoming: Seq<PeerConnection>,
    self_id: u128,
    pools: PeerPools,
) -> Seq<PeerConnection>
    decreases incoming.len(),
{
    if incoming.len() == 0 {
        conns
    } else {
        let c = incoming.first();
        let admitted = if c.node_id.value != self_id && !pools.holds_node_id(c.node_id.value)
            && !connection_ids(conns).contains(c.node_id.value) {
            conns.push(c)
        } else {
            conns
        };
        admit_connections(admitted, incoming.drop_first(), self_id, pools)
    }
}

/// A buffer after a connection is offered to it: appended, unless an entry
/// for that peer is already held.
pub open spec fn buffer_after_admit(
    buffer: Seq<PeerConnection>,
    conn: PeerConnection,
) -> Seq<PeerConnection> {
    if connection_ids(buffer).contains(conn.node_id.value) {
        buffer
    } else {
        buffer.push(conn)
    }
}

/// The index of the first pool, from `i` on, with fewer connections than it
/// desires.
pub open spec fn first_pool_with_room(pools: Seq<PeerPool>, i: nat) -> Option<int>
    decreases pools.len() - i,
{
    if i >= pools.len() {
        None
    } else if pools[i as int].connections@.len() < pools[i as int].params.num_desired {
        Some(i as int)
    } else {
        first_pool_with_room(pools, i + 1)
    }
}

/// The index of the first pool, from `i` on, below its set minimum.
pub open spec fn first_pool_below_min(pools: Seq<PeerPool>, i: nat) -> Option<int>
    decreases pools.len() - i,
{
    if i >= pools.len() {
        None
    } else {
        match pools[i as int].params.min_required {
            Some(m) => if pools[i as int].connections@.len() < m {
                Some(i as int)
            } else {
                first_pool_below_min(pools, i + 1)
            },
            None => first_pool_below_min(pools, i + 1),
        }
    }
}

/// Pools agreeing on connection lists and parameters agree on which pool
/// first falls below its minimum.
pub proof fn lemma_first_below_min_same(a: Seq<PeerPool>, b: Seq<PeerPool>, i: nat)
    requires
        a.len() == b.len(),
        forall|w: int|
            0 <= w < a.len() ==> ((#[trigger] a[w]).connections@ == b[w].connections@ && a[w].params
                == b[w].params),
    ensures
        first_pool_below_min(a, i) == first_pool_below_min(b, i),
    decreases a.len() - i,
{
    if i < a.len() {
        lemma_first_below_min_same(a, b, i + 1);
    }
}

/// What routing a freshly connected peer does to the manager: nothing for
/// the local node or an already pooled peer; otherwise a known
/// routing-capable peer enters the first pool with room (or the ad-hoc
/// buffer if none has room), a known client-role peer enters the client
/// buffer, and an unknown peer the ad-hoc buffer — each buffer at most once
/// per peer.
pub open spec fn routed_connection_post(
    pre: ConnectivityManager,
    post: ConnectivityManager,
    stored: Seq<crate::peer::PeerModel>,
    conn: PeerConnection,
) -> bool {
    let known = contains_node_id(stored, conn.node_id.value);
    let feats = stored[crate::peer_manager::idx_of_node_id(stored, conn.node_id.value)].features;
    if conn.node_id.value == pre.node_id.value || pre.active_pools.holds_node_id(
        conn.node_id.value,
    ) {
        post == pre
    } else if known && feats.spec_contains(
        crate::peer::PeerFeatures { bits: FEATURE_COMMUNICATION_NODE },
    ) {
        match first_pool_with_room(pre.active_pools.pools@, 0) {
            Some(k) => {
                &&& post.active_pools.pools@.len() == pre.active_pools.pools@.len()
                &&& forall|j: int|
                    0 <= j < pre.active_pools.pools@.len() && j != k
                        ==> post.active_pools.pools@[j] == pre.active_pools.pools@[j]
                &&& {
                    let p = post.active_pools.pools@[k];
                    let q = pre.active_pools.pools@[k];
                    &&& p.id == q.id
                    &&& p.pool_type == q.pool_type
                    &&& p.params == q.params
                    &&& p.status == q.status
                    &&& p.last_refreshed_ms == q.last_refreshed_ms
                    &&& p.refresh_in_progress == q.refresh_in_progress
                    &&& p.connections@ == q.connections@.push(conn)
                }
                &&& post.ad_hoc_pool@ == pre.ad_hoc_pool@
                &&& post.client_node_pool@ == pre.client_node_pool@
            },
            None => {
                &&& post.active_pools.pools@ == pre.active_pools.pools@
                &&& post.ad_hoc_pool@ == buffer_after_admit(pre.ad_hoc_pool@, conn)
                &&& post.client_node_pool@ == pre.client_node_pool@
            },
        }
    } else if known && feats.spec_contains(
        crate::peer::PeerFeatures { bits: crate::peer::FEATURE_COMMUNICATION_CLIENT },
    ) {
        &&& post.active_pools.pools@ == pre.active_pools.pools@
        &&& post.ad_hoc_pool@ == pre.ad_hoc_pool@
        &&& post.client_node_pool@ == buffer_after_admit(pre.client_node_pool@, conn)
    } else {
        &&& post.active_pools.pools@ == pre.active_pools.pools@
        &&& post.ad_hoc_pool@ == buffer_after_admit(pre.ad_hoc_pool@, conn)
        &&& post.client_node_pool@ == pre.client_node_pool@
    }
}

/// What dropping a peer's connection does to the manager: the peer leaves
/// every pool and buffer, nothing else about the pools changes, and the
/// returned hint names the first pool left below its set minimum (marked
/// stale so the next refresh rebuilds it), or is absent when none is.
pub open spec fn dropped_connection_post(
    pre: ConnectivityManager,
    post: ConnectivityManager,
    id: NodeId,
    r: Option<PoolId>,
) -> bool {
    &&& post.active_pools.pools@.len() == pre.active_pools.pools@.len()
    &&& !post.active_pools.holds_node_id(id.value)
    &&& !connection_ids(post.ad_hoc_pool@).contains(id.value)
    &&& !connection_ids(post.client_node_pool@).contains(id.value)
    &&& forall|i: int, v: u128|
        0 <= i < post.active_pools.pools@.len() ==> (#[trigger] post.active_pools.pools@[
        i].spec_node_ids().contains(v) <==> (pre.active_pools.pools@[i].spec_node_ids().contains(v)
            && v != id.value))
    &&& forall|v: u128|
        #[trigger] connection_ids(post.ad_hoc_pool@).contains(v) <==> (connection_ids(
            pre.ad_hoc_pool@,
        ).contains(v) && v != id.value)
    &&& forall|v: u128|
        #[trigger] connection_ids(post.client_node_pool@).contains(v) <==> (connection_ids(
            pre.client_node_pool@,
        ).contains(v) && v != id.value)
    &&& forall|i: int|
        0 <= i < post.active_pools.pools@.len() ==> {
            let p = #[trigger] post.active_pools.pools@[i];
            let q = pre.active_pools.pools@[i];
            &&& p.id == q.id
            &&& p.pool_type == q.pool_type
            &&& p.params == q.params
            &&& p.status == q.status
            &&& p.refresh_in_progress == q.refresh_in_progress
        }
    &&& match r {
        Some(pid) => first_pool_below_min(post.active_pools.pools@, 0) matches Some(k)
            && post.active_pools.pools@[k].id == pid && post.active_pools.pools@[
        k].last_refreshed_ms is None && (forall|i: int|
            0 <= i < post.active_pools.pools@.len() && i != k
                ==> (#[trigger] post.active_pools.pools@[i]).last_refreshed_ms
                == pre.active_pools.pools@[i].last_refreshed_ms),
        None => first_pool_below_min(post.active_pools.pools@, 0) is None && (forall|i: int|
            0 <= i < post.active_pools.pools@.len()
                ==> (#[trigger] post.active_pools.pools@[i]).last_refreshed_ms
                == pre.active_pools.pools@[i].last_refreshed_ms),
    }
}

/// What adding a pool does: nothing when the role exists (idempotence);
/// otherwise a fresh pool of the role is created with the configured
/// parameters and its first refresh plan comes back, or the id-exhaustion
/// error exactly when every pool id has been handed out.
pub open spec fn add_pool_post(
    pre: ConnectivityManager,
    post: ConnectivityManager,
    stored: Seq<crate::peer::PeerModel>,
    pool_type: PeerPoolType,
    now_ms: u64,
    r: Result<Option<RefreshPlan>, ConnectivityError>,
) -> bool {
    &&& (pre.active_pools.spec_contains_type(pool_type) ==> (post == pre && r matches Ok(None)))
    &&& (r is Err <==> (!pre.active_pools.spec_contains_type(pool_type)
        && pre.pool_id_allocator.next_id() >= PoolId::MAX))
    &&& match r {
        Ok(_) => post.active_pools.spec_contains_type(pool_type),
        Err(e) => e == ConnectivityError::PoolIdsExhausted && post == pre,
    }
    &&& ((!pre.active_pools.spec_contains_type(pool_type) && r is Ok) ==> {
        &&& post.active_pools.pools@.len() == pre.active_pools.pools@.len() + 1
        &&& {
            let p = post.active_pools.pools@[post.active_pools.idx_of_type(pool_type)];
            &&& p.pool_type == pool_type
            &&& p.params == spec_pool_params(pre.config, pool_type)
            &&& match r {
                Ok(Some(plan)) => {
                    &&& plan.pool_id == p.id
                    &&& plan.to_disconnect@.len() == 0
                    &&& forall|i: int, j: int|
                        0 <= i < j < plan.to_dial@.len() ==> plan.to_dial@[i].value
                            != plan.to_dial@[j].value
                    &&& forall|i: int|
                        0 <= i < plan.to_dial@.len() ==> stored_routing_peer(
                            stored,
                            (#[trigger] plan.to_dial@[i]).value,
                            now_ms,
                        )
                },
                _ => false,
            }
        }
    })
}

/// What a pool snapshot request returns: a copy of the pool of the role,
/// or the pool-not-found error exactly when no such pool exists.
pub open spec fn get_pool_post(
    m: ConnectivityManager,
    pool_type: PeerPoolType,
    r: Result<PeerPool, ConnectivityError>,
) -> bool {
    &&& (r is Ok <==> m.active_pools.spec_contains_type(pool_type))
    &&& match r {
        Ok(p) => {
            let q = m.active_pools.pools@[m.active_pools.idx_of_type(pool_type)];
            &&& p.id == q.id
            &&& p.status == q.status
            &&& p.params == q.params
            &&& p.connections@ == q.connections@
            &&& p.pool_type == pool_type
            &&& p.last_refreshed_ms == q.last_refreshed_ms
            &&& p.refresh_in_progress == q.refresh_in_progress
        },
        Err(e) => e == ConnectivityError::PoolNotFoundByType,
    }
}

/// What releasing a pool does: the pool of the role, if any, is removed
/// and nothing else changes.
pub open spec fn release_pool_post(
    pre: ConnectivityManager,
    post: ConnectivityManager,
    pool_type: PeerPoolType,
) -> bool {
    &&& !post.active_pools.spec_contains_type(pool_type)
    &&& post.config == pre.config
    &&& post.node_id == pre.node_id
    &&& post.ad_hoc_pool@ == pre.ad_hoc_pool@
    &&& post.client_node_pool@ == pre.client_node_pool@
    &&& (pre.active_pools.spec_contains_type(pool_type) ==> post.active_pools.pools@
        == pre.active_pools.pools@.remove(pre.active_pools.idx_of_type(pool_type)))
    &&& (!pre.active_pools.spec_contains_type(pool_type) ==> post.active_pools.pools@
        == pre.active_pools.pools@)
}

/// What serving a selection returns: pairwise distinct held connections;
/// for `Propagation`, exactly the sample floor-adjusted minima of both
/// pools; for `Single`, the one connection to the peer iff a pool holds it.
pub open spec fn select_connections_post(
    m: ConnectivityManager,
    selection: ConnectivitySelection,
    r: Result<Vec<PeerConnection>, ConnectivityError>,
) -> bool {
    &&& r is Ok
    &&& match r {
        Ok(v) => {
            &&& forall|i: int, j: int|
                0 <= i < j < v@.len() ==> v@[i].node_id.value != v@[j].node_id.value
            &&& forall|i: int| 0 <= i < v@.len() ==> m.holds_connection(#[trigger] v@[i])
            &&& match selection {
                ConnectivitySelection::Propagation { num_neighbour, num_random } => {
                    let floor = m.config.propagation_random_sample_size;
                    let n1 = if num_neighbour > floor {
                        num_neighbour
                    } else {
                        floor
                    };
                    let n2 = if num_random > floor {
                        num_random
                    } else {
                        floor
                    };
                    let held1 = m.pool_ids_of_type(PeerPoolType::Neighbours).len();
                    let held2 = m.pool_ids_of_type(PeerPoolType::Random).len();
                    v@.len() == (if n1 < held1 {
                        n1 as int
                    } else {
                        held1 as int
                    }) + (if n2 < held2 {
                        n2 as int
                    } else {
                        held2 as int
                    })
                },
                ConnectivitySelection::Single(id) => {
                    &&& v@.len() <= 1
                    &&& (v@.len() == 1 <==> m.active_pools.holds_node_id(id.value))
                    &&& (v@.len() == 1 ==> v@[0].node_id.value == id.value)
                },
            }
        },
        Err(_) => false,
    }
}

/// What banning a peer does: the record is banned in the directory for the
/// configured duration and the peer leaves every pool and buffer; with no
/// record under that node id, nothing changes and the lookup error comes
/// back.
pub open spec fn ban_peer_post(
    pre: ConnectivityManager,
    post: ConnectivityManager,
    stored_pre: Seq<crate::peer::PeerModel>,
    stored_post: Seq<crate::peer::PeerModel>,
    node_id: NodeId,
    now_ms: u64,
    r: Result<(), ConnectivityError>,
) -> bool {
    match r {
        Ok(()) => {
            &&& exists|j: int|
                {
                    &&& 0 <= j < stored_pre.len()
                    &&& (#[trigger] stored_pre[j]).node_id == node_id.value
                    &&& stored_post == stored_pre.update(
                        j,
                        crate::peer::banned_model(
                            stored_pre[j],
                            crate::peer::saturating_add_u64(
                                now_ms,
                                pre.config.default_ban_duration_ms,
                            ),
                        ),
                    )
                }
            &&& !post.active_pools.holds_node_id(node_id.value)
            &&& !connection_ids(post.ad_hoc_pool@).contains(node_id.value)
            &&& !connection_ids(post.client_node_pool@).contains(node_id.value)
            &&& post.active_pools.pools@.len() == pre.active_pools.pools@.len()
            &&& forall|i: int, v: u128|
                0 <= i < post.active_pools.pools@.len() ==> (#[trigger] post.active_pools.pools@[
                i].spec_node_ids().contains(v) <==> (pre.active_pools.pools@[
                i].spec_node_ids().contains(v) && v != node_id.value))
        },
        Err(e) => {
            &&& e == ConnectivityError::PeerManager(
                crate::peer_manager::PeerManagerError::PeerNotFound,
            )
            &&& !contains_node_id(stored_pre, node_id.value)
            &&& stored_post == stored_pre
            &&& post == pre
        },
    }
}

/// Some record of `models` carries this node id value.
pub open spec fn appears_as_node_id(models: Seq<crate::peer::PeerModel>, value: u128) -> bool {
    exists|j: int| 0 <= j < models.len() && (#[trigger] models[j]).node_id == value
}

/// Some record of `stored` carries this node id value, is not banned at
/// `now_ms`, and routes messages for the overlay.
pub open spec fn stored_routing_peer(
    stored: Seq<crate::peer::PeerModel>,
    value: u128,
    now_ms: u64,
) -> bool {
    exists|k: int|
        {
            &&& 0 <= k < stored.len()
            &&& (#[trigger] stored[k]).node_id == value
            &&& !stored[k].is_banned_at(now_ms)
            &&& stored[k].has_features(
                crate::peer::PeerFeatures { bits: FEATURE_COMMUNICATION_NODE },
            )
        }
}

/// Collects each peer's node id once, in order of first appearance.
fn dedup_peer_ids(peers: &Vec<crate::peer::Peer>) -> (r: Vec<NodeId>)
    ensures
        forall|i: int, j: int| 0 <= i < j < r@.len() ==> r@[i].value != r@[j].value,
        forall|i: int|
            0 <= i < r@.len() ==> appears_as_node_id(
                crate::peer::peers_view(peers@),
                (#[trigger] r@[i]).value,
            ),
        node_id_values(r@) == dedup_ids(model_ids(crate::peer::peers_view(peers@))),
{
    let ghost pv = crate::peer::peers_view(peers@);
    let mut out: Vec<NodeId> = Vec::new();
    proof {
        assert(model_ids(pv).take(0) =~= Seq::<u128>::empty());
        assert(node_id_values(out@) =~= dedup_ids(model_ids(pv).take(0)));
    }
    let mut j: usize = 0;
    while j < peers.len()
        invariant
            j <= peers.len(),
            pv == crate::peer::peers_view(peers@),
            pv.len() == peers@.len(),
            node_id_values(out@) == dedup_ids(model_ids(pv).take(j as int)),
            forall|a: int, b: int| 0 <= a < b < out@.len() ==> out@[a].value != out@[b].value,
            forall|a: int|
                0 <= a < out@.len() ==> appears_as_node_id(
                    crate::peer::peers_view(peers@),
                    (#[trigger] out@[a]).value,
                ),
        decreases peers.len() - j,
    {
        let nid = peers[j].node_id;
        proof {
            assert(model_ids(pv).take(j as int + 1).drop_last() =~= model_ids(pv).take(j as int));
            assert(model_ids(pv).take(j as int + 1).last() == pv[j as int].node_id);
            assert(pv[j as int].node_id == nid.value);
        }
        if !crate::node_id::node_ids_contain(&out, &nid) {
            let ghost prev = out@;
            out.push(nid);
            proof {
                assert(node_id_values(out@) =~= node_id_values(prev).push(nid.value));
                assert forall|a: int, b: int|
                    0 <= a < b < out@.len() implies out@[a].value != out@[b].value by {
                    if b == prev.len() {
                        assert(node_id_values(prev)[a] == out@[a].value);
                    }
                }
                assert(crate::peer::peers_view(peers@)[j as int].node_id == nid.value);
            }
        }
        j = j + 1;
    }
    proof {
        assert(model_ids(pv).take(peers@.len() as int) =~= model_ids(pv));
    }
    out
}

impl ConnectivityManager {
    /// The node ids held by the pool of this role, or empty if none exists.
    pub open spec fn pool_ids_of_type(self, pool_type: PeerPoolType) -> Seq<u128> {
        if self.active_pools.spec_contains_type(pool_type) {
            self.active_pools.pools@[self.active_pools.idx_of_type(pool_type)].spec_node_ids()
        } else {
            Seq::<u128>::empty()
        }
    }

    /// The node ids held by the neighbour pool, or empty if none exists.
    pub open spec fn neighbour_ids(self) -> Seq<u128> {
        self.pool_ids_of_type(PeerPoolType::Neighbours)
    }

    /// What selection produces for a pool of this role and size: the
    /// deduplicated node ids of a neighbour query result, or of a random
    /// sample over the peers outside the neighbour pool; the local node is
    /// excluded from both.
    pub open spec fn selected_peer_ids(
        self,
        stored: Seq<crate::peer::PeerModel>,
        pool_type: PeerPoolType,
        num_desired: usize,
        now_ms: u64,
        v: Seq<NodeId>,
    ) -> bool {
        match pool_type {
            PeerPoolType::Neighbours => exists|rs: Seq<crate::peer::PeerModel>|
                {
                    &&& #[trigger] crate::peer_query::query_result_ok(
                        stored,
                        crate::peer_selection::neighbour_query(
                            self.node_id,
                            num_desired,
                            seq![self.node_id.value],
                            self.config,
                        ),
                        now_ms,
                        rs,
                    )
                    &&& node_id_values(v) == dedup_ids(model_ids(rs))
                },
            PeerPoolType::Random => exists|rs: Seq<crate::peer::PeerModel>|
                #![trigger model_ids(rs)]
                {
                    let eligible = crate::peer_query::query_filtered(
                        stored,
                        crate::peer_manager::random_query(
                            self.neighbour_ids().push(self.node_id.value),
                        ),
                        now_ms,
                    );
                    &&& rs.len() == (if num_desired < eligible.len() {
                        num_desired as int
                    } else {
                        eligible.len() as int
                    })
                    &&& (forall|i: int| 0 <= i < rs.len() ==> eligible.contains(#[trigger] rs[i]))
                    &&& node_id_values(v) == dedup_ids(model_ids(rs))
                },
        }
    }

    /// The peers a pool of this role should hold now: for the neighbour
    /// pool, the nearest eligible neighbours; for the random pool, random
    /// eligible peers outside the neighbour pool. Every returned id names a
    /// stored, non-banned, routing-capable peer; none is the local node.
    pub fn select_peers(
        &self,
        peer_manager: &PeerManager,
        pool: &PeerPool,
        now_ms: u64,
    ) -> (r: Result<Vec<NodeId>, ConnectivityError>)
        requires
            self.wf(),
            peer_manager.wf(),
        ensures
            r is Ok,
            match r {
                Ok(v) => {
                    &&& forall|i: int, j: int| 0 <= i < j < v@.len() ==> v@[i].value != v@[j].value
                    &&& forall|i: int|
                        0 <= i < v@.len() ==> (#[trigger] v@[i]).value != self.node_id.value
                    &&& forall|i: int|
                        0 <= i < v@.len() ==> stored_routing_peer(
                            peer_manager@,
                            (#[trigger] v@[i]).value,
                            now_ms,
                        )
                    &&& (pool.pool_type is Random ==> forall|i: int|
                        0 <= i < v@.len() ==> !self.neighbour_ids().contains(
                            (#[trigger] v@[i]).value,
                        ))
                    &&& self.selected_peer_ids(
                        peer_manager@,
                        pool.pool_type,
                        pool.params.num_desired,
                        now_ms,
                        v@,
                    )
                },
                Err(_) => false,
            },
    {
        let mut excluded: Vec<NodeId> = Vec::new();
        match pool.pool_type {
            PeerPoolType::Neighbours => {},
            PeerPoolType::Random => {
                match self.active_pools.get_by_type(PeerPoolType::Neighbours) {
                    Some(np) => {
                        excluded = np.get_node_ids();
                    },
                    None => {},
                }
            },
        }
        excluded.push(self.node_id);
        proof {
            assert(node_id_values(excluded@).last() == self.node_id.value);
            assert(node_id_values(excluded@).contains(self.node_id.value));
            if pool.pool_type is Random {
                assert forall|v: u128| self.neighbour_ids().contains(v) implies node_id_values(
                    excluded@,
                ).contains(v) by {
                    let w = choose|w: int|
                        0 <= w < self.neighbour_ids().len() && self.neighbour_ids()[w] == v;
                    assert(node_id_values(excluded@)[w] == v);
                }
            }
        }
        let peers = match pool.pool_type {
            PeerPoolType::Neighbours => {
                match crate::peer_selection::select_neighbours(
                    peer_manager,
                    &self.node_id,
                    pool.params.num_desired,
                    &excluded,
                    &self.config,
                    now_ms,
                ) {
                    Ok(v) => v,
                    Err(e) => {
                        return Err(e);
                    },
                }
            },
            PeerPoolType::Random => {
                match peer_manager.random_peers(pool.params.num_desired, &excluded, now_ms) {
                    Ok(v) => v,
                    Err(e) => {
                        return Err(ConnectivityError::PeerManager(e));
                    },
                }
            },
        };
        let ids = dedup_peer_ids(&peers);
        proof {
            let pv = crate::peer::peers_view(peers@);
            let stored = peer_manager@;
            let q = match pool.pool_type {
                PeerPoolType::Neighbours => crate::peer_selection::neighbour_query(
                    self.node_id,
                    pool.params.num_desired,
                    node_id_values(excluded@),
                    self.config,
                ),
                PeerPoolType::Random => crate::peer_manager::random_query(
                    node_id_values(excluded@),
                ),
            };
            let pred = crate::peer_query::query_pred(q, now_ms);
            let filtered = crate::peer_query::query_filtered(stored, q, now_ms);
            assert forall|j: int| 0 <= j < pv.len() implies filtered.contains(#[trigger] pv[j]) by {
            }
            assert forall|j: int|
                #![trigger pv[j]]
                0 <= j < pv.len() implies (stored_routing_peer(stored, pv[j].node_id, now_ms)
                && !node_id_values(excluded@).contains(pv[j].node_id)) by {
                assert(filtered.contains(pv[j]));
                let f = choose|f: int| 0 <= f < filtered.len() && filtered[f] == pv[j];
                stored.lemma_filter_pred(pred, f);
                stored.lemma_filter_contains_rev(pred, pv[j]);
                let k = choose|k: int| 0 <= k < stored.len() && stored[k] == pv[j];
                assert(pred(stored[k]));
                assert(stored[k].node_id == pv[j].node_id && !stored[k].is_banned_at(now_ms)
                    && stored[k].has_features(
                    crate::peer::PeerFeatures { bits: FEATURE_COMMUNICATION_NODE },
                ));
            }
            assert forall|i: int| 0 <= i < ids@.len() implies ((#[trigger] ids@[i]).value
                != self.node_id.value && (pool.pool_type is Random
                ==> !self.neighbour_ids().contains(ids@[i].value)) && stored_routing_peer(
                stored,
                ids@[i].value,
                now_ms,
            )) by {
                assert(appears_as_node_id(pv, ids@[i].value));
                let jj = choose|jj: int| 0 <= jj < pv.len() && (#[trigger] pv[jj]).node_id
                    == ids@[i].value;
                assert(stored_routing_peer(stored, pv[jj].node_id, now_ms));
                assert(!node_id_values(excluded@).contains(pv[jj].node_id));
            }
            assert(node_id_values(ids@) == dedup_ids(model_ids(pv)));
            match pool.pool_type {
                PeerPoolType::Neighbours => {
                    assert(node_id_values(excluded@) =~= seq![self.node_id.value]);
                    assert(crate::peer_query::query_result_ok(
                        stored,
                        crate::peer_selection::neighbour_query(
                            self.node_id,
                            pool.params.num_desired,
                            seq![self.node_id.value],
                            self.config,
                        ),
                        now_ms,
                        pv,
                    ));
                    assert(self.selected_peer_ids(
                        stored,
                        pool.pool_type,
                        pool.params.num_desired,
                        now_ms,
                        ids@,
                    ));
                },
                PeerPoolType::Random => {
                    assert(node_id_values(excluded@) =~= self.neighbour_ids().push(
                        self.node_id.value,
                    ));
                    let eligible = crate::peer_query::query_filtered(
                        stored,
                        crate::peer_manager::random_query(
                            self.neighbour_ids().push(self.node_id.value),
                        ),
                        now_ms,
                    );
                    assert(eligible == filtered);
                    assert(pv.len() == (if pool.params.num_desired < eligible.len() {
                        pool.params.num_desired as int
                    } else {
                        eligible.len() as int
                    }));
                    assert(self.selected_peer_ids(
                        stored,
                        pool.pool_type,
                        pool.params.num_desired,
                        now_ms,
                        ids@,
                    ));
                },
            }
        }
        Ok(ids)
    }

    /// Creates the pool of this role and starts its first refresh. If a
    /// pool of the role already exists, nothing changes and no plan comes
    /// back: adding a pool is idempotent.
    pub fn add_pool(
        &mut self,
        peer_manager: &PeerManager,
        pool_type: PeerPoolType,
        now_ms: u64,
    ) -> (r: Result<Option<RefreshPlan>, ConnectivityError>)
        requires
            old(self).wf(),
            peer_manager.wf(),
        ensures
            final(self).wf(),
            final(self).config == old(self).config,
            final(self).node_id == old(self).node_id,
            add_pool_post(*old(self), *final(self), peer_manager@, pool_type, now_ms, r),
    {
        match self.active_pools.index_of_type(pool_type) {
            Some(_) => {
                return Ok(None);
            },
            None => {},
        }
        if !self.pool_id_allocator.has_next() {
            return Err(ConnectivityError::PoolIdsExhausted);
        }
        let id = self.pool_id_allocator.get_next_id();
        let params = self.get_pool_params_by_type(pool_type);
        let pool = PeerPool::new(pool_type, params, id);
        proof {
            assert(pool.spec_node_ids() =~= Seq::<u128>::empty());
            if self.active_pools.spec_contains_id(id) {
                let w = choose|w: int|
                    0 <= w < self.active_pools.pools@.len() && (
                    #[trigger] self.active_pools.pools@[w]).id == id;
                assert(old(self).active_pools.pools@[w].id < id);
            }
        }
        self.active_pools.push(pool);
        let ghost mid = *self;
        proof {
            assert(self.active_pools.pools@.last().pool_type == pool_type);
            assert(self.active_pools.spec_contains_type(pool_type));
            assert forall|w: int| 0 <= w < self.active_pools.pools@.len() implies (
            #[trigger] self.active_pools.pools@[w]).id < self.pool_id_allocator.next_id() by {
                if w < old(self).active_pools.pools@.len() {
                    assert(old(self).active_pools.pools@[w].id < old(
                        self,
                    ).pool_id_allocator.next_id());
                }
            }
            if self.active_pools.holds_node_id(self.node_id.value) {
                let w = choose|w: int|
                    0 <= w < self.active_pools.pools@.len() && (
                    #[trigger] self.active_pools.pools@[w]).spec_node_ids().contains(
                        self.node_id.value,
                    );
                if w < old(self).active_pools.pools@.len() {
                    assert(old(self).active_pools.holds_node_id(self.node_id.value));
                } else {
                    assert(self.active_pools.pools@[w].spec_node_ids().len() == 0);
                }
            }
            assert(self.wf());
            self.active_pools.lemma_type_index_unique(
                self.active_pools.idx_of_type(pool_type),
                self.active_pools.pools@.len() - 1,
            );
        }
        let result = self.refresh_pool_if_stale(peer_manager, id, now_ms);
        proof {
            let k = mid.active_pools.idx_of_id(id);
            assert(mid.active_pools.pools@[mid.active_pools.pools@.len() - 1].id == id);
            mid.active_pools.lemma_id_index_unique(k, mid.active_pools.pools@.len() - 1);
            assert(mid.active_pools.pools@[k].pool_type == pool_type);
            match &result {
                Ok(Some(plan)) => {
                    assert(final(self).active_pools.pools@[k].pool_type == pool_type);
                    assert(final(self).active_pools.spec_contains_type(pool_type));
                    final(self).active_pools.lemma_type_index_unique(
                        final(self).active_pools.idx_of_type(pool_type),
                        k,
                    );
                    assert(final(self).active_pools.idx_of_type(pool_type) == k);
                    assert(mid.active_pools.pools@[k].params == spec_pool_params(
                        old(self).config,
                        pool_type,
                    ));
                    assert(final(self).active_pools.pools@[k].params == spec_pool_params(
                        old(self).config,
                        pool_type,
                    ));
                    assert(mid.active_pools.pools@[k].id == id);
                    assert(final(self).active_pools.pools@[k].id == id);
                    assert(plan.pool_id == id);
                    if plan.to_disconnect@.len() > 0 {
                        assert(mid.active_pools.pools@[k].spec_node_ids().contains(
                            plan.to_disconnect@[0].value,
                        ));
                        assert(mid.active_pools.pools@[k].spec_node_ids().len() == 0);
                        assert(false);
                    }
                },
                Ok(None) => {
                    assert(!mid.active_pools.pools@[k].refresh_in_progress);
                    assert(mid.active_pools.pools@[k].last_refreshed_ms is None);
                    assert(mid.active_pools.pools@[k].spec_is_stale(now_ms));
                    assert(false);
                },
                Err(_) => {
                    assert(mid.active_pools.spec_contains_id(id));
                    assert(false);
                },
            }
        }
        result
    }

    /// Brings the pool back in line with the currently desired peers. A
    /// pool that is still fresh, or already refreshing, is left alone. For a
    /// stale pool, connections to peers no longer desired are handed back
    /// for disconnection, desired peers already connected stay, and the
    /// missing desired peers are handed back for dialling; the pool is
    /// marked as refreshing until `complete_pool_refresh`.
    pub fn refresh_pool_if_stale(
        &mut self,
        peer_manager: &PeerManager,
        pool_id: PoolId,
        now_ms: u64,
    ) -> (r: Result<Option<RefreshPlan>, ConnectivityError>)
        requires
            old(self).wf(),
            peer_manager.wf(),
        ensures
            final(self).wf(),
            final(self).config == old(self).config,
            final(self).node_id == old(self).node_id,
            final(self).ad_hoc_pool@ == old(self).ad_hoc_pool@,
            final(self).client_node_pool@ == old(self).client_node_pool@,
            final(self).active_pools.pools@.len() == old(self).active_pools.pools@.len(),
            match r {
                Err(e) => e == ConnectivityError::PoolNotFoundById && *final(self) == *old(self)
                    && !old(self).active_pools.spec_contains_id(pool_id),
                Ok(opt) => {
                    let k = old(self).active_pools.idx_of_id(pool_id);
                    let oldp = old(self).active_pools.pools@[k];
                    &&& old(self).active_pools.spec_contains_id(pool_id)
                    &&& match opt {
                        None => *final(self) == *old(self) && (oldp.refresh_in_progress
                            || !oldp.spec_is_stale(now_ms)),
                        Some(plan) => {
                            let newp = final(self).active_pools.pools@[k];
                            &&& !oldp.refresh_in_progress
                            &&& oldp.spec_is_stale(now_ms)
                            &&& plan.pool_id == pool_id
                            &&& forall|j: int|
                                0 <= j < old(self).active_pools.pools@.len() && j != k ==> final(self).active_pools.pools@[j]
                                    == old(self).active_pools.pools@[j]
                            &&& newp.id == oldp.id
                            &&& newp.pool_type == oldp.pool_type
                            &&& newp.params == oldp.params
                            &&& newp.status == oldp.status
                            &&& newp.last_refreshed_ms == oldp.last_refreshed_ms
                            &&& newp.refresh_in_progress
                            &&& forall|v: u128|
                                #[trigger] newp.spec_node_ids().contains(v)
                                    ==> oldp.spec_node_ids().contains(v)
                            &&& forall|i: int, j: int|
                                0 <= i < j < plan.to_dial@.len() ==> plan.to_dial@[i].value
                                    != plan.to_dial@[j].value
                            &&& forall|i: int|
                                0 <= i < plan.to_dial@.len() ==> !newp.spec_node_ids().contains(
                                    (#[trigger] plan.to_dial@[i]).value,
                                )
                            &&& forall|i: int|
                                0 <= i < plan.to_dial@.len() ==> (#[trigger] plan.to_dial@[i]).value
                                    != old(self).node_id.value
                            &&& forall|i: int|
                                0 <= i < plan.to_dial@.len() ==> stored_routing_peer(
                                    peer_manager@,
                                    (#[trigger] plan.to_dial@[i]).value,
                                    now_ms,
                                )
                            &&& (oldp.pool_type is Random ==> forall|i: int|
                                0 <= i < plan.to_dial@.len() ==> !old(self).neighbour_ids().contains(
                                    (#[trigger] plan.to_dial@[i]).value,
                                ))
                            &&& forall|i: int|
                                0 <= i < plan.to_disconnect@.len() ==> oldp.spec_node_ids().contains(
                                    (#[trigger] plan.to_disconnect@[i]).value,
                                )
                            &&& forall|i: int|
                                0 <= i < plan.to_disconnect@.len() ==> !newp.spec_node_ids().contains(
                                    (#[trigger] plan.to_disconnect@[i]).value,
                                )
                            &&& exists|sel: Seq<NodeId>|
                                #![trigger node_id_values(sel)]
                                {
                                    &&& old(self).selected_peer_ids(
                                        peer_manager@,
                                        oldp.pool_type,
                                        oldp.params.num_desired,
                                        now_ms,
                                        sel,
                                    )
                                    &&& newp.connections@ == oldp.connections@.filter(
                                        in_ids_pred(node_id_values(sel)),
                                    )
                                    &&& node_id_values(plan.to_disconnect@) == connection_ids(
                                        oldp.connections@,
                                    ).filter(not_in_ids_pred(node_id_values(sel)))
                                    &&& plan.to_dial@ == sel.filter(
                                        dial_pred(connection_ids(oldp.connections@)),
                                    )
                                }
                        },
                    }
                },
            },
    {
        let i = match self.active_pools.index_of_id(pool_id) {
            None => {
                return Err(ConnectivityError::PoolNotFoundById);
            },
            Some(i) => i,
        };
        let pool = self.active_pools.pools[i].clone();
        if pool.refresh_in_progress {
            return Ok(None);
        }
        if !pool.is_stale(now_ms) {
            return Ok(None);
        }
        let new_ids = match self.select_peers(peer_manager, &pool, now_ms) {
            Ok(v) => v,
            Err(e) => {
                return Err(e);
            },
        };
        let ghost oldp = old(self).active_pools.pools@[i as int];
        let ghost selvals = node_id_values(new_ids@);
        let ghost keeppred = in_ids_pred(node_id_values(new_ids@));
        let ghost idp = not_in_ids_pred(node_id_values(new_ids@));
        let mut keep: Vec<PeerConnection> = Vec::new();
        let mut to_disconnect: Vec<NodeId> = Vec::new();
        proof {
            assert(self.active_pools.pools@[i as int].wf());
            assert forall|a: int, b: int|
                0 <= a < b < pool.connections@.len() implies (
            #[trigger] pool.connections@[a]).node_id.value != (
            #[trigger] pool.connections@[b]).node_id.value by {
                assert(oldp.spec_node_ids()[a] != oldp.spec_node_ids()[b]);
            }
            reveal(Seq::filter);
            assert(pool.connections@.take(0) =~= Seq::<PeerConnection>::empty());
            assert(connection_ids(pool.connections@).take(0) =~= Seq::<u128>::empty());
            assert(keep@ =~= pool.connections@.take(0).filter(keeppred));
            assert(node_id_values(to_disconnect@) =~= connection_ids(pool.connections@).take(
                0,
            ).filter(idp));
        }
        let mut j: usize = 0;
        while j < pool.connections.len()
            invariant
                j <= pool.connections@.len(),
                pool.connections@ == oldp.connections@,
                crate::peer_pool::distinct_connection_ids(pool.connections@),
                selvals == node_id_values(new_ids@),
                keeppred == in_ids_pred(node_id_values(new_ids@)),
                idp == not_in_ids_pred(node_id_values(new_ids@)),
                keep@ == pool.connections@.take(j as int).filter(keeppred),
                node_id_values(to_disconnect@) == connection_ids(pool.connections@).take(
                    j as int,
                ).filter(idp),
                forall|a: int, b: int|
                    0 <= a < b < keep@.len() ==> keep@[a].node_id.value != keep@[b].node_id.value,
                forall|v: u128|
                    #[trigger] connection_ids(keep@).contains(v) ==> (connection_ids(
                        pool.connections@,
                    ).contains(v) && node_id_values(new_ids@).contains(v)),
                forall|a: int|
                    0 <= a < to_disconnect@.len() ==> connection_ids(pool.connections@).contains(
                        (#[trigger] to_disconnect@[a]).value,
                    ),
                forall|a: int|
                    0 <= a < to_disconnect@.len() ==> !node_id_values(new_ids@).contains(
                        (#[trigger] to_disconnect@[a]).value,
                    ),
            decreases pool.connections@.len() - j,
        {
            let c = pool.connections[j];
            proof {
                assert(connection_ids(pool.connections@)[j as int] == c.node_id.value);
                assert(pool.connections@.take(j as int + 1) =~= pool.connections@.take(
                    j as int,
                ).push(c));
                crate::peer_query::lemma_filter_push(
                    pool.connections@.take(j as int),
                    c,
                    keeppred,
                );
                assert(connection_ids(pool.connections@).take(j as int + 1) =~= connection_ids(
                    pool.connections@,
                ).take(j as int).push(c.node_id.value));
                crate::peer_query::lemma_filter_push(
                    connection_ids(pool.connections@).take(j as int),
                    c.node_id.value,
                    idp,
                );
            }
            if crate::node_id::node_ids_contain(&new_ids, &c.node_id) {
                if !connections_contain(&keep, &c.node_id) {
                    let ghost prev = keep@;
                    keep.push(c);
                    proof {
                        assert(connection_ids(keep@) =~= connection_ids(prev).push(
                            c.node_id.value,
                        ));
                        assert forall|a: int, b: int|
                            0 <= a < b < keep@.len() implies keep@[a].node_id.value
                            != keep@[b].node_id.value by {
                            if b == prev.len() {
                                assert(connection_ids(prev)[a] == keep@[a].node_id.value);
                            }
                        }
                        assert forall|v: u128| #[trigger]
                            connection_ids(keep@).contains(v) implies (connection_ids(
                            pool.connections@,
                        ).contains(v) && node_id_values(new_ids@).contains(v)) by {
                            if v != c.node_id.value {
                                assert(connection_ids(prev).contains(v));
                            }
                        }
                    }
                } else {
                    proof {
                        assert(connection_ids(keep@).contains(c.node_id.value));
                        let w = connection_ids(keep@).lemma_contains_to_index(c.node_id.value);
                        assert(keep@.contains(keep@[w]));
                        pool.connections@.take(j as int).lemma_filter_contains_rev(
                            keeppred,
                            keep@[w],
                        );
                        let w0 = pool.connections@.take(j as int).lemma_contains_to_index(
                            keep@[w],
                        );
                        assert(pool.connections@[w0].node_id.value
                            == pool.connections@[j as int].node_id.value);
                        assert(false);
                    }
                }
            } else {
                let ghost prevd = to_disconnect@;
                to_disconnect.push(c.node_id);
                proof {
                    assert(node_id_values(to_disconnect@) =~= node_id_values(prevd).push(
                        c.node_id.value,
                    ));
                }
            }
            j = j + 1;
        }
        proof {
            assert(pool.connections@.take(pool.connections@.len() as int)
                =~= pool.connections@);
            assert(connection_ids(pool.connections@).take(pool.connections@.len() as int)
                =~= connection_ids(pool.connections@));
        }
        let ghost dp = dial_pred(connection_ids(pool.connections@));
        let mut to_dial: Vec<NodeId> = Vec::new();
        proof {
            assert(new_ids@.take(0) =~= Seq::<NodeId>::empty());
            assert(to_dial@ =~= new_ids@.take(0).filter(dp));
        }
        let mut t: usize = 0;
        while t < new_ids.len()
            invariant
                t <= new_ids@.len(),
                dp == dial_pred(connection_ids(pool.connections@)),
                to_dial@ == new_ids@.take(t as int).filter(dp),
                forall|a: int, b: int|
                    0 <= a < b < new_ids@.len() ==> new_ids@[a].value != new_ids@[b].value,
                forall|a: int|
                    0 <= a < to_dial@.len() ==> exists|b: int|
                        0 <= b < t && (#[trigger] to_dial@[a]).value == new_ids@[b].value,
                forall|a: int, b: int|
                    0 <= a < b < to_dial@.len() ==> to_dial@[a].value != to_dial@[b].value,
                forall|a: int|
                    0 <= a < to_dial@.len() ==> !connection_ids(pool.connections@).contains(
                        (#[trigger] to_dial@[a]).value,
                    ),
            decreases new_ids@.len() - t,
        {
            let nid = new_ids[t];
            proof {
                assert(new_ids@.take(t as int + 1) =~= new_ids@.take(t as int).push(nid));
                crate::peer_query::lemma_filter_push(new_ids@.take(t as int), nid, dp);
            }
            if !connections_contain(&pool.connections, &nid) {
                let ghost prev = to_dial@;
                to_dial.push(nid);
                proof {
                    assert forall|a: int|
                        0 <= a < to_dial@.len() implies exists|b: int|
                        0 <= b < t + 1 && (#[trigger] to_dial@[a]).value == new_ids@[b].value by {
                        if a < prev.len() {
                            let b = choose|b: int|
                                0 <= b < t && (#[trigger] prev[a]).value == new_ids@[b].value;
                            assert(to_dial@[a].value == new_ids@[b].value);
                        } else {
                            assert(to_dial@[a].value == new_ids@[t as int].value);
                        }
                    }
                    assert forall|a: int, b: int|
                        0 <= a < b < to_dial@.len() implies to_dial@[a].value
                        != to_dial@[b].value by {
                        if b == prev.len() {
                            let w = choose|w: int|
                                0 <= w < t && (#[trigger] prev[a]).value == new_ids@[w].value;
                            assert(new_ids@[w].value != new_ids@[t as int].value);
                        }
                    }
                }
            } else {
                proof {
                    assert forall|a: int|
                        0 <= a < to_dial@.len() implies exists|b: int|
                        0 <= b < t + 1 && (#[trigger] to_dial@[a]).value == new_ids@[b].value by {
                        let b = choose|b: int|
                            0 <= b < t && (#[trigger] to_dial@[a]).value == new_ids@[b].value;
                        assert(to_dial@[a].value == new_ids@[b].value);
                    }
                }
            }
            t = t + 1;
        }
        proof {
            assert(new_ids@.take(new_ids@.len() as int) =~= new_ids@);
        }
        let mut newp = pool;
        newp.connections = keep;
        newp.refresh_in_progress = true;
        let ghost keptids = newp.spec_node_ids();
        let ghost oldpools = self.active_pools.pools@;
        self.active_pools.pools.set(i, newp);
        proof {
            assert forall|a: int, b: int|
                0 <= a < b < keptids.len() implies keptids[a] != keptids[b] by {
                assert(self.active_pools.pools@[i as int].connections@[a].node_id.value
                    != self.active_pools.pools@[i as int].connections@[b].node_id.value);
            }
            assert forall|a: int, b: int|
                0 <= a < self.active_pools.pools@.len() && 0 <= b < self.active_pools.pools@.len()
                    && a != b implies crate::peer_pools::disjoint_ids(
                (#[trigger] self.active_pools.pools@[a]).spec_node_ids(),
                (#[trigger] self.active_pools.pools@[b]).spec_node_ids(),
            ) by {
                assert(crate::peer_pools::disjoint_ids(
                    oldpools[a].spec_node_ids(),
                    oldpools[b].spec_node_ids(),
                ));
                assert forall|v: u128| #[trigger]
                    self.active_pools.pools@[a].spec_node_ids().contains(v) implies !self
                    .active_pools.pools@[b].spec_node_ids().contains(v) by {
                    if a == i {
                        assert(oldpools[a].spec_node_ids().contains(v));
                    }
                    if b == i {
                        if self.active_pools.pools@[b].spec_node_ids().contains(v) {
                            assert(oldpools[b].spec_node_ids().contains(v));
                        }
                    }
                }
            }
            assert(self.active_pools.wf());
            if self.active_pools.holds_node_id(self.node_id.value) {
                let w = choose|w: int|
                    0 <= w < self.active_pools.pools@.len() && (
                    #[trigger] self.active_pools.pools@[w]).spec_node_ids().contains(
                        self.node_id.value,
                    );
                assert(oldpools[w].spec_node_ids().contains(self.node_id.value));
            }
            assert(self.active_pools.pools@[i as int].spec_node_ids() == keptids);
            assert forall|a: int| 0 <= a < to_dial@.len() implies !keptids.contains(
                (#[trigger] to_dial@[a]).value,
            ) by {
                if keptids.contains(to_dial@[a].value) {
                    assert(connection_ids(pool.connections@).contains(to_dial@[a].value));
                }
            }
            assert(pool.pool_type == oldp.pool_type && pool.params == oldp.params);
            assert(old(self).selected_peer_ids(
                peer_manager@,
                oldp.pool_type,
                oldp.params.num_desired,
                now_ms,
                new_ids@,
            ));
            assert(self.active_pools.pools@[i as int].connections@ == oldp.connections@.filter(
                in_ids_pred(node_id_values(new_ids@)),
            ));
            assert(node_id_values(to_disconnect@) == connection_ids(oldp.connections@).filter(
                not_in_ids_pred(node_id_values(new_ids@)),
            ));
            assert(to_dial@ == new_ids@.filter(dial_pred(connection_ids(oldp.connections@))));
        }
        Ok(Some(RefreshPlan { pool_id, to_dial, to_disconnect }))
    }

    /// Applies the outcome of a refresh: failed dials are recorded in the
    /// directory, successful connections enter the pool unless the peer is
    /// the local node or already sits in a pool, and the pool is stamped
    /// fresh with a status reflecting how full it came out.
    #[verifier::loop_isolation(false)]
    #[verifier::rlimit(60)]
    pub fn complete_pool_refresh(
        &mut self,
        peer_manager: &mut PeerManager,
        pool_id: PoolId,
        new_connections: Vec<PeerConnection>,
        failed: Vec<NodeId>,
        now_ms: u64,
    ) -> (r: Result<(), ConnectivityError>)
        requires
            old(self).wf(),
            old(peer_manager).wf(),
        ensures
            final(self).wf(),
            final(peer_manager).wf(),
            final(peer_manager)@.len() == old(peer_manager)@.len(),
            forall|j: int|
                0 <= j < old(peer_manager)@.len() ==> crate::peer::same_identity(
                    #[trigger] old(peer_manager)@[j],
                    final(peer_manager)@[j],
                ),
            final(peer_manager)@ == crate::peer_manager::record_failures(
                old(peer_manager)@,
                failed@,
                now_ms,
            ),
            final(self).config == old(self).config,
            final(self).node_id == old(self).node_id,
            final(self).ad_hoc_pool@ == old(self).ad_hoc_pool@,
            final(self).client_node_pool@ == old(self).client_node_pool@,
            match r {
                Err(e) => e == ConnectivityError::PoolNotFoundById && !old(
                    self,
                ).active_pools.spec_contains_id(pool_id) && final(self).active_pools.pools@ == old(
                    self,
                ).active_pools.pools@,
                Ok(()) => {
                    let k = old(self).active_pools.idx_of_id(pool_id);
                    let oldp = old(self).active_pools.pools@[k];
                    let newp = final(self).active_pools.pools@[k];
                    &&& old(self).active_pools.spec_contains_id(pool_id)
                    &&& final(self).active_pools.pools@.len() == old(
                        self,
                    ).active_pools.pools@.len()
                    &&& forall|j: int|
                        0 <= j < old(self).active_pools.pools@.len() && j != k ==> final(self).active_pools.pools@[j]
                            == old(self).active_pools.pools@[j]
                    &&& newp.id == oldp.id
                    &&& newp.pool_type == oldp.pool_type
                    &&& newp.params == oldp.params
                    &&& !newp.refresh_in_progress
                    &&& newp.last_refreshed_ms == Some(now_ms)
                    &&& newp.status == pool_status_for(newp.params, newp.connections@.len() as nat)
                    &&& forall|v: u128|
                        #[trigger] oldp.spec_node_ids().contains(v)
                            ==> newp.spec_node_ids().contains(v)
                    &&& forall|v: u128|
                        #[trigger] newp.spec_node_ids().contains(v) ==> (oldp.spec_node_ids().contains(
                            v,
                        ) || connection_ids(new_connections@).contains(v))
                    &&& newp.connections@ == admit_connections(
                        oldp.connections@,
                        new_connections@,
                        old(self).node_id.value,
                        old(self).active_pools,
                    )
                },
            },
    {
        let ghost pm0 = peer_manager@;
        proof {
            assert(failed@.skip(0) =~= failed@);
        }
        let mut f: usize = 0;
        while f < failed.len()
            invariant
                f <= failed.len(),
                peer_manager.wf(),
                peer_manager@.len() == pm0.len(),
                pm0 == old(peer_manager)@,
                crate::peer_manager::record_failures(peer_manager@, failed@.skip(f as int), now_ms)
                    == crate::peer_manager::record_failures(pm0, failed@, now_ms),
                forall|j: int|
                    0 <= j < pm0.len() ==> crate::peer::same_identity(
                        #[trigger] pm0[j],
                        peer_manager@[j],
                    ),
            decreases failed.len() - f,
        {
            let ghost pre = peer_manager@;
            proof {
                let rest = failed@.skip(f as int);
                assert(rest.first() == failed@[f as int]);
                assert(rest.drop_first() =~= failed@.skip(f as int + 1));
            }
            let outcome = peer_manager.set_last_connect_failed(&failed[f], now_ms);
            proof {
                assert(peer_manager@ == crate::peer_manager::record_failure(
                    pre,
                    failed@[f as int].value,
                    now_ms,
                ));
                assert forall|j: int| 0 <= j < pm0.len() implies crate::peer::same_identity(
                    #[trigger] pm0[j],
                    peer_manager@[j],
                ) by {
                    assert(crate::peer::same_identity(pre[j], peer_manager@[j]));
                }
            }
            f = f + 1;
        }
        proof {
            assert(failed@.skip(failed@.len() as int) =~= Seq::<NodeId>::empty());
        }
        let i = match self.active_pools.index_of_id(pool_id) {
            None => {
                return Err(ConnectivityError::PoolNotFoundById);
            },
            Some(i) => i,
        };
        let ghost oldp = self.active_pools.pools@[i as int];
        let mut newp = self.active_pools.pools[i].clone();
        proof {
            assert(self.active_pools.pools@[i as int].wf());
            assert forall|a: int, b: int|
                0 <= a < b < newp.connections@.len() implies newp.connections@[a].node_id.value
                != newp.connections@[b].node_id.value by {
                assert(oldp.spec_node_ids()[a] != oldp.spec_node_ids()[b]);
            }
            assert forall|a: int| 0 <= a < newp.connections@.len() implies oldp.spec_node_ids().contains(
                (#[trigger] newp.connections@[a]).node_id.value,
            ) by {
                assert(oldp.spec_node_ids()[a] == newp.connections@[a].node_id.value);
            }
        }
        proof {
            assert(new_connections@.skip(0) =~= new_connections@);
            assert(newp.connections@ == oldp.connections@);
        }
        let mut c: usize = 0;
        while c < new_connections.len()
            invariant
                c <= new_connections.len(),
                *self == *old(self),
                self.wf(),
                i < self.active_pools.pools@.len(),
                oldp == self.active_pools.pools@[i as int],
                admit_connections(
                    newp.connections@,
                    new_connections@.skip(c as int),
                    old(self).node_id.value,
                    old(self).active_pools,
                ) == admit_connections(
                    oldp.connections@,
                    new_connections@,
                    old(self).node_id.value,
                    old(self).active_pools,
                ),
                newp.id == oldp.id,
                newp.pool_type == oldp.pool_type,
                newp.params == oldp.params,
                newp.status == oldp.status,
                newp.last_refreshed_ms == oldp.last_refreshed_ms,
                newp.refresh_in_progress == oldp.refresh_in_progress,
                forall|a: int, b: int|
                    0 <= a < b < newp.connections@.len() ==> newp.connections@[a].node_id.value
                        != newp.connections@[b].node_id.value,
                forall|v: u128|
                    #[trigger] oldp.spec_node_ids().contains(v) ==> newp.spec_node_ids().contains(
                        v,
                    ),
                forall|a: int|
                    0 <= a < newp.connections@.len() ==> (oldp.spec_node_ids().contains(
                        (#[trigger] newp.connections@[a]).node_id.value,
                    ) || (connection_ids(new_connections@).contains(newp.connections@[a].node_id.value)
                        && newp.connections@[a].node_id.value != self.node_id.value
                        && !self.active_pools.holds_node_id(newp.connections@[a].node_id.value))),
            decreases new_connections.len() - c,
        {
            let conn = new_connections[c];
            proof {
                let rest = new_connections@.skip(c as int);
                assert(rest.first() == conn);
                assert(rest.drop_first() =~= new_connections@.skip(c as int + 1));
            }
            if conn.node_id.value != self.node_id.value && !self.active_pools.contains_node_id(
                &conn.node_id,
            ) && !connections_contain(&newp.connections, &conn.node_id) {
                let ghost prev = newp.connections@;
                newp.connections.push(conn);
                proof {
                    assert(connection_ids(newp.connections@) =~= connection_ids(prev).push(
                        conn.node_id.value,
                    ));
                    assert(connection_ids(new_connections@)[c as int] == conn.node_id.value);
                    assert forall|a: int, b: int|
                        0 <= a < b < newp.connections@.len() implies newp.connections@[
                    a].node_id.value != newp.connections@[b].node_id.value by {
                        if b == prev.len() {
                            assert(connection_ids(prev)[a] == newp.connections@[a].node_id.value);
                        }
                    }
                    assert forall|a: int|
                        0 <= a < newp.connections@.len() implies (oldp.spec_node_ids().contains(
                        (#[trigger] newp.connections@[a]).node_id.value,
                    ) || (connection_ids(new_connections@).contains(
                        newp.connections@[a].node_id.value,
                    ) && newp.connections@[a].node_id.value != self.node_id.value
                        && !self.active_pools.holds_node_id(
                        newp.connections@[a].node_id.value,
                    ))) by {
                        if a < prev.len() {
                            assert(newp.connections@[a] == prev[a]);
                        } else {
                            assert(newp.connections@[a] == conn);
                            assert(connection_ids(new_connections@)[c as int]
                                == conn.node_id.value);
                            assert(connection_ids(new_connections@).contains(conn.node_id.value));
                        }
                    }
                    assert forall|v: u128| #[trigger]
                        oldp.spec_node_ids().contains(v) implies newp.spec_node_ids().contains(
                        v,
                    ) by {
                        assert(connection_ids(prev).contains(v));
                        let w = connection_ids(prev).lemma_contains_to_index(v);
                        assert(connection_ids(newp.connections@)[w] == v);
                    }
                }
            }
            c = c + 1;
        }
        let ghost kept = newp.spec_node_ids();
        proof {
            assert(new_connections@.skip(new_connections@.len() as int)
                =~= Seq::<PeerConnection>::empty());
            assert(newp.connections@ == admit_connections(
                oldp.connections@,
                new_connections@,
                old(self).node_id.value,
                old(self).active_pools,
            ));
            assert forall|v: u128| #[trigger]
                newp.spec_node_ids().contains(v) implies (oldp.spec_node_ids().contains(v) || (
                connection_ids(new_connections@).contains(v) && v != self.node_id.value
                    && !self.active_pools.holds_node_id(v))) by {
                let w = connection_ids(newp.connections@).lemma_contains_to_index(v);
                assert(newp.connections@[w].node_id.value == v);
            }
        }
        let len = newp.connections.len();
        newp.status = if len >= newp.params.num_desired {
            PoolStatus::Full
        } else {
            match newp.params.min_required {
                None => PoolStatus::Partial,
                Some(m) => if len >= m {
                    PoolStatus::Partial
                } else {
                    PoolStatus::Failed
                },
            }
        };
        newp.last_refreshed_ms = Some(now_ms);
        newp.refresh_in_progress = false;
        let ghost oldpools = self.active_pools.pools@;
        self.active_pools.pools.set(i, newp);
        proof {
            assert(self.active_pools.pools@[i as int].spec_node_ids() == kept);
            assert forall|a: int, b: int|
                0 <= a < b < self.active_pools.pools@[i as int].spec_node_ids().len() implies
                self.active_pools.pools@[i as int].spec_node_ids()[a] != self.active_pools.pools@[
            i as int].spec_node_ids()[b] by {
                assert(self.active_pools.pools@[i as int].connections@[a].node_id.value
                    != self.active_pools.pools@[i as int].connections@[b].node_id.value);
            }
            assert forall|a: int, b: int|
                0 <= a < self.active_pools.pools@.len() && 0 <= b < self.active_pools.pools@.len()
                    && a != b implies crate::peer_pools::disjoint_ids(
                (#[trigger] self.active_pools.pools@[a]).spec_node_ids(),
                (#[trigger] self.active_pools.pools@[b]).spec_node_ids(),
            ) by {
                assert(crate::peer_pools::disjoint_ids(
                    oldpools[a].spec_node_ids(),
                    oldpools[b].spec_node_ids(),
                ));
                assert forall|v: u128| #[trigger]
                    self.active_pools.pools@[a].spec_node_ids().contains(v) implies !self
                    .active_pools.pools@[b].spec_node_ids().contains(v) by {
                    if a == i as int {
                        if oldp.spec_node_ids().contains(v) {
                            assert(!oldpools[b].spec_node_ids().contains(v));
                        } else {
                            assert(!old(self).active_pools.holds_node_id(v));
                            if self.active_pools.pools@[b].spec_node_ids().contains(v) {
                                assert(oldpools[b].spec_node_ids().contains(v));
                                assert(old(self).active_pools.holds_node_id(v));
                            }
                        }
                    } else if b == i as int {
                        assert(oldpools[a].spec_node_ids().contains(v));
                        if self.active_pools.pools@[b].spec_node_ids().contains(v) {
                            if oldp.spec_node_ids().contains(v) {
                                assert(!oldpools[a].spec_node_ids().contains(v));
                            } else {
                                assert(!old(self).active_pools.holds_node_id(v));
                                assert(old(self).active_pools.holds_node_id(v));
                            }
                        }
                    } else {
                        assert(oldpools[a].spec_node_ids().contains(v));
                        assert(!oldpools[b].spec_node_ids().contains(v));
                    }
                }
            }
            assert(self.active_pools.wf());
            if self.active_pools.holds_node_id(self.node_id.value) {
                let w = choose|w: int|
                    0 <= w < self.active_pools.pools@.len() && (
                    #[trigger] self.active_pools.pools@[w]).spec_node_ids().contains(
                        self.node_id.value,
                    );
                if w == i as int {
                    assert(!oldp.spec_node_ids().contains(self.node_id.value));
                } else {
                    assert(oldpools[w].spec_node_ids().contains(self.node_id.value));
                }
            }
        }
        Ok(())
    }

    /// True when a pool or buffer holds this exact connection.
    pub open spec fn holds_connection(self, c: PeerConnection) -> bool {
        ||| exists|i: int|
            0 <= i < self.active_pools.pools@.len() && (
            #[trigger] self.active_pools.pools@[i]).connections@.contains(c)
        ||| self.ad_hoc_pool@.contains(c)
        ||| self.client_node_pool@.contains(c)
    }

    /// Serves a selection from what the pools hold right now, without
    /// consulting the directory. `Propagation` draws random members of the
    /// neighbour and random pools, at least the configured sample floor of
    /// each, deduplicated by node id. `Single` returns the connection to
    /// the given peer if a pool or buffer holds one.
    pub fn select_connections(&self, selection: &ConnectivitySelection) -> (r: Result<
        Vec<PeerConnection>,
        ConnectivityError,
    >)
        requires
            self.wf(),
        ensures
            select_connections_post(*self, *selection, r),
    {
        let mut out: Vec<PeerConnection> = Vec::new();
        match selection {
            ConnectivitySelection::Propagation { num_neighbour, num_random } => {
                let floor = self.config.propagation_random_sample_size;
                let n1 = if *num_neighbour > floor {
                    *num_neighbour
                } else {
                    floor
                };
                let n2 = if *num_random > floor {
                    *num_random
                } else {
                    floor
                };
                self.sample_pool_into(PeerPoolType::Neighbours, n1, &mut out);
                proof {
                    assert forall|a: int| 0 <= a < out@.len() implies !self.pool_ids_of_type(
                        PeerPoolType::Random,
                    ).contains((#[trigger] out@[a]).node_id.value) by {
                        if self.active_pools.spec_contains_type(PeerPoolType::Random) {
                            let rb = self.active_pools.idx_of_type(PeerPoolType::Random);
                            assert(self.pool_ids_of_type(PeerPoolType::Neighbours).contains(
                                out@[a].node_id.value,
                            ));
                            let na = self.active_pools.idx_of_type(PeerPoolType::Neighbours);
                            assert(self.active_pools.pools@[na].pool_type
                                != self.active_pools.pools@[rb].pool_type);
                            assert(crate::peer_pools::disjoint_ids(
                                self.active_pools.pools@[na].spec_node_ids(),
                                self.active_pools.pools@[rb].spec_node_ids(),
                            ));
                        }
                    }
                }
                self.sample_pool_into(PeerPoolType::Random, n2, &mut out);
                Ok(out)
            },
            ConnectivitySelection::Single(id) => {
                let mut i: usize = 0;
                while i < self.active_pools.pools.len()
                    invariant
                        self.wf(),
                        *selection == ConnectivitySelection::Single(*id),
                        i <= self.active_pools.pools@.len(),
                        out@.len() == 0,
                        forall|w: int|
                            0 <= w < i ==> !(#[trigger] self.active_pools.pools@[
                            w]).spec_node_ids().contains(id.value),
                    decreases self.active_pools.pools@.len() - i,
                {
                    let conns = &self.active_pools.pools[i].connections;
                    let mut j: usize = 0;
                    while j < conns.len()
                        invariant
                            self.wf(),
                            *selection == ConnectivitySelection::Single(*id),
                            i < self.active_pools.pools@.len(),
                            conns@ == self.active_pools.pools@[i as int].connections@,
                            j <= conns@.len(),
                            out@.len() == 0,
                            forall|w: int|
                                0 <= w < j ==> (#[trigger] conns@[w]).node_id.value != id.value,
                        decreases conns@.len() - j,
                    {
                        if conns[j].node_id.value == id.value {
                            out.push(conns[j]);
                            proof {
                                assert(self.active_pools.pools@[i as int].connections@[j as int]
                                    == out@[0]);
                                assert((#[trigger] self.active_pools.pools@[
                                i as int]).connections@.contains(out@[0]));
                                assert(self.holds_connection(out@[0]));
                                assert(self.active_pools.pools@[i as int].spec_node_ids()[j as int]
                                    == id.value);
                                assert(self.active_pools.pools@[i as int].spec_node_ids().contains(
                                    id.value,
                                ));
                                assert(self.active_pools.holds_node_id(id.value));
                            }
                            return Ok(out);
                        }
                        j = j + 1;
                    }
                    proof {
                        if self.active_pools.pools@[i as int].spec_node_ids().contains(id.value) {
                            let w = self.active_pools.pools@[
                            i as int].spec_node_ids().lemma_contains_to_index(id.value);
                            assert(conns@[w].node_id.value == id.value);
                        }
                    }
                    i = i + 1;
                }
                proof {
                    if self.active_pools.holds_node_id(id.value) {
                        let w = choose|w: int|
                            0 <= w < self.active_pools.pools@.len() && (
                            #[trigger] self.active_pools.pools@[w]).spec_node_ids().contains(
                                id.value,
                            );
                    }
                }
                Ok(out)
            },
        }
    }

    /// Pushes `min(n, pool size)` random members of the pool of this role
    /// into `out`; with no pool of the role, nothing is added. The caller
    /// supplies a list holding no member of that pool, so nothing is lost
    /// to deduplication.
    fn sample_pool_into(
        &self,
        pool_type: PeerPoolType,
        n: usize,
        out: &mut Vec<PeerConnection>,
    )
        requires
            self.wf(),
            forall|i: int, j: int|
                0 <= i < j < old(out)@.len() ==> old(out)@[i].node_id.value != old(out)@[j].node_id.value,
            forall|i: int|
                0 <= i < old(out)@.len() ==> self.holds_connection(#[trigger] old(out)@[i]),
            forall|i: int|
                0 <= i < old(out)@.len() ==> !self.pool_ids_of_type(pool_type).contains(
                    (#[trigger] old(out)@[i]).node_id.value,
                ),
        ensures
            forall|i: int, j: int|
                0 <= i < j < final(out)@.len() ==> final(out)@[i].node_id.value != final(out)@[j].node_id.value,
            forall|i: int|
                0 <= i < final(out)@.len() ==> self.holds_connection(#[trigger] final(out)@[i]),
            final(out)@.len() == old(out)@.len() + (if n < self.pool_ids_of_type(pool_type).len() {
                n as int
            } else {
                self.pool_ids_of_type(pool_type).len() as int
            }),
            forall|i: int|
                old(out)@.len() <= i < final(out)@.len() ==> self.pool_ids_of_type(
                    pool_type,
                ).contains((#[trigger] final(out)@[i]).node_id.value),
    {
        let i = match self.active_pools.index_of_type(pool_type) {
            Some(i) => i,
            None => {
                return ;
            },
        };
        let conns = &self.active_pools.pools[i].connections;
        proof {
            assert(self.active_pools.pools@[i as int].wf());
            assert(self.pool_ids_of_type(pool_type) == self.active_pools.pools@[
            i as int].spec_node_ids());
        }
        let ghost base = out@.len();
        let picks = crate::random::sample_indices(conns.len(), n);
        let mut t: usize = 0;
        while t < picks.len()
            invariant
                self.wf(),
                i < self.active_pools.pools@.len(),
                i as int == self.active_pools.idx_of_type(pool_type),
                self.active_pools.spec_contains_type(pool_type),
                conns@ == self.active_pools.pools@[i as int].connections@,
                base == old(out)@.len(),
                t <= picks@.len(),
                picks@.len() == (if n < conns@.len() {
                    n as int
                } else {
                    conns@.len() as int
                }),
                out@.len() == base + t,
                forall|a: int| 0 <= a < base ==> #[trigger] out@[a] == old(out)@[a],
                forall|a: int|
                    0 <= a < base ==> !self.pool_ids_of_type(pool_type).contains(
                        (#[trigger] old(out)@[a]).node_id.value,
                    ),
                forall|a: int| 0 <= a < picks@.len() ==> (#[trigger] picks@[a]) < conns@.len(),
                forall|a: int, b: int| 0 <= a < b < picks@.len() ==> picks@[a] != picks@[b],
                forall|a: int|
                    base <= a < out@.len() ==> #[trigger] out@[a] == conns@[picks@[a - base] as int],
                forall|a: int, b: int|
                    0 <= a < b < out@.len() ==> out@[a].node_id.value != out@[b].node_id.value,
                forall|a: int| 0 <= a < out@.len() ==> self.holds_connection(#[trigger] out@[a]),
            decreases picks@.len() - t,
        {
            let c = conns[picks[t]];
            let ghost prev = out@;
            out.push(c);
            proof {
                assert(self.active_pools.pools@[i as int].connections@.contains(c));
                assert(self.holds_connection(c));
                assert(self.active_pools.pools@[i as int].wf());
                assert(conns@[picks@[t as int] as int] == c);
                assert(connection_ids(conns@)[picks@[t as int] as int] == c.node_id.value);
                assert(self.active_pools.pools@[i as int].spec_node_ids() == connection_ids(
                    conns@,
                ));
                assert(self.pool_ids_of_type(pool_type).contains(c.node_id.value));
                assert forall|a: int, b: int|
                    0 <= a < b < out@.len() implies out@[a].node_id.value
                    != out@[b].node_id.value by {
                    if b == prev.len() {
                        if a < base {
                            assert(out@[a] == old(out)@[a]);
                        } else {
                            let pa = picks@[a - base];
                            let pb = picks@[t as int];
                            assert(pa != pb);
                            assert(connection_ids(conns@)[pa as int] != connection_ids(conns@)[
                            pb as int]);
                        }
                    }
                }
            }
            t = t + 1;
        }
        proof {
            assert forall|a: int| base <= a < out@.len() implies self.pool_ids_of_type(
                pool_type,
            ).contains((#[trigger] out@[a]).node_id.value) by {
                let p = picks@[a - base];
                assert(self.active_pools.pools@[i as int].spec_node_ids()[p as int]
                    == out@[a].node_id.value);
            }
        }
    }

    /// Reacts to a connection lifecycle event. A connection that came up is
    /// routed into a pool that wants the peer, or into a buffer; a dropped
    /// connection leaves every pool, and the affected pool is marked stale
    /// when it falls below its required minimum, in which case its id comes
    /// back so that a refresh can be triggered.
    pub fn handle_connection_manager_event(
        &mut self,
        peer_manager: &mut PeerManager,
        event: &ConnectionManagerEvent,
        now_ms: u64,
    ) -> (r: Option<PoolId>)
        requires
            old(self).wf(),
            old(peer_manager).wf(),
        ensures
            final(self).wf(),
            final(peer_manager).wf(),
            final(peer_manager)@.len() == old(peer_manager)@.len(),
            forall|j: int|
                0 <= j < old(peer_manager)@.len() ==> crate::peer::same_identity(
                    #[trigger] old(peer_manager)@[j],
                    final(peer_manager)@[j],
                ),
            final(self).config == old(self).config,
            final(self).node_id == old(self).node_id,
            match event {
                ConnectionManagerEvent::PeerDisconnected(id) => {
                    &&& final(peer_manager)@ == crate::peer_manager::record_failure(
                        old(peer_manager)@,
                        id.value,
                        now_ms,
                    )
                    &&& dropped_connection_post(*old(self), *final(self), *id, r)
                },
                ConnectionManagerEvent::PeerConnectWillClose(id) => {
                    &&& final(peer_manager)@ == old(peer_manager)@
                    &&& dropped_connection_post(*old(self), *final(self), *id, r)
                },
                ConnectionManagerEvent::Other => *final(self) == *old(self) && final(peer_manager)@
                    == old(peer_manager)@ && r is None,
                ConnectionManagerEvent::PeerConnected(conn) => final(peer_manager)@ == old(peer_manager)@
                    && routed_connection_post(
                    *old(self),
                    *final(self),
                    old(peer_manager)@,
                    *conn,
                ) && r is None,
            },
    {
        match event {
            ConnectionManagerEvent::PeerConnected(conn) => {
                self.handle_peer_connected(peer_manager, *conn);
                None
            },
            ConnectionManagerEvent::PeerDisconnected(id) => {
                let outcome = peer_manager.set_last_connect_failed(id, now_ms);
                proof {
                    assert(peer_manager@ == crate::peer_manager::record_failure(
                        old(peer_manager)@,
                        id.value,
                        now_ms,
                    ));
                    assert forall|j: int|
                        0 <= j < old(peer_manager)@.len() implies crate::peer::same_identity(
                        #[trigger] old(peer_manager)@[j],
                        peer_manager@[j],
                    ) by {}
                }
                self.remove_connection_everywhere(id)
            },
            ConnectionManagerEvent::PeerConnectWillClose(id) => {
                self.remove_connection_everywhere(id)
            },
            ConnectionManagerEvent::Other => None,
        }
    }

    /// Drops the connection to this peer from every pool and buffer, and
    /// marks the first pool left below its required minimum as stale,
    /// returning its id so that a refresh can be triggered.
    #[verifier::loop_isolation(false)]
    fn remove_connection_everywhere(&mut self, id: &NodeId) -> (r: Option<PoolId>)
        requires
            old(self).wf(),
        ensures
            final(self).wf(),
            final(self).config == old(self).config,
            final(self).node_id == old(self).node_id,
            dropped_connection_post(*old(self), *final(self), *id, r),
    {
        self.active_pools.remove_connection(id);
        remove_connection_to(&mut self.ad_hoc_pool, id);
        remove_connection_to(&mut self.client_node_pool, id);
        proof {
            if self.active_pools.holds_node_id(self.node_id.value) {
                let w = choose|w: int|
                    0 <= w < self.active_pools.pools@.len() && (
                    #[trigger] self.active_pools.pools@[w]).spec_node_ids().contains(
                        self.node_id.value,
                    );
                assert(old(self).active_pools.pools@[w].spec_node_ids().contains(
                    self.node_id.value,
                ));
            }
            assert forall|i: int|
                0 <= i < self.active_pools.pools@.len() implies (
            #[trigger] self.active_pools.pools@[i]).id < self.pool_id_allocator.next_id() by {
                assert(old(self).active_pools.pools@[i].id < self.pool_id_allocator.next_id());
            }
            if self.active_pools.holds_node_id(id.value) {
                let w = choose|w: int|
                    0 <= w < self.active_pools.pools@.len() && (
                    #[trigger] self.active_pools.pools@[w]).spec_node_ids().contains(id.value);
            }
        }
        let ghost mid = *self;
        let mut i: usize = 0;
        let mut hint: Option<PoolId> = None;
        while i < self.active_pools.pools.len()
            invariant
                i <= self.active_pools.pools@.len(),
                hint is None ==> (*self == mid && first_pool_below_min(
                    self.active_pools.pools@,
                    0,
                ) == first_pool_below_min(self.active_pools.pools@, i as nat)),
                hint matches Some(pid) ==> {
                    &&& self.wf()
                    &&& self.config == mid.config
                    &&& self.node_id == mid.node_id
                    &&& self.ad_hoc_pool@ == mid.ad_hoc_pool@
                    &&& self.client_node_pool@ == mid.client_node_pool@
                    &&& self.active_pools.pools@.len() == mid.active_pools.pools@.len()
                    &&& first_pool_below_min(self.active_pools.pools@, 0) matches Some(k)
                        && k < i && self.active_pools.pools@[k].id == pid
                        && self.active_pools.pools@[k].last_refreshed_ms is None && (forall|
                        w: int,
                    |
                        0 <= w < self.active_pools.pools@.len() && w != k
                            ==> #[trigger] self.active_pools.pools@[w]
                            == mid.active_pools.pools@[w]) && {
                        let p = self.active_pools.pools@[k];
                        let q = mid.active_pools.pools@[k];
                        &&& p.id == q.id
                        &&& p.pool_type == q.pool_type
                        &&& p.params == q.params
                        &&& p.status == q.status
                        &&& p.refresh_in_progress == q.refresh_in_progress
                        &&& p.connections@ == q.connections@
                    }
                },
            decreases self.active_pools.pools@.len() - i,
        {
            let below = match self.active_pools.pools[i].params.min_required {
                Some(m) => self.active_pools.pools[i].connections.len() < m,
                None => false,
            };
            if below && hint.is_none() {
                let pid = self.active_pools.pools[i].id;
                let ghost pre = *self;
                self.active_pools.mark_stale(i);
                proof {
                    assert(first_pool_below_min(pre.active_pools.pools@, i as nat) == Some(
                        i as int,
                    ));
                    assert forall|a: int|
                        0 <= a < self.active_pools.pools@.len() implies ((
                    #[trigger] self.active_pools.pools@[a]).connections@
                        == pre.active_pools.pools@[a].connections@
                        && self.active_pools.pools@[a].params
                        == pre.active_pools.pools@[a].params) by {}
                    lemma_first_below_min_same(
                        self.active_pools.pools@,
                        pre.active_pools.pools@,
                        0,
                    );
                    if self.active_pools.holds_node_id(self.node_id.value) {
                        assert(pre.active_pools.holds_node_id(self.node_id.value));
                    }
                    assert forall|w: int|
                        0 <= w < self.active_pools.pools@.len() implies (
                    #[trigger] self.active_pools.pools@[w]).id
                        < self.pool_id_allocator.next_id() by {
                        assert(pre.active_pools.pools@[w].id < self.pool_id_allocator.next_id());
                    }
                }
                hint = Some(pid);
            }
            i = i + 1;
        }
        proof {
            match hint {
                Some(_) => {
                    if self.active_pools.holds_node_id(id.value) {
                        let w = choose|w: int|
                            0 <= w < self.active_pools.pools@.len() && (
                            #[trigger] self.active_pools.pools@[w]).spec_node_ids().contains(
                                id.value,
                            );
                        assert(mid.active_pools.pools@[w].spec_node_ids().contains(id.value));
                    }
                },
                None => {
                    assert(first_pool_below_min(self.active_pools.pools@, i as nat) is None);
                },
            }
        }
        hint
    }

    /// Routes a connection that came up: into a pool with room whose role
    /// the peer matches, or into the client or ad-hoc buffer.
    #[verifier::loop_isolation(false)]
    fn handle_peer_connected(&mut self, peer_manager: &PeerManager, conn: PeerConnection)
        requires
            old(self).wf(),
            peer_manager.wf(),
        ensures
            final(self).wf(),
            final(self).config == old(self).config,
            final(self).node_id == old(self).node_id,
            routed_connection_post(*old(self), *final(self), peer_manager@, conn),
    {
        if conn.node_id.value == self.node_id.value {
            return ;
        }
        if self.active_pools.contains_node_id(&conn.node_id) {
            return ;
        }
        let features = match peer_manager.get_peer_features(&conn.node_id) {
            Ok(f) => f,
            Err(_) => {
                self.push_ad_hoc(conn);
                return ;
            },
        };
        if features.contains(&crate::peer::PeerFeatures::communication_node()) {
            let mut i: usize = 0;
            while i < self.active_pools.pools.len()
                invariant
                    *self == *old(self),
                    i <= self.active_pools.pools@.len(),
                    first_pool_with_room(self.active_pools.pools@, 0) == first_pool_with_room(
                        self.active_pools.pools@,
                        i as nat,
                    ),
                decreases self.active_pools.pools@.len() - i,
            {
                if self.active_pools.pools[i].connections.len()
                    < self.active_pools.pools[i].params.num_desired {
                    proof {
                        assert(first_pool_with_room(self.active_pools.pools@, i as nat) == Some(
                            i as int,
                        ));
                    }
                    self.active_pools.add_connection_at(i, conn);
                    proof {
                        if self.active_pools.holds_node_id(self.node_id.value) {
                            assert(old(self).active_pools.holds_node_id(self.node_id.value)
                                || self.node_id.value == conn.node_id.value);
                        }
                        assert forall|w: int|
                            0 <= w < self.active_pools.pools@.len() implies (
                        #[trigger] self.active_pools.pools@[w]).id
                            < self.pool_id_allocator.next_id() by {
                            assert(old(self).active_pools.pools@[w].id
                                < self.pool_id_allocator.next_id());
                        }
                    }
                    return ;
                }
                i = i + 1;
            }
            proof {
                assert(first_pool_with_room(self.active_pools.pools@, i as nat) is None);
            }
            self.push_ad_hoc(conn);
        } else if features.contains(&crate::peer::PeerFeatures::communication_client()) {
            let ghost prev = self.client_node_pool@;
            if !connections_contain(&self.client_node_pool, &conn.node_id) {
                self.client_node_pool.push(conn);
                proof {
                    assert forall|a: int, b: int|
                        0 <= a < b < self.client_node_pool@.len() implies self.client_node_pool@[
                    a].node_id.value != self.client_node_pool@[b].node_id.value by {
                        if b == prev.len() {
                            assert(connection_ids(prev)[a]
                                == self.client_node_pool@[a].node_id.value);
                        }
                    }
                }
            }
            proof {
                assert(self.client_node_pool@ == buffer_after_admit(prev, conn));
            }
        } else {
            self.push_ad_hoc(conn);
        }
    }

    /// Remembers a connection in the ad-hoc buffer, once per peer.
    fn push_ad_hoc(&mut self, conn: PeerConnection)
        requires
            old(self).wf(),
        ensures
            final(self).wf(),
            final(self).config == old(self).config,
            final(self).node_id == old(self).node_id,
            final(self).active_pools == old(self).active_pools,
            final(self).client_node_pool@ == old(self).client_node_pool@,
            final(self).ad_hoc_pool@ == buffer_after_admit(old(self).ad_hoc_pool@, conn),
    {
        if !connections_contain(&self.ad_hoc_pool, &conn.node_id) {
            let ghost prev = self.ad_hoc_pool@;
            self.ad_hoc_pool.push(conn);
            proof {
                assert forall|a: int, b: int|
                    0 <= a < b < self.ad_hoc_pool@.len() implies self.ad_hoc_pool@[
                a].node_id.value != self.ad_hoc_pool@[b].node_id.value by {
                    if b == prev.len() {
                        assert(connection_ids(prev)[a] == self.ad_hoc_pool@[a].node_id.value);
                    }
                }
            }
        }
    }

    /// Dispatches one request: the reply mirrors the request kind, and a
    /// refresh plan comes back when adding a pool started a refresh.
    /// Errors of fire-and-forget requests are swallowed, never fatal.
    pub fn handle_request(
        &mut self,
        peer_manager: &mut PeerManager,
        request: &ConnectivityRequest,
        now_ms: u64,
    ) -> (r: (crate::requester::ConnectivityResponse, Option<RefreshPlan>))
        requires
            old(self).wf(),
            old(peer_manager).wf(),
        ensures
            final(self).wf(),
            final(peer_manager).wf(),
            final(self).config == old(self).config,
            final(self).node_id == old(self).node_id,
            match request {
                ConnectivityRequest::AddPool(t) => {
                    &&& final(peer_manager)@ == old(peer_manager)@
                    &&& match r.0 {
                        crate::requester::ConnectivityResponse::PoolAdded(res) => add_pool_post(
                            *old(self),
                            *final(self),
                            old(peer_manager)@,
                            *t,
                            now_ms,
                            match res {
                                Ok(()) => Ok(r.1),
                                Err(e) => Err(e),
                            },
                        ) && (res is Err ==> r.1 is None),
                        _ => false,
                    }
                },
                ConnectivityRequest::ReleasePool(t) => r.0 is PoolReleased && r.1 is None
                    && final(peer_manager)@ == old(peer_manager)@ && release_pool_post(
                    *old(self),
                    *final(self),
                    *t,
                ),
                ConnectivityRequest::GetPool(t) => (match r.0 {
                    crate::requester::ConnectivityResponse::Pool(res) => get_pool_post(
                        *old(self),
                        *t,
                        res,
                    ),
                    _ => false,
                }) && *final(self) == *old(self) && final(peer_manager)@ == old(peer_manager)@
                    && r.1 is None,
                ConnectivityRequest::SelectConnections(sel) => (match r.0 {
                    crate::requester::ConnectivityResponse::Connections(res) => select_connections_post(
                        *old(self),
                        *sel,
                        res,
                    ),
                    _ => false,
                }) && *final(self) == *old(self) && final(peer_manager)@ == old(peer_manager)@
                    && r.1 is None,
                ConnectivityRequest::BanPeer(id) => r.0 is PeerBanned && r.1 is None && exists|
                    res: Result<(), ConnectivityError>,
                |
                    #[trigger] ban_peer_post(
                        *old(self),
                        *final(self),
                        old(peer_manager)@,
                        final(peer_manager)@,
                        *id,
                        now_ms,
                        res,
                    ),
            },
    {
        match request {
            ConnectivityRequest::AddPool(pool_type) => {
                match self.add_pool(peer_manager, *pool_type, now_ms) {
                    Ok(plan) => (
                        crate::requester::ConnectivityResponse::PoolAdded(Ok(())),
                        plan,
                    ),
                    Err(e) => (
                        crate::requester::ConnectivityResponse::PoolAdded(Err(e)),
                        None,
                    ),
                }
            },
            ConnectivityRequest::ReleasePool(pool_type) => {
                self.release_pool(*pool_type);
                (crate::requester::ConnectivityResponse::PoolReleased, None)
            },
            ConnectivityRequest::GetPool(pool_type) => {
                (crate::requester::ConnectivityResponse::Pool(self.get_pool(*pool_type)), None)
            },
            ConnectivityRequest::SelectConnections(selection) => {
                (
                    crate::requester::ConnectivityResponse::Connections(
                        self.select_connections(selection),
                    ),
                    None,
                )
            },
            ConnectivityRequest::BanPeer(node_id) => {
                let outcome = self.ban_peer(peer_manager, node_id, now_ms);
                proof {
                    assert(ban_peer_post(
                        *old(self),
                        *self,
                        old(peer_manager)@,
                        peer_manager@,
                        *node_id,
                        now_ms,
                        outcome,
                    ));
                }
                (crate::requester::ConnectivityResponse::PeerBanned, None)
            },
        }
    }

    /// Bans the peer in the directory for the configured duration, and
    /// drops it from every pool and buffer. The caller is expected to
    /// disconnect the peer.
    pub fn ban_peer(
        &mut self,
        peer_manager: &mut PeerManager,
        node_id: &NodeId,
        now_ms: u64,
    ) -> (r: Result<(), ConnectivityError>)
        requires
            old(self).wf(),
            old(peer_manager).wf(),
        ensures
            final(self).wf(),
            final(peer_manager).wf(),
            final(self).config == old(self).config,
            final(self).node_id == old(self).node_id,
            ban_peer_post(
                *old(self),
                *final(self),
                old(peer_manager)@,
                final(peer_manager)@,
                *node_id,
                now_ms,
                r,
            ),
    {
        let peer = match peer_manager.find_by_node_id(node_id) {
            Ok(p) => p,
            Err(e) => {
                return Err(ConnectivityError::PeerManager(e));
            },
        };
        proof {
            let j = choose|j: int|
                0 <= j < peer_manager@.len() && peer@ == peer_manager@[j] && (
                #[trigger] peer_manager@[j]).node_id == node_id.value;
            assert(peer_manager@[j].public_key == peer@.public_key);
            assert(crate::peer_manager::contains_pk(peer_manager@, peer.public_key@));
        }
        match peer_manager.ban_for(
            &peer.public_key,
            self.config.default_ban_duration_ms,
            now_ms,
        ) {
            Ok(_) => {},
            Err(e) => {
                return Err(ConnectivityError::PeerManager(e));
            },
        }
        proof {
            old(peer_manager).lemma_wf_implies_inv();
            let j0 = choose|j: int|
                0 <= j < old(peer_manager)@.len() && peer@ == old(peer_manager)@[j] && (
                #[trigger] old(peer_manager)@[j]).node_id == node_id.value;
            let k = crate::peer_manager::idx_of_pk(old(peer_manager)@, peer.public_key@);
            crate::peer_manager::lemma_pk_index_unique(old(peer_manager)@, k, j0);
        }
        self.active_pools.remove_connection(node_id);
        remove_connection_to(&mut self.ad_hoc_pool, node_id);
        remove_connection_to(&mut self.client_node_pool, node_id);
        proof {
            if self.active_pools.holds_node_id(self.node_id.value) {
                let w = choose|w: int|
                    0 <= w < self.active_pools.pools@.len() && (
                    #[trigger] self.active_pools.pools@[w]).spec_node_ids().contains(
                        self.node_id.value,
                    );
                assert(old(self).active_pools.pools@[w].spec_node_ids().contains(
                    self.node_id.value,
                ));
            }
            assert forall|i: int|
                0 <= i < self.active_pools.pools@.len() implies (
            #[trigger] self.active_pools.pools@[i]).id < self.pool_id_allocator.next_id() by {
                assert(old(self).active_pools.pools@[i].id < self.pool_id_allocator.next_id());
            }
            if self.active_pools.holds_node_id(node_id.value) {
                let w = choose|w: int|
                    0 <= w < self.active_pools.pools@.len() && (
                    #[trigger] self.active_pools.pools@[w]).spec_node_ids().contains(
                        node_id.value,
                    );
            }
        }
        Ok(())
    }
}

} // verus!
