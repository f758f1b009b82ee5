//! Pure selection logic: which peers a pool should hold, answered from the
//! directory.

use vstd::prelude::*;

use crate::config::ConnectivityConfig;
use crate::error::ConnectivityError;
use crate::node_id::{clone_node_ids, node_id_values, NodeId};
use crate::peer::{peers_view, Peer, PeerFeatures, FEATURE_COMMUNICATION_NODE};
use crate::peer_manager::PeerManager;
use crate::peer_query::{
    query_result_ok, CooldownRule, PeerQuery, PeerQueryModel, PeerQuerySortBy,
};

verus! {

/// The query behind neighbour selection: non-banned routing-capable peers
/// that are connect-eligible under the broadcast cooldown, minus the
/// caller's exclusions, by ascending distance from `target`, at most `n`.
pub open spec fn neighbour_query(
    target: NodeId,
    n: usize,
    excluded_ids: Seq<u128>,
    config: ConnectivityConfig,
) -> PeerQueryModel {
    PeerQueryModel {
        exclude_banned: true,
        required_features: Some(PeerFeatures { bits: FEATURE_COMMUNICATION_NODE }),
        excluded_public_keys: Seq::<Seq<u8>>::empty(),
        excluded_node_ids: excluded_ids,
        cooldown: Some(
            CooldownRule {
                max_attempts: config.broadcast_cooldown_max_attempts,
                period_ms: config.broadcast_cooldown_period_ms,
            },
        ),
        sort_by: PeerQuerySortBy::DistanceFrom(target),
        limit: Some(n),
    }
}

/// The up-to-`n` nearest eligible neighbours of `node_id`: not banned,
/// routing-capable, connect-eligible under the cooldown, and not excluded.
pub fn select_neighbours(
    peer_manager: &PeerManager,
    node_id: &NodeId,
    n: usize,
    excluded: &Vec<NodeId>,
    config: &ConnectivityConfig,
    now_ms: u64,
) -> (r: Result<Vec<Peer>, ConnectivityError>)
    requires
        peer_manager.wf(),
    ensures
        r is Ok,
        match r {
            Ok(v) => query_result_ok(
                peer_manager@,
                neighbour_query(*node_id, n, node_id_values(excluded@), *config),
                now_ms,
                peers_view(v@),
            ),
            Err(_) => false,
        },
{
    let query = PeerQuery::new().exclude_banned().with_required_features(
        PeerFeatures::communication_node(),
    ).exclude_node_ids(clone_node_ids(excluded)).require_connect_eligible(
        CooldownRule {
            max_attempts: config.broadcast_cooldown_max_attempts,
            period_ms: config.broadcast_cooldown_period_ms,
        },
    ).sort_by(PeerQuerySortBy::DistanceFrom(*node_id)).limit(n);
    proof {
        assert(query@ =~= neighbour_query(*node_id, n, node_id_values(excluded@), *config));
    }
    match peer_manager.perform_query(&query, now_ms) {
        Ok(v) => Ok(v),
        Err(e) => Err(ConnectivityError::PeerManager(e)),
    }
}

} // verus!
