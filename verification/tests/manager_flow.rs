use connectivity::config::ConnectivityConfig;
use connectivity::error::ConnectivityError;
use connectivity::manager::{ConnectionManagerEvent, ConnectivityManager};
use connectivity::node_id::{derive_node_id, PublicKey};
use connectivity::peer::{Peer, PeerFeatures, PeerFlags};
use connectivity::peer_manager::PeerManager;
use connectivity::peer_pool::{PeerConnection, PeerPoolType, PoolStatus};
use connectivity::requester::{ConnectivityRequest, ConnectivityResponse, ConnectivitySelection};

const NOW: u64 = 1_000_000;

fn make_peer(seed: u8, features: PeerFeatures) -> Peer {
    let pk = PublicKey::new(vec![seed; 32]);
    let node_id = derive_node_id(&pk);
    Peer::new(pk, node_id, Vec::new(), PeerFlags::none(), features, Vec::new())
}

fn setup(count: u8) -> (ConnectivityManager, PeerManager, Vec<Peer>) {
    let mut directory = PeerManager::new();
    let mut peers = Vec::new();
    for seed in 0..count {
        let peer = make_peer(seed, PeerFeatures::communication_node());
        directory.add_peer(peer.clone()).unwrap();
        peers.push(peer);
    }
    let own = derive_node_id(&PublicKey::new(vec![250; 32]));
    let manager = ConnectivityManager::new(ConnectivityConfig::default(), own);
    (manager, directory, peers)
}

/// Simulates the connection manager: every requested dial succeeds.
fn dial_all(to_dial: &[connectivity::node_id::NodeId], first_conn_id: u64) -> Vec<PeerConnection> {
    to_dial
        .iter()
        .enumerate()
        .map(|(i, id)| PeerConnection { conn_id: first_conn_id + i as u64, node_id: *id })
        .collect()
}

#[test]
fn adding_a_pool_twice_keeps_a_single_pool() {
    let (mut manager, directory, _) = setup(10);
    let plan = manager.add_pool(&directory, PeerPoolType::Neighbours, NOW).unwrap();
    assert!(plan.is_some());
    let again = manager.add_pool(&directory, PeerPoolType::Neighbours, NOW).unwrap();
    assert!(again.is_none());

    let pool = manager.get_pool(PeerPoolType::Neighbours).unwrap();
    assert_eq!(pool.pool_type, PeerPoolType::Neighbours);

    manager.release_pool(PeerPoolType::Neighbours);
    assert_eq!(
        manager.get_pool(PeerPoolType::Neighbours).unwrap_err(),
        ConnectivityError::PoolNotFoundByType
    );
    manager.release_pool(PeerPoolType::Neighbours);
}

#[test]
fn refresh_fills_the_pool_without_duplicates() {
    let (mut manager, mut directory, _) = setup(20);
    let plan = manager.add_pool(&directory, PeerPoolType::Neighbours, NOW).unwrap().unwrap();
    assert_eq!(plan.to_dial.len(), 8);
    assert!(plan.to_disconnect.is_empty());

    let conns = dial_all(&plan.to_dial, 1);
    manager.complete_pool_refresh(&mut directory, plan.pool_id, conns, Vec::new(), NOW).unwrap();

    let pool = manager.get_pool(PeerPoolType::Neighbours).unwrap();
    assert_eq!(pool.connections.len(), 8);
    assert_eq!(pool.status, PoolStatus::Full);
    assert!(!pool.refresh_in_progress);
    assert_eq!(pool.last_refreshed_ms, Some(NOW));
    let ids = pool.get_node_ids();
    for i in 0..ids.len() {
        for j in (i + 1)..ids.len() {
            assert_ne!(ids[i], ids[j]);
        }
    }
}

#[test]
fn neighbour_and_random_pools_stay_disjoint() {
    let (mut manager, mut directory, _) = setup(20);
    let plan = manager.add_pool(&directory, PeerPoolType::Neighbours, NOW).unwrap().unwrap();
    let conns = dial_all(&plan.to_dial, 1);
    manager.complete_pool_refresh(&mut directory, plan.pool_id, conns, Vec::new(), NOW).unwrap();

    let plan = manager.add_pool(&directory, PeerPoolType::Random, NOW).unwrap().unwrap();
    let conns = dial_all(&plan.to_dial, 100);
    manager.complete_pool_refresh(&mut directory, plan.pool_id, conns, Vec::new(), NOW).unwrap();

    let neighbours = manager.get_pool(PeerPoolType::Neighbours).unwrap();
    let random = manager.get_pool(PeerPoolType::Random).unwrap();
    assert_eq!(random.connections.len(), 5);
    for n in neighbours.get_node_ids() {
        for r in random.get_node_ids() {
            assert_ne!(n, r);
        }
    }
}

#[test]
fn failed_dials_bump_the_failure_counter() {
    let (mut manager, mut directory, _) = setup(10);
    let plan = manager.add_pool(&directory, PeerPoolType::Neighbours, NOW).unwrap().unwrap();
    let failed = plan.to_dial.clone();
    manager
        .complete_pool_refresh(&mut directory, plan.pool_id, Vec::new(), failed.clone(), NOW)
        .unwrap();

    for id in &failed {
        let p = directory.find_by_node_id(id).unwrap();
        assert_eq!(p.connection_stats.failed_attempts, 1);
        assert_eq!(p.connection_stats.last_failure_ms, Some(NOW));
    }
    let pool = manager.get_pool(PeerPoolType::Neighbours).unwrap();
    assert!(pool.connections.is_empty());
    assert_eq!(pool.status, PoolStatus::Partial);
}

#[test]
fn a_fresh_pool_refresh_is_a_noop_until_stale() {
    let (mut manager, mut directory, _) = setup(10);
    let plan = manager.add_pool(&directory, PeerPoolType::Neighbours, NOW).unwrap().unwrap();
    let pool_id = plan.pool_id;
    let conns = dial_all(&plan.to_dial, 1);
    manager.complete_pool_refresh(&mut directory, pool_id, conns, Vec::new(), NOW).unwrap();

    // Still fresh: nothing to do.
    let again = manager.refresh_pool_if_stale(&directory, pool_id, NOW + 1).unwrap();
    assert!(again.is_none());

    // Past the stale interval a new plan appears.
    let interval = ConnectivityConfig::default().neighbouring_pool_refresh_interval_ms;
    let later = NOW + interval + 1;
    let plan = manager.refresh_pool_if_stale(&directory, pool_id, later).unwrap();
    assert!(plan.is_some());

    // While that refresh is in flight, another call is a no-op.
    let concurrent = manager.refresh_pool_if_stale(&directory, pool_id, later).unwrap();
    assert!(concurrent.is_none());
}

#[test]
fn refresh_of_an_unknown_pool_fails() {
    let (mut manager, directory, _) = setup(2);
    assert_eq!(
        manager.refresh_pool_if_stale(&directory, 42, NOW).unwrap_err(),
        ConnectivityError::PoolNotFoundById
    );
}

#[test]
fn ban_peer_bans_and_evicts() {
    let (mut manager, mut directory, _) = setup(10);
    let plan = manager.add_pool(&directory, PeerPoolType::Neighbours, NOW).unwrap().unwrap();
    let conns = dial_all(&plan.to_dial, 1);
    manager.complete_pool_refresh(&mut directory, plan.pool_id, conns, Vec::new(), NOW).unwrap();

    let victim = plan.to_dial[0];
    manager.ban_peer(&mut directory, &victim, NOW).unwrap();

    let pool = manager.get_pool(PeerPoolType::Neighbours).unwrap();
    assert!(pool.get_node_ids().iter().all(|id| *id != victim));
    let record = directory.find_by_node_id(&victim).unwrap();
    assert!(record.is_banned(NOW));
    let expected_until =
        NOW + ConnectivityConfig::default().default_ban_duration_ms;
    assert_eq!(record.banned_until_ms, Some(expected_until));
}

#[test]
fn disconnection_removes_the_connection() {
    let (mut manager, mut directory, _) = setup(10);
    let plan = manager.add_pool(&directory, PeerPoolType::Neighbours, NOW).unwrap().unwrap();
    let conns = dial_all(&plan.to_dial, 1);
    manager.complete_pool_refresh(&mut directory, plan.pool_id, conns, Vec::new(), NOW).unwrap();

    let gone = plan.to_dial[0];
    manager.handle_connection_manager_event(
        &mut directory,
        &ConnectionManagerEvent::PeerDisconnected(gone),
        NOW,
    );
    let pool = manager.get_pool(PeerPoolType::Neighbours).unwrap();
    assert_eq!(pool.connections.len(), 7);
    assert!(pool.get_node_ids().iter().all(|id| *id != gone));
    let record = directory.find_by_node_id(&gone).unwrap();
    assert_eq!(record.connection_stats.failed_attempts, 1);
}

#[test]
fn inbound_connections_are_routed_by_role() {
    let (mut manager, mut directory, peers) = setup(3);
    let client = make_peer(40, PeerFeatures::communication_client());
    directory.add_peer(client.clone()).unwrap();

    // A routing peer lands in a pool once one exists.
    let plan = manager.add_pool(&directory, PeerPoolType::Neighbours, NOW).unwrap().unwrap();
    manager
        .complete_pool_refresh(&mut directory, plan.pool_id, Vec::new(), plan.to_dial, NOW)
        .unwrap();
    manager.handle_connection_manager_event(
        &mut directory,
        &ConnectionManagerEvent::PeerConnected(PeerConnection {
            conn_id: 7,
            node_id: peers[0].node_id,
        }),
        NOW,
    );
    let pool = manager.get_pool(PeerPoolType::Neighbours).unwrap();
    assert_eq!(pool.get_node_ids(), vec![peers[0].node_id]);

    // A client-role peer lands in the client buffer.
    manager.handle_connection_manager_event(
        &mut directory,
        &ConnectionManagerEvent::PeerConnected(PeerConnection {
            conn_id: 8,
            node_id: client.node_id,
        }),
        NOW,
    );
    assert_eq!(manager.client_node_pool.len(), 1);

    // An unknown peer lands in the ad-hoc buffer.
    let stranger = derive_node_id(&PublicKey::new(vec![99; 32]));
    manager.handle_connection_manager_event(
        &mut directory,
        &ConnectionManagerEvent::PeerConnected(PeerConnection { conn_id: 9, node_id: stranger }),
        NOW,
    );
    assert_eq!(manager.ad_hoc_pool.len(), 1);
}

#[test]
fn select_connections_serves_from_the_pools() {
    let (mut manager, mut directory, _) = setup(20);
    let plan = manager.add_pool(&directory, PeerPoolType::Neighbours, NOW).unwrap().unwrap();
    let conns = dial_all(&plan.to_dial, 1);
    manager.complete_pool_refresh(&mut directory, plan.pool_id, conns, Vec::new(), NOW).unwrap();

    let picked = manager
        .select_connections(&ConnectivitySelection::Propagation {
            num_neighbour: 3,
            num_random: 3,
        })
        .unwrap();
    assert!(!picked.is_empty());
    assert!(picked.len() <= 3);
    for i in 0..picked.len() {
        for j in (i + 1)..picked.len() {
            assert_ne!(picked[i].node_id, picked[j].node_id);
        }
    }

    let member = picked[0].node_id;
    let single = manager
        .select_connections(&ConnectivitySelection::Single(member))
        .unwrap();
    assert_eq!(single.len(), 1);
    assert_eq!(single[0].node_id, member);

    let stranger = derive_node_id(&PublicKey::new(vec![99; 32]));
    let none = manager
        .select_connections(&ConnectivitySelection::Single(stranger))
        .unwrap();
    assert!(none.is_empty());
}

#[test]
fn requests_are_dispatched_to_matching_replies() {
    let (mut manager, mut directory, _) = setup(10);
    let (reply, plan) = manager.handle_request(
        &mut directory,
        &ConnectivityRequest::AddPool(PeerPoolType::Neighbours),
        NOW,
    );
    assert!(matches!(reply, ConnectivityResponse::PoolAdded(Ok(()))));
    let plan = plan.unwrap();
    let conns = dial_all(&plan.to_dial, 1);
    manager.complete_pool_refresh(&mut directory, plan.pool_id, conns, Vec::new(), NOW).unwrap();

    let (reply, _) = manager.handle_request(
        &mut directory,
        &ConnectivityRequest::GetPool(PeerPoolType::Neighbours),
        NOW,
    );
    match reply {
        ConnectivityResponse::Pool(Ok(pool)) => assert_eq!(pool.connections.len(), 8),
        other => panic!("unexpected reply: {:?}", other),
    }

    let (reply, _) = manager.handle_request(
        &mut directory,
        &ConnectivityRequest::ReleasePool(PeerPoolType::Neighbours),
        NOW,
    );
    assert!(matches!(reply, ConnectivityResponse::PoolReleased));
    let (reply, _) = manager.handle_request(
        &mut directory,
        &ConnectivityRequest::GetPool(PeerPoolType::Neighbours),
        NOW,
    );
    assert!(matches!(reply, ConnectivityResponse::Pool(Err(_))));
}
