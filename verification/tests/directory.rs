use std::cell::Cell;

use connectivity::node_id::{derive_node_id, NodeId, PublicKey};
use connectivity::peer_manager::IterationControl;
use connectivity::peer::{NetAddress, Peer, PeerFeatures, PeerFlags};
use connectivity::peer_manager::{PeerManager, PeerManagerError};

const NOW: u64 = 1_000_000;

fn make_key(seed: u8) -> PublicKey {
    PublicKey::new(vec![seed; 32])
}

fn make_peer(seed: u8, features: PeerFeatures) -> Peer {
    let pk = make_key(seed);
    let node_id = derive_node_id(&pk);
    Peer::new(pk, node_id, Vec::new(), PeerFlags::none(), features, Vec::new())
}

fn node_directory(count: u8) -> (PeerManager, Vec<Peer>) {
    let mut directory = PeerManager::new();
    let mut peers = Vec::new();
    for seed in 0..count {
        let peer = make_peer(seed, PeerFeatures::communication_node());
        directory.add_peer(peer.clone()).unwrap();
        peers.push(peer);
    }
    (directory, peers)
}

#[test]
fn derivation_is_deterministic() {
    let a = derive_node_id(&make_key(7));
    let b = derive_node_id(&make_key(7));
    let c = derive_node_id(&make_key(8));
    assert_eq!(a, b);
    assert_ne!(a, c);
}

#[test]
fn distance_is_symmetric_and_zero_on_self() {
    let a = derive_node_id(&make_key(1));
    let b = derive_node_id(&make_key(2));
    assert_eq!(a.distance(&b), b.distance(&a));
    assert_eq!(a.distance(&a).value, 0);
}

#[test]
fn add_and_find_round_trip() {
    let (directory, peers) = node_directory(4);
    let found = directory.find_by_public_key(&peers[2].public_key).unwrap();
    assert_eq!(found.node_id, peers[2].node_id);
    let found = directory.find_by_node_id(&peers[3].node_id).unwrap();
    assert_eq!(found.public_key, peers[3].public_key);
    assert!(directory.exists_public_key(&peers[0].public_key));
    assert!(directory.exists_node_id(&peers[1].node_id));
    assert!(!directory.exists_public_key(&make_key(99)));
}

#[test]
fn find_unknown_peer_fails() {
    let directory = PeerManager::new();
    assert_eq!(
        directory.find_by_public_key(&make_key(1)).unwrap_err(),
        PeerManagerError::PeerNotFound
    );
    let id = derive_node_id(&make_key(1));
    assert_eq!(directory.find_by_node_id(&id).unwrap_err(), PeerManagerError::PeerNotFound);
}

#[test]
fn upsert_with_wrong_node_id_is_refused() {
    let mut directory = PeerManager::new();
    let pk = make_key(5);
    let wrong = derive_node_id(&make_key(6));
    let outcome = directory.add_or_update_online_peer(
        &pk,
        wrong,
        Vec::new(),
        PeerFeatures::communication_node(),
        NOW,
    );
    assert_eq!(outcome.unwrap_err(), PeerManagerError::InvalidNodeId);
    assert_eq!(directory.len(), 0);
}

#[test]
fn banned_peers_never_flood_or_come_closest() {
    let (mut directory, peers) = node_directory(20);
    directory.ban_for(&peers[0].public_key, 1_000_000, NOW).unwrap();
    directory.ban_for(&peers[19].public_key, 1_000_000, NOW).unwrap();

    let flood = directory.flood_peers(NOW).unwrap();
    assert_eq!(flood.len(), 18);
    for p in &flood {
        assert!(!p.is_banned(NOW));
        assert_ne!(p.public_key, peers[0].public_key);
        assert_ne!(p.public_key, peers[19].public_key);
    }

    let target = derive_node_id(&make_key(200));
    let closest = directory.closest_peers(&target, 20, &Vec::new(), None, NOW).unwrap();
    assert_eq!(closest.len(), 18);
    for p in &closest {
        assert_ne!(p.public_key, peers[0].public_key);
        assert_ne!(p.public_key, peers[19].public_key);
    }
}

#[test]
fn neighbour_selection_returns_the_closest() {
    // Twenty routing peers; the first and last are banned.
    let (mut directory, peers) = node_directory(20);
    directory.ban_for(&peers[0].public_key, 1_000_000, NOW).unwrap();
    directory.ban_for(&peers[19].public_key, 1_000_000, NOW).unwrap();

    let unmanaged = make_peer(100, PeerFeatures::communication_node());
    let target = unmanaged.node_id;
    let selected = directory.closest_peers(&target, 3, &Vec::new(), None, NOW).unwrap();
    assert_eq!(selected.len(), 3);

    for s in &selected {
        let selected_dist = target.distance(&s.node_id);
        for u in &peers {
            let picked = selected.iter().any(|q| q.node_id == u.node_id);
            let banned = directory.find_by_node_id(&u.node_id).unwrap().is_banned(NOW);
            if !picked && !banned {
                let unused_dist = target.distance(&u.node_id);
                assert!(selected_dist <= unused_dist);
            }
        }
    }
}

#[test]
fn exclusion_is_honoured() {
    let (mut directory, peers) = node_directory(20);
    directory.ban_for(&peers[0].public_key, 1_000_000, NOW).unwrap();
    directory.ban_for(&peers[19].public_key, 1_000_000, NOW).unwrap();

    let target = derive_node_id(&make_key(100));
    let first = directory.closest_peers(&target, 3, &Vec::new(), None, NOW).unwrap();
    assert_eq!(first.len(), 3);

    let excluded = vec![first[0].public_key.clone()];
    let second = directory.closest_peers(&target, 3, &excluded, None, NOW).unwrap();
    assert_eq!(second.len(), 3);
    for p in &second {
        assert_ne!(p.public_key, first[0].public_key);
    }
}

#[test]
fn closest_with_zero_limit_is_empty() {
    let (directory, _) = node_directory(10);
    let target = derive_node_id(&make_key(100));
    let selected = directory.closest_peers(&target, 0, &Vec::new(), None, NOW).unwrap();
    assert!(selected.is_empty());
}

#[test]
fn closest_with_few_eligible_returns_all() {
    let (directory, _) = node_directory(4);
    let target = derive_node_id(&make_key(100));
    let selected = directory.closest_peers(&target, 10, &Vec::new(), None, NOW).unwrap();
    assert_eq!(selected.len(), 4);
}

#[test]
fn random_peers_respect_exclusions() {
    let (mut directory, peers) = node_directory(12);
    // Four client peers that must never be sampled.
    for seed in 50..54 {
        directory.add_peer(make_peer(seed, PeerFeatures::communication_client())).unwrap();
    }
    directory.ban_for(&peers[3].public_key, 1_000_000, NOW).unwrap();
    let excluded = vec![peers[0].node_id, peers[1].node_id];

    let sample = directory.random_peers(20, &excluded, NOW).unwrap();
    assert_eq!(sample.len(), 9);
    for p in &sample {
        assert!(!p.is_banned(NOW));
        assert!(p.features.contains(&PeerFeatures::communication_node()));
        assert_ne!(p.node_id, peers[0].node_id);
        assert_ne!(p.node_id, peers[1].node_id);
        assert_ne!(p.node_id, peers[3].node_id);
    }
}

#[test]
fn successive_random_samples_differ() {
    let (directory, _) = node_directory(20);
    let first = directory.random_peers(10, &Vec::new(), NOW).unwrap();
    let second = directory.random_peers(10, &Vec::new(), NOW).unwrap();
    let first_ids: Vec<u128> = first.iter().map(|p| p.node_id.value).collect();
    let second_ids: Vec<u128> = second.iter().map(|p| p.node_id.value).collect();
    assert_ne!(first_ids, second_ids);
}

#[test]
fn region_threshold_splits_the_region() {
    let n = 5;
    let mut directory = PeerManager::new();
    let region = derive_node_id(&make_key(200));
    let mut nodes = Vec::new();
    for seed in 0..10 {
        let p = make_peer(seed, PeerFeatures::communication_node());
        directory.add_peer(p.clone()).unwrap();
        nodes.push(p);
    }
    for seed in 10..20 {
        directory.add_peer(make_peer(seed, PeerFeatures::communication_client())).unwrap();
    }
    nodes.sort_by(|a, b| {
        region.distance(&a.node_id).partial_cmp(&region.distance(&b.node_id)).unwrap()
    });

    let threshold = directory
        .calc_region_threshold(&region, n, PeerFeatures::communication_node(), NOW)
        .unwrap();
    for p in nodes.iter().take(n) {
        assert!(p.node_id.distance(&region) <= threshold);
    }
    for p in nodes.iter().skip(n) {
        assert!(p.node_id.distance(&region) > threshold);
    }

    let stats = directory
        .get_region_stats(&region, n, PeerFeatures::communication_node(), NOW)
        .unwrap();
    assert_eq!(stats.threshold_distance, threshold);
    assert_eq!(stats.in_region_count, n);
    assert_eq!(stats.total_considered, 10);
}

#[test]
fn online_upsert_clears_offline_and_failures() {
    let mut directory = PeerManager::new();
    let mut peer = make_peer(1, PeerFeatures::communication_node());
    peer.set_offline(true);
    peer.connection_stats.set_connection_failed(NOW - 10);
    directory.add_peer(peer.clone()).unwrap();

    let updated = directory
        .add_or_update_online_peer(
            &peer.public_key,
            peer.node_id,
            Vec::new(),
            peer.features,
            NOW,
        )
        .unwrap();
    assert!(!updated.is_offline);
    assert_eq!(updated.connection_stats.failed_attempts, 0);
    assert_eq!(updated.connection_stats.last_success_ms, Some(NOW));
}

#[test]
fn online_upsert_is_idempotent() {
    let mut directory = PeerManager::new();
    let peer = make_peer(1, PeerFeatures::communication_node());
    directory.add_peer(peer.clone()).unwrap();

    let addrs1 = vec![NetAddress::new(b"/ip4/1.2.3.4/tcp/8000".to_vec())];
    let addrs2 = vec![NetAddress::new(b"/ip4/1.2.3.4/tcp/8000".to_vec())];
    let once = directory
        .add_or_update_online_peer(&peer.public_key, peer.node_id, addrs1, peer.features, NOW)
        .unwrap();
    let twice = directory
        .add_or_update_online_peer(&peer.public_key, peer.node_id, addrs2, peer.features, NOW)
        .unwrap();
    assert_eq!(once.is_offline, twice.is_offline);
    assert_eq!(once.connection_stats, twice.connection_stats);
    assert_eq!(once.addresses.len(), twice.addresses.len());
    assert_eq!(once.features, twice.features);
    assert_eq!(directory.len(), 1);
}

#[test]
fn ban_then_unban_restores_selectability() {
    let (mut directory, peers) = node_directory(6);
    directory.ban_for(&peers[2].public_key, 1_000_000, NOW).unwrap();
    let flood = directory.flood_peers(NOW).unwrap();
    assert_eq!(flood.len(), 5);

    directory.unban(&peers[2].public_key).unwrap();
    let flood = directory.flood_peers(NOW).unwrap();
    assert_eq!(flood.len(), 6);
    let restored = directory.find_by_public_key(&peers[2].public_key).unwrap();
    assert!(!restored.is_banned(NOW));
    assert!(!restored.is_banned(u64::MAX - 1));
}

#[test]
fn ban_expires_with_time() {
    let (mut directory, peers) = node_directory(2);
    directory.ban_for(&peers[0].public_key, 500, NOW).unwrap();
    let banned = directory.find_by_public_key(&peers[0].public_key).unwrap();
    assert!(banned.is_banned(NOW));
    assert!(banned.is_banned(NOW + 499));
    assert!(!banned.is_banned(NOW + 500));
}

#[test]
fn direct_identity_hides_banned_peers() {
    let (mut directory, peers) = node_directory(3);
    assert!(directory.direct_identity_node_id(&peers[1].node_id, NOW).unwrap().is_some());
    directory.ban_for(&peers[1].public_key, 1_000_000, NOW).unwrap();
    assert!(directory.direct_identity_node_id(&peers[1].node_id, NOW).unwrap().is_none());
    let unknown = derive_node_id(&make_key(77));
    assert!(directory.direct_identity_node_id(&unknown, NOW).unwrap().is_none());
}

#[test]
fn connection_outcomes_update_stats() {
    let (mut directory, peers) = node_directory(1);
    directory.set_last_connect_failed(&peers[0].node_id, NOW).unwrap();
    directory.set_last_connect_failed(&peers[0].node_id, NOW + 1).unwrap();
    let p = directory.find_by_node_id(&peers[0].node_id).unwrap();
    assert_eq!(p.connection_stats.failed_attempts, 2);
    assert_eq!(p.connection_stats.last_failure_ms, Some(NOW + 1));

    directory.set_last_connect_success(&peers[0].node_id, NOW + 2).unwrap();
    let p = directory.find_by_node_id(&peers[0].node_id).unwrap();
    assert_eq!(p.connection_stats.failed_attempts, 0);
    assert_eq!(p.connection_stats.last_success_ms, Some(NOW + 2));
    assert!(!p.is_offline);
}

#[test]
fn add_net_address_skips_duplicates() {
    let (mut directory, peers) = node_directory(1);
    let addr = NetAddress::new(b"/ip4/1.2.3.4/tcp/8000".to_vec());
    directory.add_net_address(&peers[0].node_id, &addr).unwrap();
    directory.add_net_address(&peers[0].node_id, &addr).unwrap();
    let other = NetAddress::new(b"/ip4/5.6.7.8/tcp/9000".to_vec());
    directory.add_net_address(&peers[0].node_id, &other).unwrap();
    let p = directory.find_by_node_id(&peers[0].node_id).unwrap();
    assert_eq!(p.addresses.len(), 2);
}

#[test]
fn delete_peer_removes_the_record() {
    let (mut directory, peers) = node_directory(3);
    directory.delete_peer(&peers[1].node_id).unwrap();
    assert_eq!(directory.len(), 2);
    assert!(!directory.exists_node_id(&peers[1].node_id));
    assert_eq!(
        directory.delete_peer(&peers[1].node_id).unwrap_err(),
        PeerManagerError::PeerNotFound
    );
}

#[test]
fn update_each_replaces_selected_records() {
    let (mut directory, _) = node_directory(5);
    let updated = directory
        .update_each(|p: &Peer| {
            if p.is_offline {
                None
            } else {
                let mut q = p.clone();
                q.set_offline(true);
                Some(q)
            }
        })
        .unwrap();
    assert_eq!(updated, 5);
    let all = directory.all().unwrap();
    assert!(all.iter().all(|p| p.is_offline));
}

#[test]
fn for_each_visits_until_break() {
    let (directory, _) = node_directory(5);
    let seen = Cell::new(0u32);
    directory
        .for_each(|_p: Peer| {
            seen.set(seen.get() + 1);
            if seen.get() == 3 {
                IterationControl::Break
            } else {
                IterationControl::Continue
            }
        })
        .unwrap();
    assert_eq!(seen.get(), 3);
}

#[test]
fn in_network_region_matches_threshold() {
    let (directory, peers) = node_directory(10);
    let region = derive_node_id(&make_key(150));
    let threshold = directory
        .calc_region_threshold(&region, 3, PeerFeatures::communication_node(), NOW)
        .unwrap();
    for p in &peers {
        let expected = p.node_id.distance(&region) <= threshold;
        assert_eq!(directory.in_network_region(&p.node_id, &region, 3, NOW).unwrap(), expected);
    }
}
