use connectivity::config::ConnectivityConfig;
use connectivity::node_id::{derive_node_id, PublicKey};
use connectivity::peer::{Peer, PeerFeatures, PeerFlags};
use connectivity::peer_manager::PeerManager;
use connectivity::peer_selection::select_neighbours;

const NOW: u64 = 100_000_000;

fn make_peer(seed: u8, features: PeerFeatures) -> Peer {
    let pk = PublicKey::new(vec![seed; 32]);
    let node_id = derive_node_id(&pk);
    Peer::new(pk, node_id, Vec::new(), PeerFlags::none(), features, Vec::new())
}

#[test]
fn neighbours_come_sorted_and_limited() {
    let mut directory = PeerManager::new();
    let mut peers = Vec::new();
    for seed in 0..12 {
        let p = make_peer(seed, PeerFeatures::communication_node());
        directory.add_peer(p.clone()).unwrap();
        peers.push(p);
    }
    let own = derive_node_id(&PublicKey::new(vec![200; 32]));
    let config = ConnectivityConfig::default();

    let selected = select_neighbours(&directory, &own, 5, &Vec::new(), &config, NOW).unwrap();
    assert_eq!(selected.len(), 5);
    for w in selected.windows(2) {
        assert!(own.distance(&w[0].node_id) <= own.distance(&w[1].node_id));
    }
    // Nothing closer was left out.
    let farthest = own.distance(&selected[4].node_id);
    for p in &peers {
        if !selected.iter().any(|s| s.node_id == p.node_id) {
            assert!(own.distance(&p.node_id) >= farthest);
        }
    }
}

#[test]
fn selection_skips_clients_banned_and_excluded() {
    let mut directory = PeerManager::new();
    let node = make_peer(1, PeerFeatures::communication_node());
    let client = make_peer(2, PeerFeatures::communication_client());
    let banned = make_peer(3, PeerFeatures::communication_node());
    let shunned = make_peer(4, PeerFeatures::communication_node());
    for p in [&node, &client, &banned, &shunned] {
        directory.add_peer(p.clone()).unwrap();
    }
    directory.ban_for(&banned.public_key, 1_000_000, NOW).unwrap();

    let own = derive_node_id(&PublicKey::new(vec![200; 32]));
    let config = ConnectivityConfig::default();
    let excluded = vec![shunned.node_id];
    let selected = select_neighbours(&directory, &own, 10, &excluded, &config, NOW).unwrap();
    assert_eq!(selected.len(), 1);
    assert_eq!(selected[0].node_id, node.node_id);
}

#[test]
fn cooldown_gates_repeat_offenders() {
    let config = ConnectivityConfig::default();
    let own = derive_node_id(&PublicKey::new(vec![200; 32]));

    let mut directory = PeerManager::new();
    let mut flaky = make_peer(1, PeerFeatures::communication_node());
    for _ in 0..(config.broadcast_cooldown_max_attempts + 1) {
        flaky.connection_stats.set_connection_failed(NOW);
    }
    directory.add_peer(flaky.clone()).unwrap();

    // Too many recent failures: not eligible.
    let selected = select_neighbours(&directory, &own, 5, &Vec::new(), &config, NOW).unwrap();
    assert!(selected.is_empty());

    // After the cooldown period the peer is eligible again.
    let later = NOW + config.broadcast_cooldown_period_ms;
    let selected = select_neighbours(&directory, &own, 5, &Vec::new(), &config, later).unwrap();
    assert_eq!(selected.len(), 1);

    // An offline peer is never eligible.
    directory.set_offline(&flaky.public_key, true).unwrap();
    let selected = select_neighbours(&directory, &own, 5, &Vec::new(), &config, later).unwrap();
    assert!(selected.is_empty());
}

#[test]
fn failures_below_the_attempt_limit_do_not_gate() {
    let config = ConnectivityConfig::default();
    let own = derive_node_id(&PublicKey::new(vec![200; 32]));
    let mut directory = PeerManager::new();
    let mut sometimes = make_peer(1, PeerFeatures::communication_node());
    sometimes.connection_stats.set_connection_failed(NOW);
    directory.add_peer(sometimes).unwrap();

    let selected = select_neighbours(&directory, &own, 5, &Vec::new(), &config, NOW).unwrap();
    assert_eq!(selected.len(), 1);
}
