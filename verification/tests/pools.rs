use connectivity::node_id::{derive_node_id, PublicKey};
use connectivity::peer_pool::{
    PeerConnection, PeerPool, PeerPoolType, PoolIdAllocator, PoolParams, PoolStatus,
};
use connectivity::peer_pools::PeerPools;

fn params() -> PoolParams {
    PoolParams { num_desired: 4, stale_interval_ms: 1000, min_required: None }
}

fn conn(seed: u8, conn_id: u64) -> PeerConnection {
    PeerConnection { conn_id, node_id: derive_node_id(&PublicKey::new(vec![seed; 32])) }
}

#[test]
fn allocated_pool_ids_are_distinct() {
    let mut allocator = PoolIdAllocator::new();
    let mut seen = Vec::new();
    for _ in 0..20 {
        let id = allocator.get_next_id();
        assert!(!seen.contains(&id));
        seen.push(id);
    }
}

#[test]
fn a_fresh_pool_is_stale_and_uninitialized() {
    let mut allocator = PoolIdAllocator::new();
    let pool = PeerPool::new(PeerPoolType::Neighbours, params(), allocator.get_next_id());
    assert_eq!(pool.status, PoolStatus::Uninitialized);
    assert!(pool.is_stale(0));
    assert!(pool.is_stale(u64::MAX - 1));
    assert!(pool.connections().is_empty());
}

#[test]
fn staleness_follows_the_interval() {
    let mut allocator = PoolIdAllocator::new();
    let mut pool = PeerPool::new(PeerPoolType::Neighbours, params(), allocator.get_next_id());
    pool.last_refreshed_ms = Some(5000);
    assert!(!pool.is_stale(5000));
    assert!(!pool.is_stale(6000));
    assert!(pool.is_stale(6001));
}

#[test]
fn get_node_ids_reflects_the_connections() {
    let mut allocator = PoolIdAllocator::new();
    let mut pool = PeerPool::new(PeerPoolType::Random, params(), allocator.get_next_id());
    let c1 = conn(1, 10);
    let c2 = conn(2, 11);
    pool.connections.push(c1);
    pool.connections.push(c2);
    let ids = pool.get_node_ids();
    assert_eq!(ids.len(), 2);
    assert_eq!(ids[0], c1.node_id);
    assert_eq!(ids[1], c2.node_id);
}

#[test]
fn pools_are_found_by_type_and_released() {
    let mut allocator = PoolIdAllocator::new();
    let mut pools = PeerPools::new();
    let neighbours = PeerPool::new(PeerPoolType::Neighbours, params(), allocator.get_next_id());
    let neighbours_id = neighbours.id();
    pools.push(neighbours);

    assert!(pools.get_by_type(PeerPoolType::Neighbours).is_some());
    assert!(pools.get_by_type(PeerPoolType::Random).is_none());
    assert_eq!(pools.index_of_id(neighbours_id), Some(0));

    assert!(pools.remove_by_type(PeerPoolType::Neighbours));
    assert!(pools.get_by_type(PeerPoolType::Neighbours).is_none());
    assert!(!pools.remove_by_type(PeerPoolType::Neighbours));
}

#[test]
fn accessors_mirror_the_fields() {
    let mut allocator = PoolIdAllocator::new();
    let p = params();
    let pool = PeerPool::new(PeerPoolType::Random, p, allocator.get_next_id());
    assert_eq!(pool.id(), pool.id);
    assert_eq!(pool.pool_type(), PeerPoolType::Random);
    assert_eq!(*pool.params(), p);
    let c = conn(9, 1);
    assert_eq!(c.peer_node_id(), c.node_id);
}
