//! The manager's collection of active pools: at most one pool per role,
//! with pairwise disjoint connection sets.

use vstd::prelude::*;

use crate::node_id::NodeId;
use crate::peer_pool::{
    connection_ids, distinct_connection_ids, remove_connection_to, PeerConnection, PeerPool,
    PeerPoolType, PoolId,
};

verus! {

/// Two id sets share no value.
pub open spec fn disjoint_ids(a: Seq<u128>, b: Seq<u128>) -> bool {
    forall|v: u128| #[trigger] a.contains(v) ==> !b.contains(v)
}

/// The collection of active pools.
#[derive(Debug)]
pub struct PeerPools {
    /// The pools, each with a unique role and a unique id, holding pairwise
    /// disjoint connection sets.
    pub pools: Vec<PeerPool>,
}

impl PeerPools {
    /// Every pool is well formed; roles and ids are unique; no peer sits in
    /// two pools at once.
    pub open spec fn wf(self) -> bool {
        &&& forall|i: int| 0 <= i < self.pools@.len() ==> (#[trigger] self.pools@[i]).wf()
        &&& forall|i: int, j: int|
            0 <= i < j < self.pools@.len() ==> (#[trigger] self.pools@[i]).pool_type != (
            #[trigger] self.pools@[j]).pool_type
        &&& forall|i: int, j: int|
            0 <= i < j < self.pools@.len() ==> (#[trigger] self.pools@[i]).id != (
            #[trigger] self.pools@[j]).id
        &&& forall|i: int, j: int|
            0 <= i < self.pools@.len() && 0 <= j < self.pools@.len() && i != j ==> disjoint_ids(
                (#[trigger] self.pools@[i]).spec_node_ids(),
                (#[trigger] self.pools@[j]).spec_node_ids(),
            )
    }

    /// True when a pool of this role exists.
    pub open spec fn spec_contains_type(self, pool_type: PeerPoolType) -> bool {
        exists|i: int| 0 <= i < self.pools@.len() && (#[trigger] self.pools@[i]).pool_type == pool_type
    }

    /// The index of the pool of this role (unique under `wf`).
    pub open spec fn idx_of_type(self, pool_type: PeerPoolType) -> int {
        choose|i: int| 0 <= i < self.pools@.len() && (#[trigger] self.pools@[i]).pool_type == pool_type
    }

    /// True when a pool with this id exists.
    pub open spec fn spec_contains_id(self, pool_id: PoolId) -> bool {
        exists|i: int| 0 <= i < self.pools@.len() && (#[trigger] self.pools@[i]).id == pool_id
    }

    /// The index of the pool with this id (unique under `wf`).
    pub open spec fn idx_of_id(self, pool_id: PoolId) -> int {
        choose|i: int| 0 <= i < self.pools@.len() && (#[trigger] self.pools@[i]).id == pool_id
    }

    /// Under `wf`, a pool id occurs at one index only.
    pub proof fn lemma_id_index_unique(self, i: int, j: int)
        requires
            self.wf(),
            0 <= i < self.pools@.len(),
            0 <= j < self.pools@.len(),
            self.pools@[i].id == self.pools@[j].id,
        ensures
            i == j,
    {
    }

    /// True when some pool holds a connection to this node id value.
    pub open spec fn holds_node_id(self, v: u128) -> bool {
        exists|i: int|
            0 <= i < self.pools@.len() && (#[trigger] self.pools@[i]).spec_node_ids().contains(v)
    }

    /// Under `wf`, a role occurs at one index only.
    pub proof fn lemma_type_index_unique(self, i: int, j: int)
        requires
            self.wf(),
            0 <= i < self.pools@.len(),
            0 <= j < self.pools@.len(),
            self.pools@[i].pool_type == self.pools@[j].pool_type,
        ensures
            i == j,
    {
    }

    /// An empty collection.
    pub fn new() -> (r: PeerPools)
        ensures
            r.wf(),
            r.pools@ == Seq::<PeerPool>::empty(),
    {
        PeerPools { pools: Vec::new() }
    }

    /// The index of the pool with this id, if any.
    pub fn index_of_id(&self, pool_id: PoolId) -> (r: Option<usize>)
        requires
            self.wf(),
        ensures
            match r {
                Some(i) => i < self.pools@.len() && self.pools@[i as int].id == pool_id && i as int
                    == self.idx_of_id(pool_id) && self.spec_contains_id(pool_id),
                None => !self.spec_contains_id(pool_id),
            },
    {
        let mut i: usize = 0;
        while i < self.pools.len()
            invariant
                self.wf(),
                i <= self.pools@.len(),
                forall|j: int| 0 <= j < i ==> (#[trigger] self.pools@[j]).id != pool_id,
            decreases self.pools@.len() - i,
        {
            if self.pools[i].id == pool_id {
                proof {
                    let w = self.idx_of_id(pool_id);
                    self.lemma_id_index_unique(w, i as int);
                }
                return Some(i);
            }
            i = i + 1;
        }
        None
    }

    /// The index of the pool of this role, if any.
    pub fn index_of_type(&self, pool_type: PeerPoolType) -> (r: Option<usize>)
        requires
            self.wf(),
        ensures
            match r {
                Some(i) => {
                    &&& i < self.pools@.len()
                    &&& self.pools@[i as int].pool_type == pool_type
                    &&& i as int == self.idx_of_type(pool_type)
                    &&& self.spec_contains_type(pool_type)
                },
                None => !self.spec_contains_type(pool_type),
            },
    {
        let mut i: usize = 0;
        while i < self.pools.len()
            invariant
                self.wf(),
                i <= self.pools@.len(),
                forall|j: int| 0 <= j < i ==> (#[trigger] self.pools@[j]).pool_type != pool_type,
            decreases self.pools@.len() - i,
        {
            let found = match (self.pools[i].pool_type, pool_type) {
                (PeerPoolType::Neighbours, PeerPoolType::Neighbours) => true,
                (PeerPoolType::Random, PeerPoolType::Random) => true,
                _ => false,
            };
            if found {
                proof {
                    let w = self.idx_of_type(pool_type);
                    self.lemma_type_index_unique(w, i as int);
                }
                return Some(i);
            }
            i = i + 1;
        }
        None
    }

    /// The pool of this role, if any.
    pub fn get_by_type(&self, pool_type: PeerPoolType) -> (r: Option<&PeerPool>)
        requires
            self.wf(),
        ensures
            match r {
                Some(p) => self.spec_contains_type(pool_type) && *p == self.pools@[self.idx_of_type(
                    pool_type,
                )],
                None => !self.spec_contains_type(pool_type),
            },
    {
        match self.index_of_type(pool_type) {
            Some(i) => Some(&self.pools[i]),
            None => None,
        }
    }

    /// Appends a fresh pool. The caller supplies a pool with no connections
    /// yet, of a role not yet present.
    /// Appends a pool of a role not yet present; no peer it connects may
    /// sit in another pool already.
    pub fn push(&mut self, pool: PeerPool)
        requires
            old(self).wf(),
            pool.wf(),
            !old(self).spec_contains_type(pool.pool_type),
            !old(self).spec_contains_id(pool.id),
            forall|v: u128|
                #[trigger] pool.spec_node_ids().contains(v) ==> !old(self).holds_node_id(v),
        ensures
            final(self).wf(),
            final(self).pools@ == old(self).pools@.push(pool),
    {
        let ghost prev = self.pools@;
        self.pools.push(pool);
        proof {
            let cur = self.pools@;
            assert forall|i: int, j: int|
                0 <= i < cur.len() && 0 <= j < cur.len() && i != j implies disjoint_ids(
                (#[trigger] cur[i]).spec_node_ids(),
                (#[trigger] cur[j]).spec_node_ids(),
            ) by {
                if i < prev.len() && j < prev.len() {
                    assert(disjoint_ids(prev[i].spec_node_ids(), prev[j].spec_node_ids()));
                } else if i < prev.len() {
                    assert forall|v: u128| #[trigger]
                        cur[i].spec_node_ids().contains(v) implies !cur[j].spec_node_ids().contains(
                        v,
                    ) by {
                        if cur[j].spec_node_ids().contains(v) {
                            assert(pool.spec_node_ids().contains(v));
                            assert(prev[i].spec_node_ids().contains(v));
                            assert(old(self).holds_node_id(v));
                        }
                    }
                } else {
                    assert forall|v: u128| #[trigger]
                        cur[i].spec_node_ids().contains(v) implies !cur[j].spec_node_ids().contains(
                        v,
                    ) by {
                        assert(pool.spec_node_ids().contains(v));
                        if cur[j].spec_node_ids().contains(v) {
                            assert(prev[j].spec_node_ids().contains(v));
                            assert(old(self).holds_node_id(v));
                        }
                    }
                }
            }
        }
    }

    /// Removes the pool of this role, if present; its connections simply
    /// stop being tracked. Idempotent.
    pub fn remove_by_type(&mut self, pool_type: PeerPoolType) -> (r: bool)
        requires
            old(self).wf(),
        ensures
            final(self).wf(),
            r == old(self).spec_contains_type(pool_type),
            !final(self).spec_contains_type(pool_type),
            r ==> final(self).pools@ == old(self).pools@.remove(
                old(self).idx_of_type(pool_type),
            ),
            !r ==> final(self).pools@ == old(self).pools@,
    {
        let ghost prev = self.pools@;
        match self.index_of_type(pool_type) {
            Some(i) => {
                self.pools.remove(i);
                proof {
                    let cur = self.pools@;
                    assert forall|a: int| 0 <= a < cur.len() implies ((#[trigger] cur[a]).wf()
                        && cur[a].pool_type != pool_type) by {
                        let a0 = if a < i {
                            a
                        } else {
                            a + 1
                        };
                        assert(cur[a] == prev[a0]);
                        if prev[a0].pool_type == pool_type {
                            old(self).lemma_type_index_unique(a0, i as int);
                        }
                    }
                    assert forall|a: int, b: int| 0 <= a < b < cur.len() implies ((
                    #[trigger] cur[a]).pool_type != (#[trigger] cur[b]).pool_type && cur[a].id
                        != cur[b].id) by {
                        let a0 = if a < i {
                            a
                        } else {
                            a + 1
                        };
                        let b0 = if b < i {
                            b
                        } else {
                            b + 1
                        };
                        assert(cur[a] == prev[a0] && cur[b] == prev[b0]);
                    }
                    assert forall|a: int, b: int|
                        0 <= a < cur.len() && 0 <= b < cur.len() && a != b implies disjoint_ids(
                        (#[trigger] cur[a]).spec_node_ids(),
                        (#[trigger] cur[b]).spec_node_ids(),
                    ) by {
                        let a0 = if a < i {
                            a
                        } else {
                            a + 1
                        };
                        let b0 = if b < i {
                            b
                        } else {
                            b + 1
                        };
                        assert(disjoint_ids(prev[a0].spec_node_ids(), prev[b0].spec_node_ids()));
                        assert(cur[a] == prev[a0] && cur[b] == prev[b0]);
                    }
                }
                true
            },
            None => false,
        }
    }

    /// Adds a connection to the pool at `i`; the peer must not sit in any
    /// pool yet.
    pub fn add_connection_at(&mut self, i: usize, conn: PeerConnection)
        requires
            old(self).wf(),
            i < old(self).pools@.len(),
            !old(self).holds_node_id(conn.node_id.value),
        ensures
            final(self).wf(),
            final(self).pools@.len() == old(self).pools@.len(),
            forall|j: int|
                0 <= j < old(self).pools@.len() && j != i ==> final(self).pools@[j] == old(
                    self,
                ).pools@[j],
            ({
                let p = final(self).pools@[i as int];
                let q = old(self).pools@[i as int];
                &&& p.id == q.id
                &&& p.pool_type == q.pool_type
                &&& p.params == q.params
                &&& p.status == q.status
                &&& p.last_refreshed_ms == q.last_refreshed_ms
                &&& p.refresh_in_progress == q.refresh_in_progress
                &&& p.connections@ == q.connections@.push(conn)
            }),
            forall|v: u128|
                #[trigger] final(self).holds_node_id(v) <==> (old(self).holds_node_id(v) || v
                    == conn.node_id.value),
    {
        let ghost orig = self.pools@;
        let mut pool = self.pools[i].clone();
        proof {
            assert(orig[i as int].wf());
            assert(!orig[i as int].spec_node_ids().contains(conn.node_id.value));
        }
        pool.connections.push(conn);
        proof {
            assert(pool.connections@ =~= orig[i as int].connections@.push(conn));
        }
        self.pools.set(i, pool);
        proof {
            let cur = self.pools@;
            assert(cur[i as int].spec_node_ids() =~= orig[i as int].spec_node_ids().push(
                conn.node_id.value,
            ));
            assert forall|a: int, b: int|
                0 <= a < b < cur[i as int].spec_node_ids().len() implies cur[
            i as int].spec_node_ids()[a] != cur[i as int].spec_node_ids()[b] by {
                if b == orig[i as int].spec_node_ids().len() {
                    assert(orig[i as int].spec_node_ids()[a] == cur[i as int].spec_node_ids()[a]);
                    assert(orig[i as int].spec_node_ids().contains(
                        orig[i as int].spec_node_ids()[a],
                    ));
                } else {
                    assert(orig[i as int].spec_node_ids()[a] != orig[
                        i as int].spec_node_ids()[b]);
                }
            }
            assert forall|a: int, b: int|
                0 <= a < cur.len() && 0 <= b < cur.len() && a != b implies disjoint_ids(
                (#[trigger] cur[a]).spec_node_ids(),
                (#[trigger] cur[b]).spec_node_ids(),
            ) by {
                assert(disjoint_ids(orig[a].spec_node_ids(), orig[b].spec_node_ids()));
                assert forall|v: u128| #[trigger]
                    cur[a].spec_node_ids().contains(v) implies !cur[b].spec_node_ids().contains(
                    v,
                ) by {
                    if a == i {
                        let w = cur[a].spec_node_ids().lemma_contains_to_index(v);
                        if w < orig[i as int].spec_node_ids().len() {
                            assert(orig[a].spec_node_ids()[w] == v);
                            assert(orig[a].spec_node_ids().contains(v));
                        } else {
                            assert(v == conn.node_id.value);
                            if cur[b].spec_node_ids().contains(v) {
                                assert(old(self).holds_node_id(v));
                            }
                        }
                    } else if b == i {
                        assert(orig[a].spec_node_ids().contains(v));
                        if cur[b].spec_node_ids().contains(v) {
                            let w = cur[b].spec_node_ids().lemma_contains_to_index(v);
                            if w < orig[i as int].spec_node_ids().len() {
                                assert(orig[b].spec_node_ids()[w] == v);
                                assert(orig[b].spec_node_ids().contains(v));
                            } else {
                                assert(v == conn.node_id.value);
                                assert(old(self).holds_node_id(v));
                            }
                        }
                    } else {
                        assert(orig[a].spec_node_ids().contains(v));
                        assert(!orig[b].spec_node_ids().contains(v));
                    }
                }
            }
            assert forall|v: u128| #[trigger]
                final(self).holds_node_id(v) implies (old(self).holds_node_id(v) || v
                == conn.node_id.value) by {
                let w = choose|w: int|
                    0 <= w < cur.len() && (#[trigger] cur[w]).spec_node_ids().contains(v);
                if w == i {
                    let x = cur[w].spec_node_ids().lemma_contains_to_index(v);
                    if x < orig[i as int].spec_node_ids().len() {
                        assert(orig[w].spec_node_ids()[x] == v);
                        assert(orig[w].spec_node_ids().contains(v));
                    }
                } else {
                    assert(orig[w].spec_node_ids().contains(v));
                }
            }
            assert forall|v: u128|
                (old(self).holds_node_id(v) || v == conn.node_id.value) implies #[trigger] final(self).holds_node_id(
                v,
            ) by {
                if old(self).holds_node_id(v) {
                    let w = choose|w: int|
                        0 <= w < orig.len() && (#[trigger] orig[w]).spec_node_ids().contains(v);
                    if w == i {
                        let x = orig[w].spec_node_ids().lemma_contains_to_index(v);
                        assert(cur[w].spec_node_ids()[x] == v);
                        assert(cur[w].spec_node_ids().contains(v));
                    } else {
                        assert(cur[w].spec_node_ids().contains(v));
                    }
                } else {
                    assert(cur[i as int].spec_node_ids()[orig[i as int].spec_node_ids().len() as int]
                        == conn.node_id.value);
                    assert(cur[i as int].spec_node_ids().contains(v));
                }
            }
        }
    }

    /// Clears the pool's freshness stamp so that the next
    /// refresh treats it as stale.
    pub fn mark_stale(&mut self, i: usize)
        requires
            old(self).wf(),
            i < old(self).pools@.len(),
        ensures
            final(self).wf(),
            final(self).pools@.len() == old(self).pools@.len(),
            forall|j: int|
                0 <= j < old(self).pools@.len() && j != i ==> final(self).pools@[j] == old(
                    self,
                ).pools@[j],
            ({
                let p = final(self).pools@[i as int];
                let q = old(self).pools@[i as int];
                &&& p.id == q.id
                &&& p.pool_type == q.pool_type
                &&& p.params == q.params
                &&& p.status == q.status
                &&& p.connections@ == q.connections@
                &&& p.last_refreshed_ms is None
                &&& p.refresh_in_progress == q.refresh_in_progress
            }),
            forall|v: u128| #[trigger] final(self).holds_node_id(v) <==> old(self).holds_node_id(v),
    {
        let ghost orig = self.pools@;
        let mut pool = self.pools[i].clone();
        pool.last_refreshed_ms = None;
        self.pools.set(i, pool);
        proof {
            let cur = self.pools@;
            assert(cur[i as int].spec_node_ids() =~= orig[i as int].spec_node_ids());
            assert forall|a: int, b: int|
                0 <= a < cur.len() && 0 <= b < cur.len() && a != b implies disjoint_ids(
                (#[trigger] cur[a]).spec_node_ids(),
                (#[trigger] cur[b]).spec_node_ids(),
            ) by {
                assert(disjoint_ids(orig[a].spec_node_ids(), orig[b].spec_node_ids()));
                assert(cur[a].spec_node_ids() == orig[a].spec_node_ids());
                assert(cur[b].spec_node_ids() == orig[b].spec_node_ids());
            }
            assert forall|a: int| 0 <= a < cur.len() implies (#[trigger] cur[a]).wf() by {
                assert(orig[a].wf());
                assert(cur[a].spec_node_ids() == orig[a].spec_node_ids());
            }
            assert forall|v: u128| #[trigger]
                final(self).holds_node_id(v) <==> old(self).holds_node_id(v) by {
                if final(self).holds_node_id(v) {
                    let w = choose|w: int|
                        0 <= w < cur.len() && (#[trigger] cur[w]).spec_node_ids().contains(v);
                    assert(orig[w].spec_node_ids().contains(v));
                }
                if old(self).holds_node_id(v) {
                    let w = choose|w: int|
                        0 <= w < orig.len() && (#[trigger] orig[w]).spec_node_ids().contains(v);
                    assert(cur[w].spec_node_ids().contains(v));
                }
            }
        }
    }

    /// True when some pool holds a connection to this peer.
    pub fn contains_node_id(&self, id: &NodeId) -> (r: bool)
        ensures
            r == self.holds_node_id(id.value),
    {
        let mut i: usize = 0;
        while i < self.pools.len()
            invariant
                i <= self.pools@.len(),
                forall|j: int|
                    0 <= j < i ==> !(#[trigger] self.pools@[j]).spec_node_ids().contains(id.value),
            decreases self.pools@.len() - i,
        {
            if crate::peer_pool::connections_contain(&self.pools[i].connections, id) {
                return true;
            }
            i = i + 1;
        }
        false
    }

    /// Removes any connection to this peer from every pool.
    pub fn remove_connection(&mut self, id: &NodeId)
        requires
            old(self).wf(),
        ensures
            final(self).wf(),
            final(self).pools@.len() == old(self).pools@.len(),
            !final(self).holds_node_id(id.value),
            forall|i: int, v: u128|
                0 <= i < final(self).pools@.len() ==> (#[trigger] final(self).pools@[
                i].spec_node_ids().contains(v) <==> (old(self).pools@[i].spec_node_ids().contains(v)
                    && v != id.value)),
            forall|i: int|
                0 <= i < final(self).pools@.len() ==> {
                    let p = #[trigger] final(self).pools@[i];
                    let q = old(self).pools@[i];
                    p.id == q.id && p.pool_type == q.pool_type && p.params == q.params && p.status
                        == q.status && p.last_refreshed_ms == q.last_refreshed_ms
                        && p.refresh_in_progress == q.refresh_in_progress
                },
    {
        let ghost orig = self.pools@;
        let mut i: usize = 0;
        while i < self.pools.len()
            invariant
                i <= self.pools@.len(),
                self.pools@.len() == orig.len(),
                old(self).wf(),
                orig == old(self).pools@,
                forall|j: int| i <= j < orig.len() ==> #[trigger] self.pools@[j] == orig[j],
                forall|j: int, v: u128|
                    0 <= j < i ==> (#[trigger] self.pools@[j].spec_node_ids().contains(v) <==> (
                    orig[j].spec_node_ids().contains(v) && v != id.value)),
                forall|j: int|
                    0 <= j < i ==> {
                        let p = #[trigger] self.pools@[j];
                        let q = orig[j];
                        &&& p.wf()
                        &&& p.id == q.id
                        &&& p.pool_type == q.pool_type
                        &&& p.params == q.params
                        &&& p.status == q.status
                        &&& p.last_refreshed_ms == q.last_refreshed_ms
                        &&& p.refresh_in_progress == q.refresh_in_progress
                    },
            decreases self.pools@.len() - i,
        {
            let mut pool = self.pools[i].clone();
            proof {
                assert(orig[i as int].wf());
                assert forall|a: int, b: int|
                    0 <= a < b < pool.connections@.len() implies (
                #[trigger] pool.connections@[a]).node_id.value != (
                #[trigger] pool.connections@[b]).node_id.value by {
                    assert(connection_ids(orig[i as int].connections@)[a] != connection_ids(
                        orig[i as int].connections@,
                    )[b]);
                }
            }
            remove_connection_to(&mut pool.connections, id);
            proof {
                assert forall|a: int, b: int|
                    0 <= a < b < pool.spec_node_ids().len() implies pool.spec_node_ids()[a]
                    != pool.spec_node_ids()[b] by {
                    assert(pool.connections@[a].node_id.value
                        != pool.connections@[b].node_id.value);
                }
            }
            self.pools.set(i, pool);
            i = i + 1;
        }
        proof {
            assert forall|a: int, b: int|
                0 <= a < self.pools@.len() && 0 <= b < self.pools@.len() && a != b implies
                disjoint_ids(
                (#[trigger] self.pools@[a]).spec_node_ids(),
                (#[trigger] self.pools@[b]).spec_node_ids(),
            ) by {
                assert(disjoint_ids(orig[a].spec_node_ids(), orig[b].spec_node_ids()));
                assert forall|v: u128| #[trigger]
                    self.pools@[a].spec_node_ids().contains(v) implies !self.pools@[
                b].spec_node_ids().contains(v) by {
                    assert(orig[a].spec_node_ids().contains(v));
                }
            }
            assert forall|a: int, b: int|
                0 <= a < b < self.pools@.len() implies ((#[trigger] self.pools@[a]).pool_type != (
            #[trigger] self.pools@[b]).pool_type && self.pools@[a].id != self.pools@[b].id) by {
                assert(orig[a].pool_type != orig[b].pool_type);
            }
        }
    }
}

/// No peer ever sits in two pools at once: after any completed operation,
/// pools of different roles hold disjoint node id sets.
pub proof fn lemma_pools_disjoint(pools: PeerPools, i: int, j: int, v: u128)
    requires
        pools.wf(),
        0 <= i < pools.pools@.len(),
        0 <= j < pools.pools@.len(),
        i != j,
        pools.pools@[i].spec_node_ids().contains(v),
    ensures
        !pools.pools@[j].spec_node_ids().contains(v),
{
    assert(disjoint_ids(pools.pools@[i].spec_node_ids(), pools.pools@[j].spec_node_ids()));
}

} // verus!
