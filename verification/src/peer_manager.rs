//! The peer directory: the authoritative store of known peers, with exact
//! lookup, filtered and distance-ordered queries, random sampling, and
//! mutation of flags and statistics.

use vstd::prelude::*;
use vstd::pervasive::VecAdditionalExecFns;

use crate::node_id::{
    bytes_equal, clone_public_keys, derive_node_id, key_views, node_id_of, NodeId, NodeDistance,
    PublicKey,
};
use crate::peer::{
    addresses_contain, addresses_view, banned_model, connect_failed_model, connect_success_model,
    merge_addresses, online_update_model, peers_view, protocols_view, saturating_add_u64,
    unbanned_model, NetAddress, Peer, PeerConnectionStats, PeerFeatures, PeerFlags, PeerModel,
    FEATURE_COMMUNICATION_NODE, FLAG_BANNED,
};
use crate::peer_query::{
    dist_to, filter_peers, lemma_filter_push, query_filtered, query_limit, query_matches,
    query_pred, query_result_ok, sort_peers_by_distance, PeerQuery, PeerQueryModel,
    PeerQuerySortBy,
};

verus! {

/// Failures surfaced by directory operations.
#[derive(Clone, Copy, Debug, PartialEq, Eq, Structural)]
pub enum PeerManagerError {
    /// No record with the given key or id exists.
    PeerNotFound,
    /// The record exists but is banned.
    BannedPeer,
    /// The supplied node id is not the one derived from the public key.
    InvalidNodeId,
}

/// Stable internal identifier assigned to a stored record.
pub type PeerId = u64;

/// True when some record in `peers` carries this public key.
pub open spec fn contains_pk(peers: Seq<PeerModel>, pk: Seq<u8>) -> bool {
    exists|i: int| 0 <= i < peers.len() && peers[i].public_key == pk
}

/// The index of the record with this public key (unique under `inv`).
pub open spec fn idx_of_pk(peers: Seq<PeerModel>, pk: Seq<u8>) -> int {
    choose|i: int| 0 <= i < peers.len() && peers[i].public_key == pk
}

/// True when some record in `peers` carries this node id value.
pub open spec fn contains_node_id(peers: Seq<PeerModel>, id: u128) -> bool {
    exists|i: int| 0 <= i < peers.len() && peers[i].node_id == id
}

/// The index of the record with this node id (unique under `inv`).
pub open spec fn idx_of_node_id(peers: Seq<PeerModel>, id: u128) -> int {
    choose|i: int| 0 <= i < peers.len() && peers[i].node_id == id
}

/// The directory invariant over its mathematical content: every record is
/// well formed (its node id is derived from its public key), and public
/// keys and node ids are unique. The store is keyed by both, so a record
/// whose derived node id collides with another key's record is refused on
/// insertion.
pub open spec fn inv(peers: Seq<PeerModel>) -> bool {
    &&& forall|i: int| 0 <= i < peers.len() ==> (#[trigger] peers[i]).wf()
    &&& forall|i: int, j: int|
        0 <= i < j < peers.len() ==> (#[trigger] peers[i]).public_key != (
        #[trigger] peers[j]).public_key
    &&& forall|i: int, j: int|
        0 <= i < j < peers.len() ==> (#[trigger] peers[i]).node_id != (
        #[trigger] peers[j]).node_id
}

/// Under `inv`, a public key occurs at one index only.
pub proof fn lemma_pk_index_unique(peers: Seq<PeerModel>, i: int, j: int)
    requires
        inv(peers),
        0 <= i < peers.len(),
        0 <= j < peers.len(),
        peers[i].public_key == peers[j].public_key,
    ensures
        i == j,
{
}

/// Under `inv`, a node id occurs at one index only.
pub proof fn lemma_node_id_index_unique(peers: Seq<PeerModel>, i: int, j: int)
    requires
        inv(peers),
        0 <= i < peers.len(),
        0 <= j < peers.len(),
        peers[i].node_id == peers[j].node_id,
    ensures
        i == j,
{
}

/// Replacing a record by one with the same public key preserves the
/// directory invariant: both carry the node id derived from that key.
pub proof fn lemma_inv_update(peers: Seq<PeerModel>, i: int, m: PeerModel)
    requires
        inv(peers),
        0 <= i < peers.len(),
        m.wf(),
        m.public_key == peers[i].public_key,
    ensures
        inv(peers.update(i, m)),
{
    let updated = peers.update(i, m);
    assert(peers[i].wf());
    assert(m.node_id == peers[i].node_id);
    assert forall|a: int, b: int| 0 <= a < b < updated.len() implies ((
    #[trigger] updated[a]).public_key != (#[trigger] updated[b]).public_key && updated[a].node_id
        != updated[b].node_id) by {
        assert(peers[a].public_key != peers[b].public_key);
        assert(peers[a].node_id != peers[b].node_id);
    }
}

/// Appending a record with a fresh public key preserves the directory
/// invariant.
pub proof fn lemma_inv_push(peers: Seq<PeerModel>, m: PeerModel)
    requires
        inv(peers),
        m.wf(),
        !contains_pk(peers, m.public_key),
        !contains_node_id(peers, m.node_id),
    ensures
        inv(peers.push(m)),
{
    let extended = peers.push(m);
    assert forall|a: int, b: int| 0 <= a < b < extended.len() implies ((
    #[trigger] extended[a]).public_key != (#[trigger] extended[b]).public_key && extended[a].node_id
        != extended[b].node_id) by {
        if b < peers.len() {
            assert(peers[a].public_key != peers[b].public_key);
            assert(peers[a].node_id != peers[b].node_id);
        } else {
            assert(extended[a] == peers[a]);
        }
    }
}

/// Removing a record preserves the directory invariant.
pub proof fn lemma_inv_remove(peers: Seq<PeerModel>, i: int)
    requires
        inv(peers),
        0 <= i < peers.len(),
    ensures
        inv(peers.remove(i)),
{
    let shrunk = peers.remove(i);
    assert forall|a: int, b: int| 0 <= a < b < shrunk.len() implies ((
    #[trigger] shrunk[a]).public_key != (#[trigger] shrunk[b]).public_key && shrunk[a].node_id
        != shrunk[b].node_id) by {
        let a0 = if a < i {
            a
        } else {
            a + 1
        };
        let b0 = if b < i {
            b
        } else {
            b + 1
        };
        assert(peers[a0].public_key != peers[b0].public_key);
        assert(peers[a0].node_id != peers[b0].node_id);
    }
    assert forall|a: int| 0 <= a < shrunk.len() implies (#[trigger] shrunk[a]).wf() by {
        let a0 = if a < i {
            a
        } else {
            a + 1
        };
        assert(peers[a0].wf());
    }
}

/// The peer directory. It consists of a routing table of previously
/// discovered peers, provides add, find and delete operations, and serves
/// the selection queries of the connectivity layer.
pub struct PeerManager {
    peers: Vec<Peer>,
    peer_ids: Vec<PeerId>,
    next_peer_id: PeerId,
}

impl View for PeerManager {
    type V = Seq<PeerModel>;

    closed spec fn view(&self) -> Seq<PeerModel> {
        peers_view(self.peers@)
    }
}

impl PeerManager {
    /// Well-formedness: the mathematical invariant `inv`, plus bookkeeping of
    /// the stable internal ids.
    pub closed spec fn wf(self) -> bool {
        &&& inv(self@)
        &&& self.peer_ids@.len() == self.peers@.len()
    }

    /// Well-formedness includes the open invariant over the directory's
    /// content; every record's node id is derived from its public key.
    pub proof fn lemma_wf_implies_inv(self)
        requires
            self.wf(),
        ensures
            inv(self@),
    {
    }

    /// An empty directory.
    pub fn new() -> (r: PeerManager)
        ensures
            r.wf(),
            r@ == Seq::<PeerModel>::empty(),
    {
        let r = PeerManager { peers: Vec::new(), peer_ids: Vec::new(), next_peer_id: 0 };
        proof {
            assert(r@ =~= Seq::<PeerModel>::empty());
        }
        r
    }

    /// The number of stored records.
    pub fn len(&self) -> (r: usize)
        ensures
            r == self@.len(),
    {
        self.peers.len()
    }

    /// The index of the record carrying `pk`, if any.
    fn index_of_pk(&self, pk: &PublicKey) -> (r: Option<usize>)
        requires
            self.wf(),
        ensures
            match r {
                Some(i) => {
                    &&& i < self@.len()
                    &&& self@[i as int].public_key == pk@
                    &&& i as int == idx_of_pk(self@, pk@)
                    &&& contains_pk(self@, pk@)
                },
                None => !contains_pk(self@, pk@),
            },
    {
        let mut i: usize = 0;
        while i < self.peers.len()
            invariant
                self.wf(),
                i <= self@.len(),
                self@.len() == self.peers@.len(),
                forall|j: int| 0 <= j < i ==> (#[trigger] self@[j]).public_key != pk@,
            decreases self.peers@.len() - i,
        {
            if bytes_equal(&self.peers[i].public_key.bytes, &pk.bytes) {
                proof {
                    assert(self@[i as int].public_key == pk@);
                    let w = idx_of_pk(self@, pk@);
                    lemma_pk_index_unique(self@, w, i as int);
                }
                return Some(i);
            }
            i = i + 1;
        }
        None
    }

    /// The index of the record carrying node id `id`, if any.
    fn index_of_node_id(&self, id: &NodeId) -> (r: Option<usize>)
        requires
            self.wf(),
        ensures
            match r {
                Some(i) => {
                    &&& i < self@.len()
                    &&& self@[i as int].node_id == id.value
                    &&& i as int == idx_of_node_id(self@, id.value)
                    &&& contains_node_id(self@, id.value)
                },
                None => !contains_node_id(self@, id.value),
            },
    {
        let mut i: usize = 0;
        while i < self.peers.len()
            invariant
                self.wf(),
                i <= self@.len(),
                self@.len() == self.peers@.len(),
                forall|j: int| 0 <= j < i ==> (#[trigger] self@[j]).node_id != id.value,
            decreases self.peers@.len() - i,
        {
            if self.peers[i].node_id.value == id.value {
                proof {
                    self.lemma_wf_implies_inv();
                    let w = idx_of_node_id(self@, id.value);
                    lemma_node_id_index_unique(self@, w, i as int);
                }
                return Some(i);
            }
            i = i + 1;
        }
        None
    }

    /// Adds a peer to the directory if none with its public key exists;
    /// otherwise the stored record is replaced by the given one. Returns the
    /// record's stable internal id. A fresh record whose derived node id
    /// collides with another key's record is refused: the store is keyed by
    /// node id as well.
    pub fn add_peer(&mut self, peer: Peer) -> (r: Result<PeerId, PeerManagerError>)
        requires
            old(self).wf(),
            peer@.wf(),
        ensures
            final(self).wf(),
            r is Ok <==> (contains_pk(old(self)@, peer@.public_key) || !contains_node_id(
                old(self)@,
                peer@.node_id,
            )),
            contains_pk(old(self)@, peer@.public_key) ==> final(self)@ == old(self)@.update(
                idx_of_pk(old(self)@, peer@.public_key),
                peer@,
            ),
            (!contains_pk(old(self)@, peer@.public_key) && !contains_node_id(
                old(self)@,
                peer@.node_id,
            )) ==> final(self)@ == old(self)@.push(peer@),
            r is Err ==> r == Err::<PeerId, PeerManagerError>(PeerManagerError::InvalidNodeId)
                && final(self)@ == old(self)@,
    {
        let ghost old_view = self@;
        match self.index_of_pk(&peer.public_key) {
            Some(i) => {
                let id = self.peer_ids[i];
                let ghost m = peer@;
                self.peers.set(i, peer);
                proof {
                    assert(self@ =~= old_view.update(i as int, m));
                    lemma_inv_update(old_view, i as int, m);
                }
                Ok(id)
            },
            None => {
                if self.index_of_node_id(&peer.node_id).is_some() {
                    return Err(PeerManagerError::InvalidNodeId);
                }
                let id = self.next_peer_id;
                let ghost m = peer@;
                self.peers.push(peer);
                self.peer_ids.push(id);
                if self.next_peer_id < PeerId::MAX {
                    self.next_peer_id = self.next_peer_id + 1;
                }
                proof {
                    assert(self@ =~= old_view.push(m));
                    lemma_inv_push(old_view, m);
                }
                Ok(id)
            },
        }
    }

    /// Finds the peer with the given public key.
    pub fn find_by_public_key(&self, public_key: &PublicKey) -> (r: Result<
        Peer,
        PeerManagerError,
    >)
        requires
            self.wf(),
        ensures
            r is Ok <==> contains_pk(self@, public_key@),
            match r {
                Ok(p) => p@ == self@[idx_of_pk(self@, public_key@)] && p@.public_key == public_key@,
                Err(e) => e == PeerManagerError::PeerNotFound,
            },
    {
        match self.index_of_pk(public_key) {
            Some(i) => Ok(self.peers[i].clone()),
            None => Err(PeerManagerError::PeerNotFound),
        }
    }

    /// Finds the peer with the given node id.
    pub fn find_by_node_id(&self, node_id: &NodeId) -> (r: Result<Peer, PeerManagerError>)
        requires
            self.wf(),
        ensures
            r is Ok <==> contains_node_id(self@, node_id.value),
            match r {
                Ok(p) => p@ == self@[idx_of_node_id(self@, node_id.value)] && p@.node_id
                    == node_id.value,
                Err(e) => e == PeerManagerError::PeerNotFound,
            },
    {
        match self.index_of_node_id(node_id) {
            Some(i) => Ok(self.peers[i].clone()),
            None => Err(PeerManagerError::PeerNotFound),
        }
    }

    /// True when a record with this public key exists.
    pub fn exists_public_key(&self, public_key: &PublicKey) -> (r: bool)
        requires
            self.wf(),
        ensures
            r == contains_pk(self@, public_key@),
    {
        self.index_of_pk(public_key).is_some()
    }

    /// True when a record with this node id exists.
    pub fn exists_node_id(&self, node_id: &NodeId) -> (r: bool)
        requires
            self.wf(),
        ensures
            r == contains_node_id(self@, node_id.value),
    {
        self.index_of_node_id(node_id).is_some()
    }

    /// Returns a copy of every stored record.
    pub fn all(&self) -> (r: Result<Vec<Peer>, PeerManagerError>)
        requires
            self.wf(),
        ensures
            r is Ok,
            match r {
                Ok(v) => peers_view(v@) == self@,
                Err(_) => false,
            },
    {
        let mut out: Vec<Peer> = Vec::new();
        let mut i: usize = 0;
        while i < self.peers.len()
            invariant
                self.wf(),
                i <= self.peers@.len(),
                self@.len() == self.peers@.len(),
                peers_view(out@) =~= self@.take(i as int),
            decreases self.peers@.len() - i,
        {
            let p = self.peers[i].clone();
            let ghost m = p@;
            let ghost prev = out@;
            out.push(p);
            proof {
                assert(m == self@[i as int]);
                assert(peers_view(out@) =~= peers_view(prev).push(m));
                assert(self@.take(i as int + 1) =~= self@.take(i as int).push(self@[i as int]));
                assert(peers_view(out@) =~= self@.take(i as int + 1));
            }
            i = i + 1;
        }
        proof {
            assert(self@.take(self@.len() as int) =~= self@);
        }
        Ok(out)
    }

    /// Removes the record with the given node id.
    pub fn delete_peer(&mut self, node_id: &NodeId) -> (r: Result<(), PeerManagerError>)
        requires
            old(self).wf(),
        ensures
            final(self).wf(),
            r is Ok <==> contains_node_id(old(self)@, node_id.value),
            match r {
                Ok(()) => final(self)@ == old(self)@.remove(
                    idx_of_node_id(old(self)@, node_id.value),
                ),
                Err(e) => e == PeerManagerError::PeerNotFound && final(self)@ == old(self)@,
            },
    {
        let ghost old_view = self@;
        match self.index_of_node_id(node_id) {
            Some(i) => {
                self.peers.remove(i);
                self.peer_ids.remove(i);
                proof {
                    assert(self@ =~= old_view.remove(i as int));
                    lemma_inv_remove(old_view, i as int);
                }
                Ok(())
            },
            None => Err(PeerManagerError::PeerNotFound),
        }
    }
}

/// The filter that keeps non-banned records, as a function value.
pub open spec fn not_banned_pred(now_ms: u64) -> spec_fn(PeerModel) -> bool {
    |m: PeerModel| !m.is_banned_at(now_ms)
}

/// The non-banned records of the directory, in storage order.
pub open spec fn flood_view(stored: Seq<PeerModel>, now_ms: u64) -> Seq<PeerModel> {
    stored.filter(not_banned_pred(now_ms))
}

/// The query behind `closest_peers`: non-banned records with the requested
/// features, minus the excluded keys, by ascending distance, at most `n`.
pub open spec fn closest_query(
    target: NodeId,
    n: usize,
    excluded: Seq<Seq<u8>>,
    features: Option<PeerFeatures>,
) -> PeerQueryModel {
    PeerQueryModel {
        exclude_banned: true,
        required_features: features,
        excluded_public_keys: excluded,
        excluded_node_ids: Seq::<u128>::empty(),
        cooldown: None,
        sort_by: PeerQuerySortBy::DistanceFrom(target),
        limit: Some(n),
    }
}

/// The query behind `random_peers`: non-banned routing-capable records,
/// minus the excluded node ids.
pub open spec fn random_query(excluded_ids: Seq<u128>) -> PeerQueryModel {
    PeerQueryModel {
        exclude_banned: true,
        required_features: Some(PeerFeatures { bits: FEATURE_COMMUNICATION_NODE }),
        excluded_public_keys: Seq::<Seq<u8>>::empty(),
        excluded_node_ids: excluded_ids,
        cooldown: None,
        sort_by: PeerQuerySortBy::Natural,
        limit: None,
    }
}

/// The query behind the region calculations: the `n` closest non-banned
/// records carrying `features`.
pub open spec fn region_query(target: NodeId, n: usize, features: PeerFeatures) -> PeerQueryModel {
    closest_query(target, n, Seq::<Seq<u8>>::empty(), Some(features))
}

/// Filtering with pointwise equal predicates gives equal results.
pub proof fn lemma_filter_congruence<A>(s: Seq<A>, p1: spec_fn(A) -> bool, p2: spec_fn(A) -> bool)
    requires
        forall|x: A| #[trigger] p1(x) == p2(x),
    ensures
        s.filter(p1) == s.filter(p2),
    decreases s.len(),
{
    reveal(Seq::filter);
    if s.len() != 0 {
        lemma_filter_congruence(s.drop_last(), p1, p2);
    }
}

/// The filter that keeps records within distance `d` of `target`.
pub open spec fn within_pred(target: u128, d: u128) -> spec_fn(PeerModel) -> bool {
    |m: PeerModel| dist_to(m, target) <= d
}

/// How many of the given records lie within distance `d` of `target`.
pub open spec fn region_count(s: Seq<PeerModel>, target: u128, d: u128) -> nat {
    s.filter(within_pred(target, d)).len()
}

/// Basic statistics about the region of `n` peers around a node id.
#[derive(Clone, Copy, Debug, PartialEq, Eq, Structural)]
pub struct RegionStats {
    /// Distance of the farthest peer that still counts as in the region.
    pub threshold_distance: NodeDistance,
    /// How many eligible peers lie within the threshold.
    pub in_region_count: usize,
    /// How many eligible peers were considered in total.
    pub total_considered: usize,
}

impl PeerManager {
    /// Performs the given query: filter, then sort, then limit.
    pub fn perform_query(&self, query: &PeerQuery, now_ms: u64) -> (r: Result<
        Vec<Peer>,
        PeerManagerError,
    >)
        requires
            self.wf(),
        ensures
            r is Ok,
            match r {
                Ok(v) => query_result_ok(self@, query@, now_ms, peers_view(v@)),
                Err(_) => false,
            },
    {
        proof {
            assert(peers_view(self.peers@) == self@);
        }
        let filtered = filter_peers(&self.peers, query, now_ms);
        let ghost fmods = peers_view(filtered@);
        match query.sort_by {
            PeerQuerySortBy::Natural => {
                let mut v = filtered;
                let ghost pre = v@;
                match query.limit {
                    Some(n) => {
                        v.truncate(n);
                    },
                    None => {},
                }
                proof {
                    let k = query_limit(query@, fmods.len()) as int;
                    assert(peers_view(v@) =~= fmods.take(k));
                }
                Ok(v)
            },
            PeerQuerySortBy::DistanceFrom(t) => {
                let sorted = sort_peers_by_distance(filtered, &t);
                let ghost smods = peers_view(sorted@);
                let mut v = sorted;
                match query.limit {
                    Some(n) => {
                        v.truncate(n);
                    },
                    None => {},
                }
                proof {
                    let k = query_limit(query@, fmods.len()) as int;
                    crate::peer_query::lemma_sorted_take_is_query_result(
                        smods,
                        fmods,
                        k,
                        t.value,
                    );
                    assert(peers_view(v@) =~= smods.take(k));
                }
                Ok(v)
            },
        }
    }

    /// Every stored record that is not banned at `now_ms`, in storage order.
    pub fn flood_peers(&self, now_ms: u64) -> (r: Result<Vec<Peer>, PeerManagerError>)
        requires
            self.wf(),
        ensures
            r is Ok,
            match r {
                Ok(v) => peers_view(v@) == flood_view(self@, now_ms),
                Err(_) => false,
            },
    {
        let ghost all = self@;
        let ghost pred = not_banned_pred(now_ms);
        let mut out: Vec<Peer> = Vec::new();
        proof {
            reveal(Seq::filter);
            assert(all.take(0) =~= Seq::<PeerModel>::empty());
            assert(peers_view(out@) =~= Seq::<PeerModel>::empty());
        }
        let mut i: usize = 0;
        while i < self.peers.len()
            invariant
                self.wf(),
                i <= self.peers@.len(),
                all == self@,
                all.len() == self.peers@.len(),
                pred == not_banned_pred(now_ms),
                peers_view(out@) == all.take(i as int).filter(pred),
            decreases self.peers@.len() - i,
        {
            let ghost prev = out@;
            if !self.peers[i].is_banned(now_ms) {
                let p = self.peers[i].clone();
                let ghost m = p@;
                out.push(p);
                proof {
                    assert(m == all[i as int]);
                    assert(peers_view(out@) =~= peers_view(prev).push(m));
                }
            }
            proof {
                assert(all.take(i as int + 1) =~= all.take(i as int).push(all[i as int]));
                lemma_filter_push(all.take(i as int), all[i as int], pred);
            }
            i = i + 1;
        }
        proof {
            assert(all.take(all.len() as int) =~= all);
        }
        Ok(out)
    }

    /// The record with this node id, unless it is banned or absent.
    pub fn direct_identity_node_id(&self, node_id: &NodeId, now_ms: u64) -> (r: Result<
        Option<Peer>,
        PeerManagerError,
    >)
        requires
            self.wf(),
        ensures
            r is Ok,
            match r {
                Ok(Some(p)) => exists|i: int|
                    {
                        &&& 0 <= i < self@.len()
                        &&& (#[trigger] self@[i]).node_id == node_id.value
                        &&& !self@[i].is_banned_at(now_ms)
                        &&& p@ == self@[i]
                    },
                Ok(None) => forall|i: int|
                    0 <= i < self@.len() && (#[trigger] self@[i]).node_id == node_id.value
                        ==> self@[i].is_banned_at(now_ms),
                Err(_) => false,
            },
    {
        let mut i: usize = 0;
        while i < self.peers.len()
            invariant
                self.wf(),
                i <= self.peers@.len(),
                self@.len() == self.peers@.len(),
                forall|j: int|
                    0 <= j < i && (#[trigger] self@[j]).node_id == node_id.value
                        ==> self@[j].is_banned_at(now_ms),
            decreases self.peers@.len() - i,
        {
            if self.peers[i].node_id.value == node_id.value && !self.peers[i].is_banned(now_ms) {
                let p = self.peers[i].clone();
                proof {
                    assert((#[trigger] self@[i as int]).node_id == node_id.value && !self@[
                        i as int].is_banned_at(now_ms) && p@ == self@[i as int]);
                }
                return Ok(Some(p));
            }
            i = i + 1;
        }
        Ok(None)
    }

    /// The record with this public key, unless it is banned or absent.
    pub fn direct_identity_public_key(&self, public_key: &PublicKey, now_ms: u64) -> (r: Result<
        Option<Peer>,
        PeerManagerError,
    >)
        requires
            self.wf(),
        ensures
            r is Ok,
            match r {
                Ok(Some(p)) => exists|i: int|
                    {
                        &&& 0 <= i < self@.len()
                        &&& (#[trigger] self@[i]).public_key == public_key@
                        &&& !self@[i].is_banned_at(now_ms)
                        &&& p@ == self@[i]
                    },
                Ok(None) => forall|i: int|
                    0 <= i < self@.len() && (#[trigger] self@[i]).public_key == public_key@
                        ==> self@[i].is_banned_at(now_ms),
                Err(_) => false,
            },
    {
        let mut i: usize = 0;
        while i < self.peers.len()
            invariant
                self.wf(),
                i <= self.peers@.len(),
                self@.len() == self.peers@.len(),
                forall|j: int|
                    0 <= j < i && (#[trigger] self@[j]).public_key == public_key@
                        ==> self@[j].is_banned_at(now_ms),
            decreases self.peers@.len() - i,
        {
            if bytes_equal(&self.peers[i].public_key.bytes, &public_key.bytes) && !self.peers[i]
                .is_banned(now_ms) {
                let p = self.peers[i].clone();
                proof {
                    assert((#[trigger] self@[i as int]).public_key == public_key@ && !self@[
                        i as int].is_banned_at(now_ms) && p@ == self@[i as int]);
                }
                return Ok(Some(p));
            }
            i = i + 1;
        }
        Ok(None)
    }

    /// Up to `n` non-banned peers matching `features`, excluding the given
    /// public keys, ordered by ascending distance from `node_id`. With fewer
    /// than `n` eligible peers, all of them are returned.
    pub fn closest_peers(
        &self,
        node_id: &NodeId,
        n: usize,
        excluded_peers: &Vec<PublicKey>,
        features: Option<PeerFeatures>,
        now_ms: u64,
    ) -> (r: Result<Vec<Peer>, PeerManagerError>)
        requires
            self.wf(),
        ensures
            r is Ok,
            match r {
                Ok(v) => query_result_ok(
                    self@,
                    closest_query(*node_id, n, key_views(excluded_peers@), features),
                    now_ms,
                    peers_view(v@),
                ),
                Err(_) => false,
            },
    {
        let base = PeerQuery::new().exclude_banned().exclude_public_keys(
            clone_public_keys(excluded_peers),
        ).sort_by(PeerQuerySortBy::DistanceFrom(*node_id)).limit(n);
        let query = match features {
            Some(f) => base.with_required_features(f),
            None => base,
        };
        proof {
            assert(query@ =~= closest_query(*node_id, n, key_views(excluded_peers@), features));
        }
        self.perform_query(&query, now_ms)
    }

    /// The distance of the `n`-th closest non-banned peer matching
    /// `features`; eligible peers strictly beyond it are out of the region.
    /// Fails when no peer is eligible or `n` is zero.
    pub fn calc_region_threshold(
        &self,
        region_node_id: &NodeId,
        n: usize,
        features: PeerFeatures,
        now_ms: u64,
    ) -> (r: Result<NodeDistance, PeerManagerError>)
        requires
            self.wf(),
        ensures
            ({
                let q = region_query(*region_node_id, n, features);
                let filtered = query_filtered(self@, q, now_ms);
                &&& (r is Ok <==> (n > 0 && filtered.len() > 0))
                &&& match r {
                    Ok(d) => exists|rs: Seq<PeerModel>|
                        {
                            &&& #[trigger] query_result_ok(self@, q, now_ms, rs)
                            &&& rs.len() > 0
                            &&& d.value == dist_to(rs[rs.len() - 1], region_node_id.value)
                        },
                    Err(e) => e == PeerManagerError::PeerNotFound,
                }
            }),
    {
        let query = PeerQuery::new().exclude_banned().with_required_features(features).sort_by(
            PeerQuerySortBy::DistanceFrom(*region_node_id),
        ).limit(n);
        proof {
            assert(query@ =~= region_query(*region_node_id, n, features));
        }
        let v = match self.perform_query(&query, now_ms) {
            Ok(v) => v,
            Err(e) => {
                return Err(e);
            },
        };
        if v.len() == 0 {
            return Err(PeerManagerError::PeerNotFound);
        }
        let last = v.len() - 1;
        let d = v[last].node_id.distance(region_node_id);
        proof {
            let rs = peers_view(v@);
            assert(query_result_ok(self@, region_query(*region_node_id, n, features), now_ms, rs));
            assert(d.value == dist_to(rs[rs.len() - 1], region_node_id.value));
        }
        Ok(d)
    }

    /// True when `node_id` lies within the region of the `n` closest
    /// routing-capable peers around `region_node_id`.
    pub fn in_network_region(
        &self,
        node_id: &NodeId,
        region_node_id: &NodeId,
        n: usize,
        now_ms: u64,
    ) -> (r: Result<bool, PeerManagerError>)
        requires
            self.wf(),
        ensures
            ({
                let q = region_query(
                    *region_node_id,
                    n,
                    PeerFeatures { bits: FEATURE_COMMUNICATION_NODE },
                );
                let filtered = query_filtered(self@, q, now_ms);
                &&& (r is Ok <==> (n > 0 && filtered.len() > 0))
                &&& match r {
                    Ok(b) => exists|rs: Seq<PeerModel>|
                        {
                            &&& #[trigger] query_result_ok(self@, q, now_ms, rs)
                            &&& rs.len() > 0
                            &&& b == (crate::node_id::distance_between(*node_id, *region_node_id)
                                <= dist_to(rs[rs.len() - 1], region_node_id.value))
                        },
                    Err(e) => e == PeerManagerError::PeerNotFound,
                }
            }),
    {
        let threshold = match self.calc_region_threshold(
            region_node_id,
            n,
            PeerFeatures::communication_node(),
            now_ms,
        ) {
            Ok(d) => d,
            Err(e) => {
                return Err(e);
            },
        };
        let d = node_id.distance(region_node_id);
        Ok(d.value <= threshold.value)
    }

    /// Region statistics: the threshold distance, how many eligible peers
    /// lie within it, and how many were considered.
    pub fn get_region_stats(
        &self,
        region_node_id: &NodeId,
        n: usize,
        features: PeerFeatures,
        now_ms: u64,
    ) -> (r: Result<RegionStats, PeerManagerError>)
        requires
            self.wf(),
        ensures
            ({
                let q = region_query(*region_node_id, n, features);
                let filtered = query_filtered(self@, q, now_ms);
                &&& (r is Ok <==> (n > 0 && filtered.len() > 0))
                &&& match r {
                    Ok(s) => {
                        &&& s.total_considered == filtered.len()
                        &&& s.in_region_count == region_count(
                            filtered,
                            region_node_id.value,
                            s.threshold_distance.value,
                        )
                        &&& exists|rs: Seq<PeerModel>|
                            {
                                &&& #[trigger] query_result_ok(self@, q, now_ms, rs)
                                &&& rs.len() > 0
                                &&& s.threshold_distance.value == dist_to(
                                    rs[rs.len() - 1],
                                    region_node_id.value,
                                )
                            }
                    },
                    Err(e) => e == PeerManagerError::PeerNotFound,
                }
            }),
    {
        let threshold = match self.calc_region_threshold(region_node_id, n, features, now_ms) {
            Ok(d) => d,
            Err(e) => {
                return Err(e);
            },
        };
        let query = PeerQuery::new().exclude_banned().with_required_features(features);
        let eligible = filter_peers(&self.peers, &query, now_ms);
        let ghost q = region_query(*region_node_id, n, features);
        let ghost emods = peers_view(eligible@);
        proof {
            assert(peers_view(self.peers@) == self@);
            assert forall|m: PeerModel| #[trigger] query_pred(query@, now_ms)(m) == query_pred(
                q,
                now_ms,
            )(m) by {}
            lemma_filter_congruence(self@, query_pred(query@, now_ms), query_pred(q, now_ms));
            assert(emods == query_filtered(self@, q, now_ms));
        }
        let ghost wpred = within_pred(region_node_id.value, threshold.value);
        let mut count: usize = 0;
        proof {
            reveal(Seq::filter);
            assert(emods.take(0) =~= Seq::<PeerModel>::empty());
        }
        let mut i: usize = 0;
        while i < eligible.len()
            invariant
                i <= eligible.len(),
                emods == peers_view(eligible@),
                emods.len() == eligible@.len(),
                wpred == within_pred(region_node_id.value, threshold.value),
                count == emods.take(i as int).filter(wpred).len(),
                count <= i,
            decreases eligible.len() - i,
        {
            let d = eligible[i].node_id.distance(region_node_id);
            if d.value <= threshold.value {
                count = count + 1;
            }
            proof {
                assert(emods.take(i as int + 1) =~= emods.take(i as int).push(emods[i as int]));
                lemma_filter_push(emods.take(i as int), emods[i as int], wpred);
            }
            i = i + 1;
        }
        proof {
            assert(emods.take(emods.len() as int) =~= emods);
        }
        Ok(
            RegionStats {
                threshold_distance: threshold,
                in_region_count: count,
                total_considered: eligible.len(),
            },
        )
    }

    /// Up to `n` random non-banned routing-capable peers, excluding the
    /// given node ids. With fewer than `n` eligible peers, all of them come
    /// back; the order is up to the random source.
    pub fn random_peers(&self, n: usize, excluded: &Vec<NodeId>, now_ms: u64) -> (r: Result<
        Vec<Peer>,
        PeerManagerError,
    >)
        requires
            self.wf(),
        ensures
            r is Ok,
            match r {
                Ok(v) => {
                    let eligible = query_filtered(
                        self@,
                        random_query(crate::node_id::node_id_values(excluded@)),
                        now_ms,
                    );
                    &&& v@.len() == if n < eligible.len() {
                        n as int
                    } else {
                        eligible.len() as int
                    }
                    &&& forall|i: int|
                        0 <= i < v@.len() ==> eligible.contains(#[trigger] peers_view(v@)[i])
                    &&& forall|i: int, j: int|
                        0 <= i < j < v@.len() ==> (#[trigger] peers_view(v@)[i]).public_key != (
                        #[trigger] peers_view(v@)[j]).public_key
                    &&& forall|i: int, j: int|
                        0 <= i < j < v@.len() ==> (#[trigger] peers_view(v@)[i]).node_id != (
                        #[trigger] peers_view(v@)[j]).node_id
                },
                Err(_) => false,
            },
    {
        let query = PeerQuery::new().exclude_banned().with_required_features(
            PeerFeatures::communication_node(),
        ).exclude_node_ids(crate::node_id::clone_node_ids(excluded));
        proof {
            assert(query@ =~= random_query(crate::node_id::node_id_values(excluded@)));
            assert(peers_view(self.peers@) == self@);
        }
        let eligible = filter_peers(&self.peers, &query, now_ms);
        let ghost emods = peers_view(eligible@);
        proof {
            crate::peer_query::lemma_filter_distinct_pks(self@, query_pred(query@, now_ms));
            crate::peer_query::lemma_filter_distinct_node_ids(self@, query_pred(query@, now_ms));
        }
        let picks = crate::random::sample_indices(eligible.len(), n);
        let mut out: Vec<Peer> = Vec::new();
        let mut t: usize = 0;
        while t < picks.len()
            invariant
                t <= picks.len(),
                emods == peers_view(eligible@),
                emods.len() == eligible@.len(),
                out@.len() == t,
                forall|i: int| 0 <= i < picks@.len() ==> (#[trigger] picks@[i]) < emods.len(),
                forall|i: int, j: int| 0 <= i < j < picks@.len() ==> picks@[i] != picks@[j],
                forall|i: int, j: int|
                    0 <= i < j < emods.len() ==> (#[trigger] emods[i]).public_key != (
                    #[trigger] emods[j]).public_key,
                forall|i: int, j: int|
                    0 <= i < j < emods.len() ==> (#[trigger] emods[i]).node_id != (
                    #[trigger] emods[j]).node_id,
                forall|i: int|
                    0 <= i < t ==> #[trigger] peers_view(out@)[i] == emods[picks@[i] as int],
            decreases picks.len() - t,
        {
            let p = eligible[picks[t]].clone();
            let ghost m = p@;
            let ghost prev = out@;
            out.push(p);
            proof {
                assert(peers_view(out@) =~= peers_view(prev).push(m));
            }
            t = t + 1;
        }
        proof {
            assert forall|i: int| 0 <= i < out@.len() implies emods.contains(
                #[trigger] peers_view(out@)[i],
            ) by {
                assert(peers_view(out@)[i] == emods[picks@[i] as int]);
            }
        }
        Ok(out)
    }

    /// The features of the peer with this node id.
    pub fn get_peer_features(&self, node_id: &NodeId) -> (r: Result<
        PeerFeatures,
        PeerManagerError,
    >)
        requires
            self.wf(),
        ensures
            r is Ok <==> contains_node_id(self@, node_id.value),
            match r {
                Ok(f) => f == self@[idx_of_node_id(self@, node_id.value)].features,
                Err(e) => e == PeerManagerError::PeerNotFound,
            },
    {
        match self.find_by_node_id(node_id) {
            Ok(p) => Ok(p.features),
            Err(e) => Err(e),
        }
    }
}

/// The record after a partial update: supplied fields replace the stored
/// ones; the banned flag is reconciled with the resulting ban deadline.
pub open spec fn updated_model(
    m: PeerModel,
    addresses: Option<Seq<Seq<u8>>>,
    flags: Option<PeerFlags>,
    banned_until: Option<Option<u64>>,
    is_offline: Option<bool>,
    features: Option<PeerFeatures>,
    stats: Option<PeerConnectionStats>,
    protocols: Option<Seq<Seq<u8>>>,
) -> PeerModel {
    let fl = match flags {
        Some(f) => f,
        None => m.flags,
    };
    let bu = match banned_until {
        Some(b) => b,
        None => m.banned_until_ms,
    };
    let fl2 = if bu is Some {
        PeerFlags { bits: fl.bits | FLAG_BANNED }
    } else {
        PeerFlags { bits: fl.bits & !FLAG_BANNED }
    };
    PeerModel {
        public_key: m.public_key,
        node_id: m.node_id,
        addresses: match addresses {
            Some(a) => a,
            None => m.addresses,
        },
        flags: fl2,
        banned_until_ms: bu,
        is_offline: match is_offline {
            Some(b) => b,
            None => m.is_offline,
        },
        features: match features {
            Some(f) => f,
            None => m.features,
        },
        connection_stats: match stats {
            Some(s) => s,
            None => m.connection_stats,
        },
        supported_protocols: match protocols {
            Some(p) => p,
            None => m.supported_protocols,
        },
    }
}

/// The fresh record stored for an unknown peer by the online upsert.
pub open spec fn fresh_online_model(
    public_key: Seq<u8>,
    node_id: u128,
    addresses: Seq<Seq<u8>>,
    features: PeerFeatures,
) -> PeerModel {
    PeerModel {
        public_key: public_key,
        node_id: node_id,
        addresses: addresses,
        flags: PeerFlags { bits: 0 },
        banned_until_ms: None,
        is_offline: false,
        features: features,
        connection_stats: PeerConnectionStats {
            failed_attempts: 0,
            last_success_ms: None,
            last_failure_ms: None,
        },
        supported_protocols: Seq::<Seq<u8>>::empty(),
    }
}

/// Setting the banned bit sets it; clearing it clears it.
proof fn lemma_banned_bit(x: u8)
    ensures
        (x | FLAG_BANNED) & FLAG_BANNED == FLAG_BANNED,
        (x & !FLAG_BANNED) & FLAG_BANNED != FLAG_BANNED,
{
    assert((x | 1) & 1 == 1) by (bit_vector);
    assert((x & !1) & 1 != 1) by (bit_vector);
}

impl PeerManager {
    /// Bans the peer for `duration_ms` from `now_ms`. Idempotent: banning an
    /// already banned peer only moves its deadline.
    pub fn ban_for(&mut self, public_key: &PublicKey, duration_ms: u64, now_ms: u64) -> (r: Result<
        NodeId,
        PeerManagerError,
    >)
        requires
            old(self).wf(),
        ensures
            final(self).wf(),
            r is Ok <==> contains_pk(old(self)@, public_key@),
            match r {
                Ok(nid) => {
                    let i = idx_of_pk(old(self)@, public_key@);
                    &&& final(self)@ == old(self)@.update(
                        i,
                        banned_model(old(self)@[i], saturating_add_u64(now_ms, duration_ms)),
                    )
                    &&& nid.value == old(self)@[i].node_id
                },
                Err(e) => e == PeerManagerError::PeerNotFound && final(self)@ == old(self)@,
            },
    {
        match self.index_of_pk(public_key) {
            Some(i) => {
                let mut p = self.peers[i].clone();
                p.ban_for(duration_ms, now_ms);
                let nid = p.node_id;
                proof {
                    lemma_banned_bit(old(self)@[i as int].flags.bits);
                    assert(p@.wf());
                }
                match self.add_peer(p) {
                    Ok(_) => Ok(nid),
                    Err(e) => Err(e),
                }
            },
            None => Err(PeerManagerError::PeerNotFound),
        }
    }

    /// Lifts any ban on the peer. Idempotent.
    pub fn unban(&mut self, public_key: &PublicKey) -> (r: Result<NodeId, PeerManagerError>)
        requires
            old(self).wf(),
        ensures
            final(self).wf(),
            r is Ok <==> contains_pk(old(self)@, public_key@),
            match r {
                Ok(nid) => {
                    let i = idx_of_pk(old(self)@, public_key@);
                    &&& final(self)@ == old(self)@.update(i, unbanned_model(old(self)@[i]))
                    &&& nid.value == old(self)@[i].node_id
                },
                Err(e) => e == PeerManagerError::PeerNotFound && final(self)@ == old(self)@,
            },
    {
        match self.index_of_pk(public_key) {
            Some(i) => {
                let mut p = self.peers[i].clone();
                p.unban();
                let nid = p.node_id;
                proof {
                    lemma_banned_bit(old(self)@[i as int].flags.bits);
                    assert(p@.wf());
                }
                match self.add_peer(p) {
                    Ok(_) => Ok(nid),
                    Err(e) => Err(e),
                }
            },
            None => Err(PeerManagerError::PeerNotFound),
        }
    }

    /// Sets or clears the peer's offline latch.
    pub fn set_offline(&mut self, public_key: &PublicKey, is_offline: bool) -> (r: Result<
        NodeId,
        PeerManagerError,
    >)
        requires
            old(self).wf(),
        ensures
            final(self).wf(),
            r is Ok <==> contains_pk(old(self)@, public_key@),
            match r {
                Ok(nid) => {
                    let i = idx_of_pk(old(self)@, public_key@);
                    &&& final(self)@ == old(self)@.update(
                        i,
                        (PeerModel { is_offline: is_offline, ..old(self)@[i] }),
                    )
                    &&& nid.value == old(self)@[i].node_id
                },
                Err(e) => e == PeerManagerError::PeerNotFound && final(self)@ == old(self)@,
            },
    {
        match self.index_of_pk(public_key) {
            Some(i) => {
                let mut p = self.peers[i].clone();
                p.set_offline(is_offline);
                let nid = p.node_id;
                match self.add_peer(p) {
                    Ok(_) => Ok(nid),
                    Err(e) => Err(e),
                }
            },
            None => Err(PeerManagerError::PeerNotFound),
        }
    }

    /// Records a successful connection to the peer with this node id; the
    /// peer is no longer offline and its failure counter restarts.
    pub fn set_last_connect_success(&mut self, node_id: &NodeId, now_ms: u64) -> (r: Result<
        (),
        PeerManagerError,
    >)
        requires
            old(self).wf(),
        ensures
            final(self).wf(),
            r is Ok <==> contains_node_id(old(self)@, node_id.value),
            match r {
                Ok(()) => {
                    let k = idx_of_node_id(old(self)@, node_id.value);
                    final(self)@ == old(self)@.update(
                        k,
                        connect_success_model(old(self)@[k], now_ms),
                    )
                },
                Err(e) => e == PeerManagerError::PeerNotFound && final(self)@ == old(self)@,
            },
    {
        match self.index_of_node_id(node_id) {
            Some(i) => {
                let mut p = self.peers[i].clone();
                p.connection_stats.set_connection_success(now_ms);
                p.set_offline(false);
                proof {
                    let w = idx_of_pk(self@, self@[i as int].public_key);
                    lemma_pk_index_unique(self@, w, i as int);
                    assert(p@ =~= connect_success_model(old(self)@[i as int], now_ms));
                }
                match self.add_peer(p) {
                    Ok(_) => Ok(()),
                    Err(e) => Err(e),
                }
            },
            None => Err(PeerManagerError::PeerNotFound),
        }
    }

    /// Records a failed connection attempt to the peer with this node id.
    pub fn set_last_connect_failed(&mut self, node_id: &NodeId, now_ms: u64) -> (r: Result<
        (),
        PeerManagerError,
    >)
        requires
            old(self).wf(),
        ensures
            final(self).wf(),
            r is Ok <==> contains_node_id(old(self)@, node_id.value),
            match r {
                Ok(()) => {
                    let k = idx_of_node_id(old(self)@, node_id.value);
                    final(self)@ == old(self)@.update(
                        k,
                        connect_failed_model(old(self)@[k], now_ms),
                    )
                },
                Err(e) => e == PeerManagerError::PeerNotFound && final(self)@ == old(self)@,
            },
    {
        match self.index_of_node_id(node_id) {
            Some(i) => {
                let mut p = self.peers[i].clone();
                p.connection_stats.set_connection_failed(now_ms);
                proof {
                    let w = idx_of_pk(self@, self@[i as int].public_key);
                    lemma_pk_index_unique(self@, w, i as int);
                    assert(p@ =~= connect_failed_model(old(self)@[i as int], now_ms));
                }
                match self.add_peer(p) {
                    Ok(_) => Ok(()),
                    Err(e) => Err(e),
                }
            },
            None => Err(PeerManagerError::PeerNotFound),
        }
    }

    /// Adds a network address to the peer with this node id, unless the
    /// address is already present.
    pub fn add_net_address(&mut self, node_id: &NodeId, net_address: &NetAddress) -> (r: Result<
        (),
        PeerManagerError,
    >)
        requires
            old(self).wf(),
        ensures
            final(self).wf(),
            r is Ok <==> contains_node_id(old(self)@, node_id.value),
            match r {
                Ok(()) => {
                    let k = idx_of_node_id(old(self)@, node_id.value);
                    final(self)@ == old(self)@.update(
                        k,
                        if old(self)@[k].addresses.contains(net_address@) {
                            old(self)@[k]
                        } else {
                            PeerModel {
                                addresses: old(self)@[k].addresses.push(net_address@),
                                ..old(self)@[k]
                            }
                        },
                    )
                },
                Err(e) => e == PeerManagerError::PeerNotFound && final(self)@ == old(self)@,
            },
    {
        match self.index_of_node_id(node_id) {
            Some(i) => {
                let mut p = self.peers[i].clone();
                if !addresses_contain(&p.addresses, net_address) {
                    let ghost pre = p.addresses@;
                    p.addresses.push(net_address.clone());
                    proof {
                        assert(addresses_view(p.addresses@) =~= addresses_view(pre).push(
                            net_address@,
                        ));
                    }
                }
                proof {
                    let w = idx_of_pk(self@, self@[i as int].public_key);
                    lemma_pk_index_unique(self@, w, i as int);
                }
                match self.add_peer(p) {
                    Ok(_) => Ok(()),
                    Err(e) => Err(e),
                }
            },
            None => Err(PeerManagerError::PeerNotFound),
        }
    }

    /// Partially updates the peer with this public key: only supplied fields
    /// are replaced, and the banned flag is reconciled with the resulting
    /// ban deadline. A node id differing from the stored one is refused.
    pub fn update_peer(
        &mut self,
        public_key: &PublicKey,
        node_id: Option<NodeId>,
        net_addresses: Option<Vec<NetAddress>>,
        flags: Option<PeerFlags>,
        banned_until: Option<Option<u64>>,
        is_offline: Option<bool>,
        peer_features: Option<PeerFeatures>,
        connection_stats: Option<PeerConnectionStats>,
        supported_protocols: Option<Vec<Vec<u8>>>,
    ) -> (r: Result<(), PeerManagerError>)
        requires
            old(self).wf(),
        ensures
            final(self).wf(),
            ({
                let known = contains_pk(old(self)@, public_key@);
                let i = idx_of_pk(old(self)@, public_key@);
                let id_ok = match node_id {
                    Some(nid) => known && nid.value == old(self)@[i].node_id,
                    None => true,
                };
                match r {
                    Ok(()) => {
                        &&& known
                        &&& id_ok
                        &&& final(self)@ == old(self)@.update(
                            i,
                            updated_model(
                                old(self)@[i],
                                match net_addresses {
                                    Some(a) => Some(addresses_view(a@)),
                                    None => None,
                                },
                                flags,
                                banned_until,
                                is_offline,
                                peer_features,
                                connection_stats,
                                match supported_protocols {
                                    Some(p) => Some(protocols_view(p@)),
                                    None => None,
                                },
                            ),
                        )
                    },
                    Err(e) => {
                        &&& final(self)@ == old(self)@
                        &&& (e == PeerManagerError::PeerNotFound <==> !known)
                        &&& (known ==> e == PeerManagerError::InvalidNodeId && !id_ok)
                    },
                }
            }),
    {
        let i = match self.index_of_pk(public_key) {
            Some(i) => i,
            None => {
                return Err(PeerManagerError::PeerNotFound);
            },
        };
        match &node_id {
            Some(nid) => {
                if nid.value != self.peers[i].node_id.value {
                    return Err(PeerManagerError::InvalidNodeId);
                }
            },
            None => {},
        }
        let mut p = self.peers[i].clone();
        match net_addresses {
            Some(a) => {
                p.addresses = a;
            },
            None => {},
        }
        match flags {
            Some(f) => {
                p.flags = f;
            },
            None => {},
        }
        match banned_until {
            Some(b) => {
                p.banned_until_ms = b;
            },
            None => {},
        }
        p.flags = if p.banned_until_ms.is_some() {
            p.flags.with_banned()
        } else {
            p.flags.without_banned()
        };
        match is_offline {
            Some(b) => {
                p.is_offline = b;
            },
            None => {},
        }
        match peer_features {
            Some(f) => {
                p.features = f;
            },
            None => {},
        }
        match connection_stats {
            Some(s) => {
                p.connection_stats = s;
            },
            None => {},
        }
        match supported_protocols {
            Some(sp) => {
                p.supported_protocols = sp;
            },
            None => {},
        }
        proof {
            lemma_banned_bit(
                match flags {
                    Some(f) => f.bits,
                    None => old(self)@[i as int].flags.bits,
                },
            );
            assert(p@.wf());
        }
        match self.add_peer(p) {
            Ok(_) => Ok(()),
            Err(e) => Err(e),
        }
    }

    /// Inserts the peer if unknown; otherwise records a successful contact,
    /// clears the offline latch, and merges features and addresses. Returns
    /// the resulting record. A node id not derived from the public key is
    /// refused.
    pub fn add_or_update_online_peer(
        &mut self,
        pubkey: &PublicKey,
        node_id: NodeId,
        net_addresses: Vec<NetAddress>,
        peer_features: PeerFeatures,
        now_ms: u64,
    ) -> (r: Result<Peer, PeerManagerError>)
        requires
            old(self).wf(),
        ensures
            final(self).wf(),
            r is Ok <==> (node_id.value == node_id_of(pubkey@) && (contains_pk(old(self)@, pubkey@)
                || !contains_node_id(old(self)@, node_id.value))),
            match r {
                Ok(p) => {
                    if contains_pk(old(self)@, pubkey@) {
                        let i = idx_of_pk(old(self)@, pubkey@);
                        &&& final(self)@ == old(self)@.update(
                            i,
                            online_update_model(
                                old(self)@[i],
                                addresses_view(net_addresses@),
                                peer_features,
                                now_ms,
                            ),
                        )
                        &&& p@ == final(self)@[i]
                    } else {
                        let m = fresh_online_model(
                            pubkey@,
                            node_id.value,
                            addresses_view(net_addresses@),
                            peer_features,
                        );
                        &&& final(self)@ == old(self)@.push(m)
                        &&& p@ == m
                    }
                },
                Err(e) => e == PeerManagerError::InvalidNodeId && final(self)@ == old(self)@,
            },
    {
        let derived = derive_node_id(pubkey);
        if derived.value != node_id.value {
            return Err(PeerManagerError::InvalidNodeId);
        }
        match self.index_of_pk(pubkey) {
            Some(i) => {
                let mut p = self.peers[i].clone();
                let ghost m0 = self@[i as int];
                let ghost base0 = addresses_view(p.addresses@);
                let ghost extras = addresses_view(net_addresses@);
                let mut j: usize = 0;
                proof {
                    assert(extras.skip(0) =~= extras);
                }
                while j < net_addresses.len()
                    invariant
                        j <= net_addresses.len(),
                        extras == addresses_view(net_addresses@),
                        extras.len() == net_addresses@.len(),
                        p@ == (PeerModel { addresses: addresses_view(p.addresses@), ..m0 }),
                        merge_addresses(addresses_view(p.addresses@), extras.skip(j as int))
                            == merge_addresses(base0, extras),
                    decreases net_addresses.len() - j,
                {
                    let ghost cur = addresses_view(p.addresses@);
                    let ghost rest = extras.skip(j as int);
                    proof {
                        assert(rest.first() == extras[j as int]);
                        assert(rest.drop_first() =~= extras.skip(j as int + 1));
                    }
                    if !addresses_contain(&p.addresses, &net_addresses[j]) {
                        let ghost pre = p.addresses@;
                        p.addresses.push(net_addresses[j].clone());
                        proof {
                            assert(addresses_view(p.addresses@) =~= addresses_view(pre).push(
                                extras[j as int],
                            ));
                        }
                    }
                    j = j + 1;
                }
                proof {
                    assert(extras.skip(net_addresses@.len() as int)
                        =~= Seq::<Seq<u8>>::empty());
                }
                p.set_offline(false);
                p.features = p.features.union(&peer_features);
                p.connection_stats.set_connection_success(now_ms);
                proof {
                    assert(m0 == old(self)@[i as int]);
                    assert(p@ =~= online_update_model(
                        old(self)@[i as int],
                        extras,
                        peer_features,
                        now_ms,
                    ));
                }
                let out = p.clone();
                match self.add_peer(p) {
                    Ok(_) => Ok(out),
                    Err(e) => Err(e),
                }
            },
            None => {
                let ghost extras = addresses_view(net_addresses@);
                let p = Peer::new(
                    pubkey.clone(),
                    node_id,
                    net_addresses,
                    PeerFlags::none(),
                    peer_features,
                    Vec::new(),
                );
                proof {
                    assert(protocols_view(Seq::<Vec<u8>>::empty()) =~= Seq::<Seq<u8>>::empty());
                    assert(p@ =~= fresh_online_model(pubkey@, node_id.value, extras, peer_features));
                }
                let out = p.clone();
                match self.add_peer(p) {
                    Ok(_) => Ok(out),
                    Err(e) => Err(e),
                }
            },
        }
    }
}

/// The directory after one failed dial is recorded against this node id:
/// the matching record's failure statistics advance; an unknown id changes
/// nothing.
pub open spec fn record_failure(
    stored: Seq<PeerModel>,
    id_value: u128,
    now_ms: u64,
) -> Seq<PeerModel> {
    if contains_node_id(stored, id_value) {
        let k = idx_of_node_id(stored, id_value);
        stored.update(k, connect_failed_model(stored[k], now_ms))
    } else {
        stored
    }
}

/// The directory after the failed dials of a whole list are recorded, in
/// order.
pub open spec fn record_failures(
    stored: Seq<PeerModel>,
    failed: Seq<NodeId>,
    now_ms: u64,
) -> Seq<PeerModel>
    decreases failed.len(),
{
    if failed.len() == 0 {
        stored
    } else {
        record_failures(
            record_failure(stored, failed.first().value, now_ms),
            failed.drop_first(),
            now_ms,
        )
    }
}

/// Whether an iteration over the directory goes on.
#[derive(Clone, Copy, Debug, PartialEq, Eq, Structural)]
pub enum IterationControl {
    /// Visit the next record.
    Continue,
    /// Stop the iteration.
    Break,
}

impl PeerManager {
    /// Visits a copy of each stored record in order, until the closure asks
    /// to stop.
    pub fn for_each<F: Fn(Peer) -> IterationControl>(&self, f: F) -> (r: Result<
        (),
        PeerManagerError,
    >)
        requires
            self.wf(),
            forall|p: Peer| #[trigger] f.requires((p,)),
        ensures
            r is Ok,
    {
        let mut i: usize = 0;
        let mut stop = false;
        while i < self.peers.len() && !stop
            invariant
                self.wf(),
                i <= self.peers@.len(),
                forall|p: Peer| #[trigger] f.requires((p,)),
            decreases self.peers@.len() - i,
        {
            match f(self.peers[i].clone()) {
                IterationControl::Continue => {},
                IterationControl::Break => {
                    stop = true;
                },
            }
            i = i + 1;
        }
        Ok(())
    }

    /// Visits each stored record in order; where the closure yields a
    /// replacement, the record is replaced in place. Returns how many
    /// records were replaced. The closure must keep the public key and
    /// well-formedness of the record: re-insertion is keyed by the public
    /// key, so a replacement under another key would be an upsert of a
    /// different record, which callers do through `add_peer`.
    pub fn update_each<F: Fn(&Peer) -> Option<Peer>>(&mut self, f: F) -> (r: Result<
        usize,
        PeerManagerError,
    >)
        requires
            old(self).wf(),
            forall|p: &Peer| #[trigger] f.requires((p,)),
            forall|p: &Peer, q: Option<Peer>|
                #[trigger] f.ensures((p,), q) ==> match q {
                    Some(np) => np@.wf() && np@.public_key == p@.public_key,
                    None => true,
                },
        ensures
            final(self).wf(),
            final(self)@.len() == old(self)@.len(),
            match r {
                Ok(count) => exists|qs: Seq<Option<Peer>>|
                    {
                        &&& qs.len() == old(self)@.len()
                        &&& count == count_somes(qs)
                        &&& forall|j: int|
                            0 <= j < qs.len() ==> closure_outcome(
                                f,
                                old(self)@[j],
                                #[trigger] qs[j],
                            )
                        &&& forall|j: int|
                            0 <= j < qs.len() ==> final(self)@[j] == (match #[trigger] qs[j] {
                                Option::None => old(self)@[j],
                                Option::Some(np) => np@,
                            })
                    },
                Err(_) => false,
            },
    {
        let mut count: usize = 0;
        let mut i: usize = 0;
        let ghost mut qs = Seq::<Option<Peer>>::empty();
        while i < self.peers.len()
            invariant
                self.wf(),
                i <= self.peers@.len(),
                count <= i,
                qs.len() == i,
                count == count_somes(qs),
                self@.len() == old(self)@.len(),
                self@.len() == self.peers@.len(),
                forall|p: &Peer| #[trigger] f.requires((p,)),
                forall|p: &Peer, q: Option<Peer>|
                    #[trigger] f.ensures((p,), q) ==> match q {
                        Some(np) => np@.wf() && np@.public_key == p@.public_key,
                        None => true,
                    },
                forall|j: int| i <= j < self@.len() ==> #[trigger] self@[j] == old(self)@[j],
                forall|j: int|
                    0 <= j < i ==> closure_outcome(f, old(self)@[j], #[trigger] qs[j]),
                forall|j: int|
                    0 <= j < i ==> self@[j] == (match #[trigger] qs[j] {
                        Option::None => old(self)@[j],
                        Option::Some(np) => np@,
                    }),
            decreases self.peers@.len() - i,
        {
            let ghost pre = self@;
            let ghost prev_qs = qs;
            let ghost opg = self.peers@[i as int];
            let replacement = f(&self.peers[i]);
            let ghost q = replacement;
            proof {
                qs = qs.push(q);
                assert(qs.drop_last() =~= prev_qs);
                assert(self@[i as int] == old(self)@[i as int]);
                assert(opg@ == old(self)@[i as int]);
                assert(f.ensures((&opg,), q));
                assert(closure_outcome(f, old(self)@[i as int], q));
            }
            match replacement {
                Some(np) => {
                    let ghost npg = np;
                    proof {
                        assert(npg@.wf() && npg@.public_key == opg@.public_key);
                        lemma_inv_update(self@, i as int, npg@);
                    }
                    self.peers.set(i, np);
                    proof {
                        assert(self@ =~= pre.update(i as int, npg@));
                    }
                    count = count + 1;
                },
                None => {},
            }
            i = i + 1;
        }
        Ok(count)
    }
}

/// How many entries of a list of closure outcomes carry a replacement.
pub open spec fn count_somes(qs: Seq<Option<Peer>>) -> nat
    decreases qs.len(),
{
    if qs.len() == 0 {
        0
    } else {
        count_somes(qs.drop_last()) + (if qs.last() is Some {
            1nat
        } else {
            0nat
        })
    }
}

/// The closure, applied to a peer with this model, may yield this outcome.
pub open spec fn closure_outcome<F: Fn(&Peer) -> Option<Peer>>(
    f: F,
    m: PeerModel,
    q: Option<Peer>,
) -> bool {
    exists|op: Peer| op@ == m && #[trigger] f.ensures((&op,), q)
}

/// Every record of a well-formed directory carries the node id derived from
/// its public key.
pub proof fn lemma_directory_node_ids_derived(directory: PeerManager, i: int)
    requires
        directory.wf(),
        0 <= i < directory@.len(),
    ensures
        directory@[i].node_id == node_id_of(directory@[i].public_key),
{
    directory.lemma_wf_implies_inv();
}

/// A record banned when the query ran never appears in the result of a
/// query that excludes banned peers; in particular, `closest_peers` never
/// returns a banned peer.
pub proof fn lemma_banned_peer_not_selected(
    stored: Seq<PeerModel>,
    q: PeerQueryModel,
    now_ms: u64,
    result: Seq<PeerModel>,
    i: int,
)
    requires
        q.exclude_banned,
        query_result_ok(stored, q, now_ms, result),
        0 <= i < result.len(),
    ensures
        !result[i].is_banned_at(now_ms),
        query_matches(q, result[i], now_ms),
{
    let pred = query_pred(q, now_ms);
    let filtered = query_filtered(stored, q, now_ms);
    match q.sort_by {
        PeerQuerySortBy::Natural => {
            assert(result[i] == filtered[i]);
            stored.lemma_filter_pred(pred, i);
        },
        PeerQuerySortBy::DistanceFrom(_) => {
            assert(filtered.contains(result[i]));
            let w = filtered.lemma_contains_to_index(result[i]);
            stored.lemma_filter_pred(pred, w);
        },
    }
}

/// A record banned when the query ran never appears among the flood peers.
pub proof fn lemma_banned_peer_not_flooded(stored: Seq<PeerModel>, now_ms: u64, i: int)
    requires
        0 <= i < flood_view(stored, now_ms).len(),
    ensures
        !flood_view(stored, now_ms)[i].is_banned_at(now_ms),
{
    stored.lemma_filter_pred(not_banned_pred(now_ms), i);
}

/// Every record that passes the random-selection filter is not banned,
/// routes messages for the overlay, and is not among the excluded ids.
pub proof fn lemma_random_eligible(
    stored: Seq<PeerModel>,
    excluded_ids: Seq<u128>,
    now_ms: u64,
    m: PeerModel,
)
    requires
        query_filtered(stored, random_query(excluded_ids), now_ms).contains(m),
    ensures
        !m.is_banned_at(now_ms),
        m.has_features(PeerFeatures { bits: FEATURE_COMMUNICATION_NODE }),
        !excluded_ids.contains(m.node_id),
{
    let q = random_query(excluded_ids);
    let pred = query_pred(q, now_ms);
    let filtered = query_filtered(stored, q, now_ms);
    let w = filtered.lemma_contains_to_index(m);
    stored.lemma_filter_pred(pred, w);
}

} // verus!
