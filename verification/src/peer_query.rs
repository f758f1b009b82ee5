//! Filtered, ordered and limited queries over peer records: the query
//! builder, the eligibility predicate, and the filter and sort engines.

use vstd::prelude::*;
use vstd::seq_lib::{group_to_multiset_ensures, lemma_multiset_commutative};

use crate::node_id::{key_views, keys_contain, node_id_values, node_ids_contain, NodeId, PublicKey};
use crate::peer::{peers_view, spec_time_since, Peer, PeerFeatures, PeerModel};

verus! {

/// Connection-cooldown rule: a peer that failed too often is eligible again
/// only after a quiet period.
#[derive(Clone, Copy, Debug, PartialEq, Eq, Structural)]
pub struct CooldownRule {
    pub max_attempts: usize,
    pub period_ms: u64,
}

/// Requested ordering of query results.
#[derive(Clone, Copy, Debug, PartialEq, Eq, Structural)]
pub enum PeerQuerySortBy {
    /// Keep the directory's storage order.
    Natural,
    /// Ascending XOR distance from the given node id.
    DistanceFrom(NodeId),
}

/// A directory query: a filter, an optional ordering, and an optional limit.
/// Evaluation order is filter, then sort, then limit.
#[derive(Debug)]
pub struct PeerQuery {
    pub exclude_banned: bool,
    pub required_features: Option<PeerFeatures>,
    pub excluded_public_keys: Vec<PublicKey>,
    pub excluded_node_ids: Vec<NodeId>,
    pub cooldown: Option<CooldownRule>,
    pub sort_by: PeerQuerySortBy,
    pub limit: Option<usize>,
}

/// The mathematical content of a query.
#[verifier::ext_equal]
pub struct PeerQueryModel {
    pub exclude_banned: bool,
    pub required_features: Option<PeerFeatures>,
    pub excluded_public_keys: Seq<Seq<u8>>,
    pub excluded_node_ids: Seq<u128>,
    pub cooldown: Option<CooldownRule>,
    pub sort_by: PeerQuerySortBy,
    pub limit: Option<usize>,
}

impl View for PeerQuery {
    type V = PeerQueryModel;

    open spec fn view(&self) -> PeerQueryModel {
        PeerQueryModel {
            exclude_banned: self.exclude_banned,
            required_features: self.required_features,
            excluded_public_keys: key_views(self.excluded_public_keys@),
            excluded_node_ids: node_id_values(self.excluded_node_ids@),
            cooldown: self.cooldown,
            sort_by: self.sort_by,
            limit: self.limit,
        }
    }
}

impl PeerQuery {
    /// A query that matches every record, in storage order, unlimited.
    pub fn new() -> (r: PeerQuery)
        ensures
            r@ == (PeerQueryModel {
                exclude_banned: false,
                required_features: None,
                excluded_public_keys: Seq::<Seq<u8>>::empty(),
                excluded_node_ids: Seq::<u128>::empty(),
                cooldown: None,
                sort_by: PeerQuerySortBy::Natural,
                limit: None,
            }),
    {
        let r = PeerQuery {
            exclude_banned: false,
            required_features: None,
            excluded_public_keys: Vec::new(),
            excluded_node_ids: Vec::new(),
            cooldown: None,
            sort_by: PeerQuerySortBy::Natural,
            limit: None,
        };
        proof {
            assert(key_views(r.excluded_public_keys@) =~= Seq::<Seq<u8>>::empty());
            assert(node_id_values(r.excluded_node_ids@) =~= Seq::<u128>::empty());
        }
        r
    }

    /// Keep only records that are not banned at query time.
    pub fn exclude_banned(self) -> (r: PeerQuery)
        ensures
            r@ == (PeerQueryModel { exclude_banned: true, ..self@ }),
    {
        PeerQuery { exclude_banned: true, ..self }
    }

    /// Keep only records whose features contain all of `features`.
    pub fn with_required_features(self, features: PeerFeatures) -> (r: PeerQuery)
        ensures
            r@ == (PeerQueryModel { required_features: Some(features), ..self@ }),
    {
        PeerQuery { required_features: Some(features), ..self }
    }

    /// Drop records whose public key is listed.
    pub fn exclude_public_keys(self, keys: Vec<PublicKey>) -> (r: PeerQuery)
        ensures
            r@ == (PeerQueryModel { excluded_public_keys: key_views(keys@), ..self@ }),
    {
        PeerQuery { excluded_public_keys: keys, ..self }
    }

    /// Drop records whose node id is listed.
    pub fn exclude_node_ids(self, ids: Vec<NodeId>) -> (r: PeerQuery)
        ensures
            r@ == (PeerQueryModel { excluded_node_ids: node_id_values(ids@), ..self@ }),
    {
        PeerQuery { excluded_node_ids: ids, ..self }
    }

    /// Keep only records that are connect-eligible under the cooldown rule.
    pub fn require_connect_eligible(self, rule: CooldownRule) -> (r: PeerQuery)
        ensures
            r@ == (PeerQueryModel { cooldown: Some(rule), ..self@ }),
    {
        PeerQuery { cooldown: Some(rule), ..self }
    }

    /// Order the results.
    pub fn sort_by(self, sort_by: PeerQuerySortBy) -> (r: PeerQuery)
        ensures
            r@ == (PeerQueryModel { sort_by: sort_by, ..self@ }),
    {
        PeerQuery { sort_by, ..self }
    }

    /// Return at most `n` records.
    pub fn limit(self, n: usize) -> (r: PeerQuery)
        ensures
            r@ == (PeerQueryModel { limit: Some(n), ..self@ }),
    {
        PeerQuery { limit: Some(n), ..self }
    }
}

/// A peer is connect-eligible when it is not offline and either has not
/// failed too often or has been quiet since its last failure.
pub open spec fn connect_eligible_at(m: PeerModel, rule: CooldownRule, now_ms: u64) -> bool {
    &&& !m.is_offline
    &&& (m.connection_stats.failed_attempts <= rule.max_attempts || match spec_time_since(
        m.connection_stats.last_failure_ms,
        now_ms,
    ) {
        Some(since) => since >= rule.period_ms,
        None => true,
    })
}

/// The filter of a query: true when the record passes every requested test.
pub open spec fn query_matches(q: PeerQueryModel, m: PeerModel, now_ms: u64) -> bool {
    &&& (q.exclude_banned ==> !m.is_banned_at(now_ms))
    &&& (match q.required_features {
        Some(f) => m.has_features(f),
        None => true,
    })
    &&& !q.excluded_public_keys.contains(m.public_key)
    &&& !q.excluded_node_ids.contains(m.node_id)
    &&& (match q.cooldown {
        Some(rule) => connect_eligible_at(m, rule, now_ms),
        None => true,
    })
}

/// The XOR distance of a record's node id from a target id value.
pub open spec fn dist_to(m: PeerModel, target: u128) -> u128 {
    m.node_id ^ target
}

/// The records are in ascending XOR distance from `target`.
pub open spec fn sorted_by_distance_from(s: Seq<PeerModel>, target: u128) -> bool {
    forall|i: int, j: int| 0 <= i <= j < s.len() ==> dist_to(s[i], target) <= dist_to(s[j], target)
}

/// The filter of a query, as a function value.
pub open spec fn query_pred(q: PeerQueryModel, now_ms: u64) -> spec_fn(PeerModel) -> bool {
    |m: PeerModel| query_matches(q, m, now_ms)
}

/// The records passing a query's filter, in storage order.
pub open spec fn query_filtered(
    stored: Seq<PeerModel>,
    q: PeerQueryModel,
    now_ms: u64,
) -> Seq<PeerModel> {
    stored.filter(query_pred(q, now_ms))
}

/// How many records a query returns, given how many pass its filter.
pub open spec fn query_limit(q: PeerQueryModel, filtered_len: nat) -> nat {
    match q.limit {
        Some(n) => if n < filtered_len {
            n as nat
        } else {
            filtered_len
        },
        None => filtered_len,
    }
}

/// What the directory returns for a query: the filtered records, kept in
/// storage order or sorted by distance, cut to the limit. A sorted result
/// holds, with multiplicity, records that passed the filter, in ascending
/// distance, and every passing record left out lies at least as far as
/// every record returned.
pub open spec fn query_result_ok(
    stored: Seq<PeerModel>,
    q: PeerQueryModel,
    now_ms: u64,
    result: Seq<PeerModel>,
) -> bool {
    let filtered = query_filtered(stored, q, now_ms);
    let k = query_limit(q, filtered.len());
    &&& result.len() == k
    &&& match q.sort_by {
        PeerQuerySortBy::Natural => result == filtered.take(k as int),
        PeerQuerySortBy::DistanceFrom(t) => {
            &&& sorted_by_distance_from(result, t.value)
            &&& forall|m: PeerModel| #[trigger]
                result.to_multiset().count(m) <= filtered.to_multiset().count(m)
            &&& forall|i: int| 0 <= i < result.len() ==> filtered.contains(#[trigger] result[i])
            &&& forall|m: PeerModel|
                #[trigger] filtered.contains(m) && !result.contains(m) ==> (forall|i: int|
                    0 <= i < result.len() ==> dist_to(#[trigger] result[i], t.value) <= dist_to(
                        m,
                        t.value,
                    ))
        },
    }
}

/// A prefix of a sorted permutation of the filtered records is a valid
/// distance-ordered query result.
pub proof fn lemma_sorted_take_is_query_result(
    sorted: Seq<PeerModel>,
    filtered: Seq<PeerModel>,
    k: int,
    target: u128,
)
    requires
        sorted.to_multiset() == filtered.to_multiset(),
        sorted.len() == filtered.len(),
        sorted_by_distance_from(sorted, target),
        0 <= k <= sorted.len(),
    ensures
        sorted_by_distance_from(sorted.take(k), target),
        forall|m: PeerModel| #[trigger]
            sorted.take(k).to_multiset().count(m) <= filtered.to_multiset().count(m),
        forall|i: int| 0 <= i < k ==> filtered.contains(#[trigger] sorted.take(k)[i]),
        forall|m: PeerModel|
            #[trigger] filtered.contains(m) && !sorted.take(k).contains(m) ==> (forall|i: int|
                0 <= i < k ==> dist_to(#[trigger] sorted.take(k)[i], target) <= dist_to(m, target)),
{
    let r = sorted.take(k);
    lemma_multiset_same_elements(sorted, filtered);
    assert(sorted =~= r + sorted.skip(k));
    lemma_multiset_commutative(r, sorted.skip(k));
    assert forall|m: PeerModel| #[trigger]
        r.to_multiset().count(m) <= filtered.to_multiset().count(m) by {
        assert(sorted.to_multiset().count(m) == r.to_multiset().count(m)
            + sorted.skip(k).to_multiset().count(m));
    }
    assert forall|i: int| 0 <= i < k implies filtered.contains(#[trigger] r[i]) by {
        assert(sorted.contains(sorted[i]));
    }
    assert forall|m: PeerModel|
        #[trigger] filtered.contains(m) && !r.contains(m) implies (forall|i: int|
        0 <= i < k ==> dist_to(#[trigger] r[i], target) <= dist_to(m, target)) by {
        assert(sorted.contains(m));
        let j = choose|j: int| 0 <= j < sorted.len() && sorted[j] == m;
        if j < k {
            assert(r[j] == m);
            assert(r.contains(m));
        }
        assert forall|i: int| 0 <= i < k implies dist_to(#[trigger] r[i], target) <= dist_to(
            m,
            target,
        ) by {
            assert(dist_to(sorted[i], target) <= dist_to(sorted[j], target));
        }
    }
}

/// Filtering keeps public keys pairwise distinct.
pub proof fn lemma_filter_distinct_pks(s: Seq<PeerModel>, pred: spec_fn(PeerModel) -> bool)
    requires
        forall|i: int, j: int|
            0 <= i < j < s.len() ==> (#[trigger] s[i]).public_key != (#[trigger] s[j]).public_key,
    ensures
        forall|i: int, j: int|
            0 <= i < j < s.filter(pred).len() ==> (#[trigger] s.filter(pred)[i]).public_key != (
            #[trigger] s.filter(pred)[j]).public_key,
    decreases s.len(),
{
    reveal(Seq::filter);
    if s.len() > 0 {
        let prefix = s.drop_last();
        lemma_filter_distinct_pks(prefix, pred);
        let sub = prefix.filter(pred);
        assert forall|i: int| 0 <= i < sub.len() implies (#[trigger] sub[i]).public_key
            != s.last().public_key by {
            assert(sub.contains(sub[i]));
            prefix.lemma_filter_contains_rev(pred, sub[i]);
            let w = choose|w: int| 0 <= w < prefix.len() && prefix[w] == sub[i];
            assert(s[w] == prefix[w]);
            assert(s[w].public_key != s[s.len() - 1].public_key);
        }
    }
}

/// Filtering keeps node ids pairwise distinct.
pub proof fn lemma_filter_distinct_node_ids(s: Seq<PeerModel>, pred: spec_fn(PeerModel) -> bool)
    requires
        forall|i: int, j: int|
            0 <= i < j < s.len() ==> (#[trigger] s[i]).node_id != (#[trigger] s[j]).node_id,
    ensures
        forall|i: int, j: int|
            0 <= i < j < s.filter(pred).len() ==> (#[trigger] s.filter(pred)[i]).node_id != (
            #[trigger] s.filter(pred)[j]).node_id,
    decreases s.len(),
{
    reveal(Seq::filter);
    if s.len() > 0 {
        let prefix = s.drop_last();
        lemma_filter_distinct_node_ids(prefix, pred);
        let sub = prefix.filter(pred);
        assert forall|i: int| 0 <= i < sub.len() implies (#[trigger] sub[i]).node_id
            != s.last().node_id by {
            assert(sub.contains(sub[i]));
            prefix.lemma_filter_contains_rev(pred, sub[i]);
            let w = choose|w: int| 0 <= w < prefix.len() && prefix[w] == sub[i];
            assert(s[w] == prefix[w]);
            assert(s[w].node_id != s[s.len() - 1].node_id);
        }
    }
}

/// Filtering a sequence extended by one element keeps the prefix's filtrate
/// and appends the element exactly when it passes.
pub proof fn lemma_filter_push<A>(s: Seq<A>, x: A, pred: spec_fn(A) -> bool)
    ensures
        s.push(x).filter(pred) == if pred(x) {
            s.filter(pred).push(x)
        } else {
            s.filter(pred)
        },
{
    reveal(Seq::filter);
    assert(s.push(x).drop_last() =~= s);
    assert(s.push(x).last() == x);
}

/// Sequences with the same multiset hold the same elements.
pub proof fn lemma_multiset_same_elements<A>(s1: Seq<A>, s2: Seq<A>)
    requires
        s1.to_multiset() == s2.to_multiset(),
    ensures
        forall|a: A| s1.contains(a) <==> s2.contains(a),
{
    broadcast use group_to_multiset_ensures;

    assert forall|a: A| s1.contains(a) <==> s2.contains(a) by {
        if s1.contains(a) {
            assert(s1.to_multiset().count(a) > 0);
        }
        if s2.contains(a) {
            assert(s2.to_multiset().count(a) > 0);
        }
    }
}

/// True when the record passes the query's filter at `now_ms`.
pub fn peer_matches(query: &PeerQuery, peer: &Peer, now_ms: u64) -> (r: bool)
    ensures
        r == query_matches(query@, peer@, now_ms),
{
    if query.exclude_banned && peer.is_banned(now_ms) {
        return false;
    }
    match &query.required_features {
        Some(f) => {
            if !peer.features.contains(f) {
                return false;
            }
        },
        None => {},
    }
    if keys_contain(&query.excluded_public_keys, &peer.public_key) {
        return false;
    }
    if node_ids_contain(&query.excluded_node_ids, &peer.node_id) {
        return false;
    }
    match &query.cooldown {
        Some(rule) => {
            if peer.is_offline {
                return false;
            }
            if peer.connection_stats.failed_attempts > rule.max_attempts {
                match peer.connection_stats.time_since_last_failure(now_ms) {
                    Some(since) => {
                        if since < rule.period_ms {
                            return false;
                        }
                    },
                    None => {},
                }
            }
        },
        None => {},
    }
    true
}

/// Copies the records of `peers` that pass the query's filter, in order.
pub fn filter_peers(peers: &Vec<Peer>, query: &PeerQuery, now_ms: u64) -> (r: Vec<Peer>)
    ensures
        peers_view(r@) == query_filtered(peers_view(peers@), query@, now_ms),
{
    let ghost all = peers_view(peers@);
    let ghost pred = query_pred(query@, now_ms);
    let mut out: Vec<Peer> = Vec::new();
    proof {
        reveal(Seq::filter);
        assert(all.take(0) =~= Seq::<PeerModel>::empty());
        assert(peers_view(out@) =~= Seq::<PeerModel>::empty());
    }
    let mut i: usize = 0;
    while i < peers.len()
        invariant
            i <= peers.len(),
            all == peers_view(peers@),
            pred == query_pred(query@, now_ms),
            peers_view(out@) == all.take(i as int).filter(pred),
        decreases peers.len() - i,
    {
        let ghost prev = out@;
        if peer_matches(query, &peers[i], now_ms) {
            let p = peers[i].clone();
            let ghost m = p@;
            out.push(p);
            proof {
                assert(m == all[i as int]);
                assert(peers_view(out@) =~= peers_view(prev).push(m));
            }
        }
        proof {
            assert(all.take(i as int + 1) =~= all.take(i as int).push(all[i as int]));
            lemma_filter_push(all.take(i as int), all[i as int], pred);
        }
        i = i + 1;
    }
    proof {
        assert(all.take(peers.len() as int) =~= all);
    }
    out
}

/// Orders the given records by ascending XOR distance from `target`. The
/// result is a permutation of the input.
pub fn sort_peers_by_distance(peers: Vec<Peer>, target: &NodeId) -> (r: Vec<Peer>)
    ensures
        peers_view(r@).to_multiset() == peers_view(peers@).to_multiset(),
        sorted_by_distance_from(peers_view(r@), target.value),
        r@.len() == peers@.len(),
{
    broadcast use group_to_multiset_ensures;

    let ghost orig = peers_view(peers@);
    let mut rest = peers;
    let mut out: Vec<Peer> = Vec::new();
    proof {
        assert(peers_view(out@) =~= Seq::<PeerModel>::empty());
        assert(peers_view(out@).to_multiset().add(peers_view(rest@).to_multiset())
            =~= orig.to_multiset());
    }
    while rest.len() > 0
        invariant
            orig == peers_view(peers@),
            peers_view(out@).to_multiset().add(peers_view(rest@).to_multiset())
                == orig.to_multiset(),
            out@.len() + rest@.len() == peers@.len(),
            sorted_by_distance_from(peers_view(out@), target.value),
            forall|a: int, b: int|
                0 <= a < out@.len() && 0 <= b < rest@.len() ==> dist_to(
                    peers_view(out@)[a],
                    target.value,
                ) <= dist_to(peers_view(rest@)[b], target.value),
        decreases rest@.len(),
    {
        let mut min_idx: usize = 0;
        let mut min_dist: u128 = rest[0].node_id.value ^ target.value;
        let mut j: usize = 1;
        while j < rest.len()
            invariant
                rest@.len() > 0,
                min_idx < j,
                j <= rest@.len(),
                min_idx < rest@.len(),
                min_dist == dist_to(peers_view(rest@)[min_idx as int], target.value),
                forall|k: int|
                    0 <= k < j ==> min_dist <= dist_to(peers_view(rest@)[k], target.value),
            decreases rest@.len() - j,
        {
            let d: u128 = rest[j].node_id.value ^ target.value;
            if d < min_dist {
                min_idx = j;
                min_dist = d;
            }
            j = j + 1;
        }
        let ghost rest_prev = rest@;
        let ghost out_prev = out@;
        let p = rest.remove(min_idx);
        let ghost m = p@;
        out.push(p);
        proof {
            broadcast use group_to_multiset_ensures;

            assert(m == peers_view(rest_prev)[min_idx as int]);
            assert(peers_view(rest@) =~= peers_view(rest_prev).remove(min_idx as int));
            assert(peers_view(out@) =~= peers_view(out_prev).push(m));
            assert(peers_view(rest_prev).contains(m));
            assert(peers_view(rest_prev).to_multiset().count(m) > 0);
            assert(peers_view(out_prev).push(m).to_multiset() =~= peers_view(
                out_prev,
            ).to_multiset().insert(m));
            assert(peers_view(out@).to_multiset() == peers_view(out_prev).to_multiset().insert(m));
            assert(peers_view(rest_prev).remove(min_idx as int).to_multiset() =~= peers_view(
                rest_prev,
            ).to_multiset().remove(m));
            assert(peers_view(rest@).to_multiset() == peers_view(rest_prev).to_multiset().remove(
                m,
            ));
            assert(peers_view(out@).to_multiset().add(peers_view(rest@).to_multiset())
                =~= peers_view(out_prev).to_multiset().add(peers_view(rest_prev).to_multiset()));
            assert forall|a: int, b: int|
                0 <= a < out@.len() && 0 <= b < rest@.len() implies dist_to(
                peers_view(out@)[a],
                target.value,
            ) <= dist_to(peers_view(rest@)[b], target.value) by {
                let b0 = if b < min_idx {
                    b
                } else {
                    b + 1
                };
                assert(peers_view(rest@)[b] == peers_view(rest_prev)[b0]);
                if a < out_prev.len() {
                    assert(dist_to(peers_view(out_prev)[a], target.value) <= dist_to(
                        peers_view(rest_prev)[b0],
                        target.value,
                    ));
                } else {
                    assert(peers_view(out@)[a] == m);
                }
            }
        }
    }
    proof {
        assert(peers_view(rest@) =~= Seq::<PeerModel>::empty());
        assert(peers_view(out@).to_multiset().add(Seq::<PeerModel>::empty().to_multiset())
            =~= peers_view(out@).to_multiset());
    }
    out
}

} // verus!
