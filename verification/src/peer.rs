//! Peer records: features, flags, addresses, connection statistics, and the
//! `Peer` type stored by the peer directory.

use vstd::prelude::*;

use crate::node_id::{node_id_of, NodeId, PublicKey};

verus! {

/// Bit of `PeerFeatures` marking a peer that routes messages for the overlay.
pub const FEATURE_COMMUNICATION_NODE: u8 = 1;

/// Bit of `PeerFeatures` marking a client-role peer.
pub const FEATURE_COMMUNICATION_CLIENT: u8 = 2;

/// Bit of `PeerFlags` marking a banned peer.
pub const FLAG_BANNED: u8 = 1;

/// The set of roles a peer supports, as a bit set.
#[derive(Clone, Copy, Debug, PartialEq, Eq, Structural)]
pub struct PeerFeatures {
    pub bits: u8,
}

impl PeerFeatures {
    /// True when every bit of `other` is set in `self`.
    pub open spec fn spec_contains(self, other: PeerFeatures) -> bool {
        self.bits & other.bits == other.bits
    }

    pub fn none() -> (r: PeerFeatures)
        ensures
            r.bits == 0,
    {
        PeerFeatures { bits: 0 }
    }

    pub fn communication_node() -> (r: PeerFeatures)
        ensures
            r.bits == FEATURE_COMMUNICATION_NODE,
    {
        PeerFeatures { bits: FEATURE_COMMUNICATION_NODE }
    }

    pub fn communication_client() -> (r: PeerFeatures)
        ensures
            r.bits == FEATURE_COMMUNICATION_CLIENT,
    {
        PeerFeatures { bits: FEATURE_COMMUNICATION_CLIENT }
    }

    pub fn contains(&self, other: &PeerFeatures) -> (r: bool)
        ensures
            r == self.spec_contains(*other),
    {
        self.bits & other.bits == other.bits
    }

    /// The union of two feature sets.
    pub fn union(&self, other: &PeerFeatures) -> (r: PeerFeatures)
        ensures
            r.bits == self.bits | other.bits,
    {
        PeerFeatures { bits: self.bits | other.bits }
    }
}

/// Persistent peer flags, as a bit set.
#[derive(Clone, Copy, Debug, PartialEq, Eq, Structural)]
pub struct PeerFlags {
    pub bits: u8,
}

impl PeerFlags {
    pub open spec fn spec_is_banned(self) -> bool {
        self.bits & FLAG_BANNED == FLAG_BANNED
    }

    pub fn none() -> (r: PeerFlags)
        ensures
            r.bits == 0,
            !r.spec_is_banned(),
    {
        let flags = PeerFlags { bits: 0 };
        proof {
            assert(0u8 & FLAG_BANNED != FLAG_BANNED) by (bit_vector);
        }
        flags
    }

    pub fn is_banned(&self) -> (r: bool)
        ensures
            r == self.spec_is_banned(),
    {
        self.bits & FLAG_BANNED == FLAG_BANNED
    }

    pub fn with_banned(&self) -> (r: PeerFlags)
        ensures
            r.spec_is_banned(),
            r.bits == self.bits | FLAG_BANNED,
    {
        let bits = self.bits | FLAG_BANNED;
        proof {
            let b = self.bits;
            assert((b | FLAG_BANNED) & FLAG_BANNED == FLAG_BANNED) by (bit_vector);
        }
        PeerFlags { bits }
    }

    pub fn without_banned(&self) -> (r: PeerFlags)
        ensures
            !r.spec_is_banned(),
            r.bits == self.bits & !FLAG_BANNED,
    {
        let bits = self.bits & !FLAG_BANNED;
        proof {
            let b = self.bits;
            assert((b & !FLAG_BANNED) & FLAG_BANNED != FLAG_BANNED) by (bit_vector);
        }
        PeerFlags { bits }
    }
}

/// A network address of a peer, kept as opaque bytes. Parsing and transport
/// concerns live outside this library; only byte-wise identity matters here.
#[derive(Debug)]
pub struct NetAddress {
    pub bytes: Vec<u8>,
}

impl View for NetAddress {
    type V = Seq<u8>;

    open spec fn view(&self) -> Seq<u8> {
        self.bytes@
    }
}

impl NetAddress {
    pub fn new(bytes: Vec<u8>) -> (r: NetAddress)
        ensures
            r@ == bytes@,
    {
        NetAddress { bytes }
    }
}

impl Clone for NetAddress {
    fn clone(&self) -> (r: Self)
        ensures
            r@ == self@,
    {
        let bytes = self.bytes.clone();
        proof {
            assert(bytes@ =~= self.bytes@);
        }
        NetAddress { bytes }
    }
}

/// Statistics about connection attempts to a peer.
#[derive(Clone, Copy, Debug, PartialEq, Eq, Structural)]
pub struct PeerConnectionStats {
    pub failed_attempts: usize,
    pub last_success_ms: Option<u64>,
    pub last_failure_ms: Option<u64>,
}

impl PeerConnectionStats {
    pub fn new() -> (r: PeerConnectionStats)
        ensures
            r.failed_attempts == 0,
            r.last_success_ms is None,
            r.last_failure_ms is None,
    {
        PeerConnectionStats { failed_attempts: 0, last_success_ms: None, last_failure_ms: None }
    }

    /// Records a successful connection: the failure counter restarts.
    pub fn set_connection_success(&mut self, now_ms: u64)
        ensures
            final(self).failed_attempts == 0,
            final(self).last_success_ms == Some(now_ms),
            final(self).last_failure_ms == old(self).last_failure_ms,
    {
        self.failed_attempts = 0;
        self.last_success_ms = Some(now_ms);
    }

    /// Records a failed connection attempt.
    pub fn set_connection_failed(&mut self, now_ms: u64)
        ensures
            final(self).failed_attempts == saturating_add_usize(old(self).failed_attempts, 1),
            final(self).last_failure_ms == Some(now_ms),
            final(self).last_success_ms == old(self).last_success_ms,
    {
        if self.failed_attempts < usize::MAX {
            self.failed_attempts = self.failed_attempts + 1;
        }
        self.last_failure_ms = Some(now_ms);
    }

    /// Milliseconds elapsed since the last failed attempt, if any failed.
    /// A failure recorded after `now_ms` counts as zero time ago.
    pub fn time_since_last_failure(&self, now_ms: u64) -> (r: Option<u64>)
        ensures
            r == spec_time_since(self.last_failure_ms, now_ms),
    {
        match self.last_failure_ms {
            Some(at) => if now_ms >= at {
                Some(now_ms - at)
            } else {
                Some(0)
            },
            None => None,
        }
    }
}

/// `Some(elapsed)` when a moment was recorded, where `elapsed` saturates at zero.
pub open spec fn spec_time_since(at_ms: Option<u64>, now_ms: u64) -> Option<u64> {
    match at_ms {
        Some(at) => if now_ms >= at {
            Some((now_ms - at) as u64)
        } else {
            Some(0)
        },
        None => None,
    }
}

pub open spec fn saturating_add_usize(a: usize, b: usize) -> usize {
    if a + b > usize::MAX {
        usize::MAX
    } else {
        (a + b) as usize
    }
}

pub open spec fn saturating_add_u64(a: u64, b: u64) -> u64 {
    if a + b > u64::MAX {
        u64::MAX
    } else {
        (a + b) as u64
    }
}

/// `a + b`, saturating at the largest representable value.
pub fn sat_add_u64(a: u64, b: u64) -> (r: u64)
    ensures
        r == saturating_add_u64(a, b),
{
    if a > u64::MAX - b {
        u64::MAX
    } else {
        a + b
    }
}

/// The mathematical content of a peer record.
#[verifier::ext_equal]
pub struct PeerModel {
    pub public_key: Seq<u8>,
    pub node_id: u128,
    pub addresses: Seq<Seq<u8>>,
    pub flags: PeerFlags,
    pub banned_until_ms: Option<u64>,
    pub is_offline: bool,
    pub features: PeerFeatures,
    pub connection_stats: PeerConnectionStats,
    pub supported_protocols: Seq<Seq<u8>>,
}

impl PeerModel {
    /// A record is well formed when its node id is the one derived from its
    /// public key, and the banned flag agrees with the ban deadline.
    pub open spec fn wf(self) -> bool {
        &&& self.node_id == node_id_of(self.public_key)
        &&& self.flags.spec_is_banned() <==> self.banned_until_ms is Some
    }

    /// A peer is banned at `now_ms` when its ban deadline lies in the future.
    pub open spec fn is_banned_at(self, now_ms: u64) -> bool {
        match self.banned_until_ms {
            Some(until) => until > now_ms,
            None => false,
        }
    }

    pub open spec fn has_features(self, required: PeerFeatures) -> bool {
        self.features.spec_contains(required)
    }
}

/// The record after a ban until `until_ms`.
pub open spec fn banned_model(m: PeerModel, until_ms: u64) -> PeerModel {
    PeerModel {
        flags: PeerFlags { bits: m.flags.bits | FLAG_BANNED },
        banned_until_ms: Some(until_ms),
        ..m
    }
}

/// The record after a ban is lifted.
pub open spec fn unbanned_model(m: PeerModel) -> PeerModel {
    PeerModel { flags: PeerFlags { bits: m.flags.bits & !FLAG_BANNED }, banned_until_ms: None, ..m }
}

/// The record after a successful connection at `now_ms`: online, with the
/// failure counter restarted.
pub open spec fn connect_success_model(m: PeerModel, now_ms: u64) -> PeerModel {
    PeerModel {
        is_offline: false,
        connection_stats: PeerConnectionStats {
            failed_attempts: 0,
            last_success_ms: Some(now_ms),
            last_failure_ms: m.connection_stats.last_failure_ms,
        },
        ..m
    }
}

/// The record after a failed connection attempt at `now_ms`.
pub open spec fn connect_failed_model(m: PeerModel, now_ms: u64) -> PeerModel {
    PeerModel {
        connection_stats: PeerConnectionStats {
            failed_attempts: saturating_add_usize(m.connection_stats.failed_attempts, 1),
            last_success_ms: m.connection_stats.last_success_ms,
            last_failure_ms: Some(now_ms),
        },
        ..m
    }
}

/// `base` extended by the addresses of `extra` that it does not yet hold,
/// in order of first appearance.
pub open spec fn merge_addresses(base: Seq<Seq<u8>>, extra: Seq<Seq<u8>>) -> Seq<Seq<u8>>
    decreases extra.len(),
{
    if extra.len() == 0 {
        base
    } else {
        let base2 = if base.contains(extra.first()) {
            base
        } else {
            base.push(extra.first())
        };
        merge_addresses(base2, extra.drop_first())
    }
}

/// The record after an online upsert: success recorded, offline cleared,
/// features and addresses merged.
pub open spec fn online_update_model(
    m: PeerModel,
    addresses: Seq<Seq<u8>>,
    features: PeerFeatures,
    now_ms: u64,
) -> PeerModel {
    PeerModel {
        addresses: merge_addresses(m.addresses, addresses),
        is_offline: false,
        features: PeerFeatures { bits: m.features.bits | features.bits },
        connection_stats: PeerConnectionStats {
            failed_attempts: 0,
            last_success_ms: Some(now_ms),
            last_failure_ms: m.connection_stats.last_failure_ms,
        },
        ..m
    }
}

/// Merging adds every extra address.
pub proof fn lemma_merge_addresses_adds_all(base: Seq<Seq<u8>>, extra: Seq<Seq<u8>>, x: Seq<u8>)
    requires
        base.contains(x) || extra.contains(x),
    ensures
        merge_addresses(base, extra).contains(x),
    decreases extra.len(),
{
    if extra.len() == 0 {
    } else {
        let base2 = if base.contains(extra.first()) {
            base
        } else {
            base.push(extra.first())
        };
        if base.contains(x) {
            if !base.contains(extra.first()) {
                let w = base.lemma_contains_to_index(x);
                assert(base2[w] == x);
            }
            lemma_merge_addresses_adds_all(base2, extra.drop_first(), x);
        } else {
            if extra.first() == x {
                if base.contains(extra.first()) {
                } else {
                    assert(base2.last() == x);
                }
                lemma_merge_addresses_adds_all(base2, extra.drop_first(), x);
            } else {
                let w = extra.lemma_contains_to_index(x);
                assert(extra.drop_first()[w - 1] == x);
                lemma_merge_addresses_adds_all(base2, extra.drop_first(), x);
            }
        }
    }
}

/// Merging addresses that are all present already changes nothing.
pub proof fn lemma_merge_addresses_noop(base: Seq<Seq<u8>>, extra: Seq<Seq<u8>>)
    requires
        forall|i: int| 0 <= i < extra.len() ==> base.contains(#[trigger] extra[i]),
    ensures
        merge_addresses(base, extra) == base,
    decreases extra.len(),
{
    if extra.len() > 0 {
        assert(base.contains(extra[0]));
        assert forall|i: int| 0 <= i < extra.drop_first().len() implies base.contains(
            #[trigger] extra.drop_first()[i],
        ) by {
            assert(extra.drop_first()[i] == extra[i + 1]);
        }
        lemma_merge_addresses_noop(base, extra.drop_first());
    }
}

/// Repeating an online upsert with identical arguments and the same clock
/// yields the same record: the upsert is idempotent in outcome.
pub proof fn lemma_online_update_idempotent(
    m: PeerModel,
    addresses: Seq<Seq<u8>>,
    features: PeerFeatures,
    now_ms: u64,
)
    ensures
        online_update_model(online_update_model(m, addresses, features, now_ms), addresses,
        features, now_ms) == online_update_model(m, addresses, features, now_ms),
{
    let once = online_update_model(m, addresses, features, now_ms);
    assert forall|i: int| 0 <= i < addresses.len() implies once.addresses.contains(
        #[trigger] addresses[i],
    ) by {
        lemma_merge_addresses_adds_all(m.addresses, addresses, addresses[i]);
    }
    lemma_merge_addresses_noop(once.addresses, addresses);
    let b = m.features.bits;
    let f = features.bits;
    assert((b | f) | f == (b | f)) by (bit_vector);
    assert(online_update_model(once, addresses, features, now_ms) =~= once);
}

/// Banning a peer that was not banned, then lifting the ban, restores the
/// record exactly: the peer is selectable again as it was before.
pub proof fn lemma_ban_unban_round_trip(m: PeerModel, until_ms: u64)
    requires
        !m.flags.spec_is_banned(),
        m.banned_until_ms is None,
    ensures
        unbanned_model(banned_model(m, until_ms)) == m,
{
    let b = m.flags.bits;
    assert(b & 1 != 1 ==> (b | 1) & !1 == b) by (bit_vector);
    assert(unbanned_model(banned_model(m, until_ms)) =~= m);
}

/// A freshly banned record counts as banned at every moment before its
/// deadline; with the exclusion lemmas of the query layer, no selection
/// returns it until the ban expires.
pub proof fn lemma_banned_model_banned_while(m: PeerModel, until_ms: u64, now_ms: u64)
    requires
        now_ms < until_ms,
    ensures
        banned_model(m, until_ms).is_banned_at(now_ms),
{
}

/// An online upsert brings the peer online and restarts its failure
/// counter, whatever state it was in before.
pub proof fn lemma_online_update_clears_offline(
    m: PeerModel,
    addresses: Seq<Seq<u8>>,
    features: PeerFeatures,
    now_ms: u64,
)
    ensures
        !online_update_model(m, addresses, features, now_ms).is_offline,
        online_update_model(m, addresses, features, now_ms).connection_stats.failed_attempts == 0,
{
}

/// The two records agree on everything but the offline latch and the
/// connection statistics.
pub open spec fn same_identity(a: PeerModel, b: PeerModel) -> bool {
    &&& a.public_key == b.public_key
    &&& a.node_id == b.node_id
    &&& a.addresses == b.addresses
    &&& a.flags == b.flags
    &&& a.banned_until_ms == b.banned_until_ms
    &&& a.features == b.features
    &&& a.supported_protocols == b.supported_protocols
}

/// True when `addresses` holds an address with the bytes of `addr`.
pub fn addresses_contain(addresses: &Vec<NetAddress>, addr: &NetAddress) -> (r: bool)
    ensures
        r == addresses_view(addresses@).contains(addr@),
{
    let mut i: usize = 0;
    while i < addresses.len()
        invariant
            i <= addresses.len(),
            forall|j: int| 0 <= j < i ==> addresses_view(addresses@)[j] != addr@,
        decreases addresses.len() - i,
    {
        if crate::node_id::bytes_equal(&addresses[i].bytes, &addr.bytes) {
            proof {
                assert(addresses_view(addresses@)[i as int] == addr@);
            }
            return true;
        }
        i = i + 1;
    }
    false
}

/// A known remote participant of the overlay.
#[derive(Debug)]
pub struct Peer {
    pub public_key: PublicKey,
    pub node_id: NodeId,
    pub addresses: Vec<NetAddress>,
    pub flags: PeerFlags,
    pub banned_until_ms: Option<u64>,
    pub is_offline: bool,
    pub features: PeerFeatures,
    pub connection_stats: PeerConnectionStats,
    pub supported_protocols: Vec<Vec<u8>>,
}

/// The models of a sequence of peers.
pub open spec fn peers_view(peers: Seq<Peer>) -> Seq<PeerModel> {
    peers.map_values(|p: Peer| p@)
}

/// The views of a sequence of addresses.
pub open spec fn addresses_view(addresses: Seq<NetAddress>) -> Seq<Seq<u8>> {
    addresses.map_values(|a: NetAddress| a@)
}

/// The views of a sequence of protocol identifiers.
pub open spec fn protocols_view(protocols: Seq<Vec<u8>>) -> Seq<Seq<u8>> {
    protocols.map_values(|p: Vec<u8>| p@)
}

impl View for Peer {
    type V = PeerModel;

    open spec fn view(&self) -> PeerModel {
        PeerModel {
            public_key: self.public_key@,
            node_id: self.node_id.value,
            addresses: addresses_view(self.addresses@),
            flags: self.flags,
            banned_until_ms: self.banned_until_ms,
            is_offline: self.is_offline,
            features: self.features,
            connection_stats: self.connection_stats,
            supported_protocols: protocols_view(self.supported_protocols@),
        }
    }
}

impl Peer {
    /// A fresh record: not banned, not offline, empty statistics.
    pub fn new(
        public_key: PublicKey,
        node_id: NodeId,
        addresses: Vec<NetAddress>,
        flags: PeerFlags,
        features: PeerFeatures,
        supported_protocols: Vec<Vec<u8>>,
    ) -> (r: Peer)
        ensures
            r@ == (PeerModel {
                public_key: public_key@,
                node_id: node_id.value,
                addresses: addresses_view(addresses@),
                flags: flags,
                banned_until_ms: None,
                is_offline: false,
                features: features,
                connection_stats: PeerConnectionStats {
                    failed_attempts: 0,
                    last_success_ms: None,
                    last_failure_ms: None,
                },
                supported_protocols: protocols_view(supported_protocols@),
            }),
    {
        Peer {
            public_key,
            node_id,
            addresses,
            flags,
            banned_until_ms: None,
            is_offline: false,
            features,
            connection_stats: PeerConnectionStats::new(),
            supported_protocols,
        }
    }

    pub fn is_banned(&self, now_ms: u64) -> (r: bool)
        ensures
            r == self@.is_banned_at(now_ms),
    {
        match self.banned_until_ms {
            Some(until) => until > now_ms,
            None => false,
        }
    }

    /// Bans this peer until `now_ms + duration_ms` (saturating).
    pub fn ban_for(&mut self, duration_ms: u64, now_ms: u64)
        ensures
            final(self)@ == banned_model(old(self)@, saturating_add_u64(now_ms, duration_ms)),
            final(self)@.flags.spec_is_banned(),
    {
        self.flags = self.flags.with_banned();
        self.banned_until_ms = Some(sat_add_u64(now_ms, duration_ms));
    }

    /// Clears any ban.
    pub fn unban(&mut self)
        ensures
            final(self)@ == unbanned_model(old(self)@),
            !final(self)@.flags.spec_is_banned(),
            forall|now_ms: u64| !final(self)@.is_banned_at(now_ms),
    {
        self.flags = self.flags.without_banned();
        self.banned_until_ms = None;
    }

    pub fn set_offline(&mut self, is_offline: bool)
        ensures
            final(self)@ == (PeerModel { is_offline: is_offline, ..old(self)@ }),
    {
        self.is_offline = is_offline;
    }
}

impl Clone for Peer {
    fn clone(&self) -> (r: Self)
        ensures
            r@ == self@,
    {
        let addresses = self.addresses.clone();
        let supported_protocols = self.supported_protocols.clone();
        proof {
            assert forall|i: int| 0 <= i < addresses@.len() implies addresses@[i]@
                == self.addresses@[i]@ by {
                assert(cloned::<NetAddress>(self.addresses@[i], addresses@[i]));
            }
            assert(addresses_view(addresses@) =~= addresses_view(self.addresses@));
            assert forall|i: int| 0 <= i < supported_protocols@.len() implies
                supported_protocols@[i]@ == self.supported_protocols@[i]@ by {
                assert(cloned::<Vec<u8>>(self.supported_protocols@[i], supported_protocols@[i]));
            }
            assert(protocols_view(supported_protocols@) =~= protocols_view(
                self.supported_protocols@,
            ));
        }
        let r = Peer {
            public_key: self.public_key.clone(),
            node_id: self.node_id,
            addresses,
            flags: self.flags,
            banned_until_ms: self.banned_until_ms,
            is_offline: self.is_offline,
            features: self.features,
            connection_stats: self.connection_stats,
            supported_protocols,
        };
        proof {
            assert(r@ =~= self@);
        }
        r
    }
}

} // verus!
