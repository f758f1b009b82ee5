//! Peer identifiers: public keys, the node ids derived from them, and the
//! XOR distance metric between node ids.

use vstd::prelude::*;

verus! {

/// Multiplier of the hash fold that derives a node id from a public key.
pub const NODE_ID_HASH_PRIME: u128 = 0x1000000000000000000013B;

/// Initial accumulator of the hash fold that derives a node id from a public key.
pub const NODE_ID_HASH_OFFSET: u128 = 0x6c62272e07bb014262b821756295c58d;

/// A peer's cryptographic identity. The key is opaque to this library: only
/// byte-wise equality matters here.
#[derive(Debug)]
pub struct PublicKey {
    pub bytes: Vec<u8>,
}

impl Clone for PublicKey {
    fn clone(&self) -> (r: Self)
        ensures
            r@ == self@,
    {
        let bytes = self.bytes.clone();
        proof {
            assert(bytes@ =~= self.bytes@);
        }
        PublicKey { bytes }
    }
}

impl View for PublicKey {
    type V = Seq<u8>;

    open spec fn view(&self) -> Seq<u8> {
        self.bytes@
    }
}

impl PublicKey {
    pub fn new(bytes: Vec<u8>) -> (r: PublicKey)
        ensures
            r@ == bytes@,
    {
        PublicKey { bytes }
    }
}

impl PartialEq for PublicKey {
    fn eq(&self, other: &PublicKey) -> (r: bool) {
        bytes_equal(&self.bytes, &other.bytes)
    }
}

impl Eq for PublicKey {}

impl vstd::std_specs::cmp::PartialEqSpecImpl for PublicKey {
    open spec fn obeys_eq_spec() -> bool {
        true
    }

    open spec fn eq_spec(&self, other: &PublicKey) -> bool {
        self@ == other@
    }
}

/// Byte-wise equality of two byte vectors.
pub fn bytes_equal(a: &Vec<u8>, b: &Vec<u8>) -> (r: bool)
    ensures
        r == (a@ == b@),
{
    if a.len() != b.len() {
        return false;
    }
    let mut i: usize = 0;
    while i < a.len()
        invariant
            i <= a.len(),
            a.len() == b.len(),
            forall|j: int| 0 <= j < i ==> a@[j] == b@[j],
        decreases a.len() - i,
    {
        if a[i] != b[i] {
            return false;
        }
        i = i + 1;
    }
    proof {
        assert(a@ =~= b@);
    }
    true
}

/// A fixed-width identifier on which the XOR distance metric is defined.
/// Derived deterministically from a peer's public key.
#[derive(Clone, Copy, Debug, PartialEq, Eq, Hash, PartialOrd, Ord, Structural)]
pub struct NodeId {
    pub value: u128,
}

/// The XOR distance between two node ids, totally ordered as an integer.
#[derive(Clone, Copy, Debug, PartialEq, Eq, Hash, PartialOrd, Ord, Structural)]
pub struct NodeDistance {
    pub value: u128,
}

/// One step of the hash fold over the public key bytes.
pub open spec fn node_id_hash_step(acc: u128, byte: u8) -> u128 {
    (acc ^ byte as u128).wrapping_mul(NODE_ID_HASH_PRIME)
}

/// The hash fold over a byte sequence, starting from `acc`.
pub open spec fn node_id_hash(bytes: Seq<u8>, acc: u128) -> u128
    decreases bytes.len(),
{
    if bytes.len() == 0 {
        acc
    } else {
        node_id_hash(bytes.drop_first(), node_id_hash_step(acc, bytes.first()))
    }
}

/// The node id value derived from a public key: every key yields exactly one
/// id, and the id depends on the key bytes alone.
pub open spec fn node_id_of(public_key: Seq<u8>) -> u128 {
    node_id_hash(public_key, NODE_ID_HASH_OFFSET)
}

/// The XOR distance between two node id values.
pub open spec fn distance_between(a: NodeId, b: NodeId) -> u128 {
    a.value ^ b.value
}

/// Derives the node id of a public key.
pub fn derive_node_id(public_key: &PublicKey) -> (r: NodeId)
    ensures
        r.value == node_id_of(public_key@),
{
    let mut acc: u128 = NODE_ID_HASH_OFFSET;
    let mut i: usize = 0;
    proof {
        assert(public_key.bytes@.skip(0) =~= public_key.bytes@);
    }
    while i < public_key.bytes.len()
        invariant
            i <= public_key.bytes.len(),
            node_id_hash(public_key.bytes@.skip(i as int), acc) == node_id_of(public_key.bytes@),
        decreases public_key.bytes.len() - i,
    {
        proof {
            let rest = public_key.bytes@.skip(i as int);
            assert(rest.drop_first() =~= public_key.bytes@.skip(i + 1));
            assert(rest.first() == public_key.bytes@[i as int]);
        }
        acc = (acc ^ public_key.bytes[i] as u128).wrapping_mul(NODE_ID_HASH_PRIME);
        i = i + 1;
    }
    proof {
        assert(public_key.bytes@.skip(i as int) =~= Seq::<u8>::empty());
    }
    NodeId { value: acc }
}

impl NodeId {
    /// The XOR distance from this id to `other`.
    pub fn distance(&self, other: &NodeId) -> (r: NodeDistance)
        ensures
            r.value == distance_between(*self, *other),
    {
        NodeDistance { value: self.value ^ other.value }
    }
}

/// The views of a sequence of public keys.
pub open spec fn key_views(keys: Seq<PublicKey>) -> Seq<Seq<u8>> {
    keys.map_values(|k: PublicKey| k@)
}

/// The values of a sequence of node ids.
pub open spec fn node_id_values(ids: Seq<NodeId>) -> Seq<u128> {
    ids.map_values(|n: NodeId| n.value)
}

/// Copies a list of public keys.
pub fn clone_public_keys(keys: &Vec<PublicKey>) -> (r: Vec<PublicKey>)
    ensures
        key_views(r@) == key_views(keys@),
{
    let mut out: Vec<PublicKey> = Vec::new();
    proof {
        assert(key_views(out@) =~= key_views(keys@).take(0));
    }
    let mut i: usize = 0;
    while i < keys.len()
        invariant
            i <= keys.len(),
            key_views(out@) == key_views(keys@).take(i as int),
        decreases keys.len() - i,
    {
        let ghost prev = out@;
        out.push(keys[i].clone());
        proof {
            assert(key_views(out@) =~= key_views(prev).push(keys@[i as int]@));
            assert(key_views(keys@).take(i as int + 1) =~= key_views(keys@).take(i as int).push(
                key_views(keys@)[i as int],
            ));
        }
        i = i + 1;
    }
    proof {
        assert(key_views(keys@).take(keys@.len() as int) =~= key_views(keys@));
    }
    out
}

/// Copies a list of node ids.
pub fn clone_node_ids(ids: &Vec<NodeId>) -> (r: Vec<NodeId>)
    ensures
        r@ == ids@,
{
    let mut out: Vec<NodeId> = Vec::new();
    let mut i: usize = 0;
    while i < ids.len()
        invariant
            i <= ids.len(),
            out@ == ids@.take(i as int),
        decreases ids.len() - i,
    {
        out.push(ids[i]);
        proof {
            assert(out@ =~= ids@.take(i as int + 1));
        }
        i = i + 1;
    }
    proof {
        assert(ids@.take(ids@.len() as int) =~= ids@);
    }
    out
}

/// True when `keys` holds a key with the bytes of `pk`.
pub fn keys_contain(keys: &Vec<PublicKey>, pk: &PublicKey) -> (r: bool)
    ensures
        r == key_views(keys@).contains(pk@),
{
    let mut i: usize = 0;
    while i < keys.len()
        invariant
            i <= keys.len(),
            forall|j: int| 0 <= j < i ==> key_views(keys@)[j] != pk@,
        decreases keys.len() - i,
    {
        if bytes_equal(&keys[i].bytes, &pk.bytes) {
            proof {
                assert(key_views(keys@)[i as int] == pk@);
            }
            return true;
        }
        i = i + 1;
    }
    false
}

/// True when `ids` holds `id`.
pub fn node_ids_contain(ids: &Vec<NodeId>, id: &NodeId) -> (r: bool)
    ensures
        r == node_id_values(ids@).contains(id.value),
{
    let mut i: usize = 0;
    while i < ids.len()
        invariant
            i <= ids.len(),
            forall|j: int| 0 <= j < i ==> node_id_values(ids@)[j] != id.value,
        decreases ids.len() - i,
    {
        if ids[i].value == id.value {
            proof {
                assert(node_id_values(ids@)[i as int] == id.value);
            }
            return true;
        }
        i = i + 1;
    }
    false
}

/// The distance metric is symmetric.
pub proof fn lemma_distance_symmetric(a: NodeId, b: NodeId)
    ensures
        distance_between(a, b) == distance_between(b, a),
{
    let x = a.value;
    let y = b.value;
    assert(x ^ y == y ^ x) by (bit_vector);
}

/// The distance from an id to itself is zero.
pub proof fn lemma_distance_to_self_is_zero(a: NodeId)
    ensures
        distance_between(a, a) == 0,
{
    let x = a.value;
    assert(x ^ x == 0) by (bit_vector);
}

/// Two ids at distance zero are equal.
pub proof fn lemma_distance_zero_implies_equal(a: NodeId, b: NodeId)
    requires
        distance_between(a, b) == 0,
    ensures
        a == b,
{
    let x = a.value;
    let y = b.value;
    assert(x ^ y == 0 ==> x == y) by (bit_vector);
}

} // verus!
