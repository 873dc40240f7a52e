//! The commit and load layer: hex-prefix path encoding, node serialization,
//! and the content-addressed store format.
//!
//! A node's canonical serialization is an RLP list (see [`node_rlp`]); a
//! child below 32 bytes is embedded in its parent, an equal or larger child
//! is referenced by the Keccak-256 digest of its bytes, under which the bytes
//! are written to the store.

use crate::db::HashDB;
use crate::node::{
    lemma_num_children_pointwise, num_children, BranchNode, ExtensionNode, LeafNode, Node,
};
use crate::path::{is_nibble_seq, nibbles_of, NibblePath, tail_from};
use crate::rlp::{encode_rlp, rlp_bytes, rlp_items_bytes, views_of, RlpData, RlpVal};
use sha3::Digest;
use vstd::prelude::*;
use vstd::slice::slice_to_vec;

verus! {

/// Why a node could not be serialized.
#[derive(Debug, PartialEq, Eq, Clone, Copy)]
pub enum CompactEncodeError {
    /// Only leaf and extension nodes carry a hex-prefix path.
    InvalidNodeType,
}

/// Why a hex-prefix path could not be read back.
#[derive(Debug, PartialEq, Eq, Clone, Copy)]
pub enum CompactDecodeError {
    /// The flag nibble is above 3.
    InvalidFlag { flag: u8 },
    /// No bytes where a path was required.
    EmptyPath,
}

/// A committed node's reference in its parent: the full serialization when it
/// is below 32 bytes, its 32-byte Keccak-256 digest otherwise.
#[derive(Debug, PartialEq, Eq)]
pub enum NodeRef {
    Hash([u8; 32]),
    Inline(Vec<u8>),
}

/// The flag nibble: bit 1 marks a leaf, bit 0 an odd-length path.
pub open spec fn hp_flag_of(is_leaf: bool, path: Seq<u8>) -> u8 {
    ((if is_leaf {
        2int
    } else {
        0int
    }) + (if path.len() % 2 == 1 {
        1int
    } else {
        0int
    })) as u8
}

/// The flagged nibble sequence: the flag, a zero padding nibble when the path
/// has even length, then the path.  Always of even length.
pub open spec fn hp_nibbles(is_leaf: bool, path: Seq<u8>) -> Seq<u8> {
    if path.len() % 2 == 0 {
        seq![hp_flag_of(is_leaf, path), 0u8] + path
    } else {
        seq![hp_flag_of(is_leaf, path)] + path
    }
}

/// Pack an even-length nibble sequence into bytes, high nibble first.
pub open spec fn pack_nibbles(nibs: Seq<u8>) -> Seq<u8> {
    Seq::new(nibs.len() / 2, |i: int| ((nibs[2 * i] << 4u8) | nibs[2 * i + 1]) as u8)
}

/// The hex-prefix encoding of a path.
pub open spec fn hp_encode(is_leaf: bool, path: Seq<u8>) -> Seq<u8> {
    pack_nibbles(hp_nibbles(is_leaf, path))
}

/// Packing nibbles into bytes loses nothing: expanding the bytes gives the
/// nibbles back.
pub proof fn lemma_pack_unpack(nibs: Seq<u8>)
    requires
        nibs.len() % 2 == 0,
        is_nibble_seq(nibs),
    ensures
        nibbles_of(pack_nibbles(nibs)) == nibs,
{
    let packed = pack_nibbles(nibs);
    assert(nibbles_of(packed).len() == nibs.len());
    assert forall|j: int| 0 <= j < nibs.len() implies nibbles_of(packed)[j] == nibs[j] by {
        let i = j / 2;
        let a = nibs[2 * i];
        let b = nibs[2 * i + 1];
        assert(packed[i] == ((a << 4u8) | b) as u8);
        assert(a < 16 && b < 16 ==> (((a << 4u8) | b) as u8) >> 4u8 == a && (((a << 4u8) | b) as u8)
            & 0x0fu8 == b) by (bit_vector);
        if j % 2 == 0 {
            assert(2 * i == j);
            assert(nibbles_of(packed)[j] == packed[i] >> 4u8);
        } else {
            assert(2 * i + 1 == j);
            assert(nibbles_of(packed)[j] == packed[i] & 0x0fu8);
        }
    }
    assert(nibbles_of(packed) =~= nibs);
}

/// Hex-prefix round trip: the nibble expansion of an encoded path starts
/// with the flag (and padding for even parity) and ends with the path, so the
/// decoder recovers both the kind and the path.
pub proof fn lemma_hp_round_trip(is_leaf: bool, path: Seq<u8>)
    requires
        is_nibble_seq(path),
    ensures
        ({
            let nibs = nibbles_of(hp_encode(is_leaf, path));
            &&& nibs.len() >= 2
            &&& nibs[0] <= 3
            &&& (nibs[0] >= 2 <==> is_leaf)
            &&& nibs.skip(
                if nibs[0] == 0 || nibs[0] == 2 {
                    2int
                } else {
                    1int
                },
            ) == path
        }),
{
    let hn = hp_nibbles(is_leaf, path);
    assert(is_nibble_seq(hn)) by {
        assert forall|j: int| 0 <= j < hn.len() implies hn[j] < 16 by {
            if path.len() % 2 == 0 {
                if j >= 2 {
                    assert(hn[j] == path[j - 2]);
                }
            } else {
                if j >= 1 {
                    assert(hn[j] == path[j - 1]);
                }
            }
        }
    }
    assert(hn.len() % 2 == 0);
    lemma_pack_unpack(hn);
    let nibs = nibbles_of(hp_encode(is_leaf, path));
    assert(nibs == hn);
    if path.len() % 2 == 0 {
        assert(nibs[0] == hp_flag_of(is_leaf, path));
        assert(nibs.skip(2) =~= path);
    } else {
        assert(nibs[0] == hp_flag_of(is_leaf, path));
        assert(nibs.skip(1) =~= path);
    }
}

/// Hex-prefix encoding is injective: equal encodings mean the same kind and
/// the same path.
pub proof fn lemma_hp_encode_injective(l1: bool, p1: Seq<u8>, l2: bool, p2: Seq<u8>)
    requires
        is_nibble_seq(p1),
        is_nibble_seq(p2),
        hp_encode(l1, p1) == hp_encode(l2, p2),
    ensures
        l1 == l2,
        p1 == p2,
{
    lemma_hp_round_trip(l1, p1);
    lemma_hp_round_trip(l2, p2);
    let nibs = nibbles_of(hp_encode(l1, p1));
    assert(nibs[0] >= 2 <==> l1);
    assert(nibs[0] >= 2 <==> l2);
}

/// Serialize a leaf or extension path with its hex-prefix flag; a branch has
/// no path and is rejected.
pub fn compact_encode(node: &Node) -> (r: Result<Vec<u8>, CompactEncodeError>)
    requires
        node matches Node::Leaf(l) ==> is_nibble_seq(l.path@),
        node matches Node::Extension(e) ==> is_nibble_seq(e.path@),
    ensures
        match node {
            Node::Leaf(l) => r matches Ok(v) && v@ == hp_encode(true, l.path@),
            Node::Extension(e) => r matches Ok(v) && v@ == hp_encode(false, e.path@),
            Node::Branch(_) => r matches Err(e) && e is InvalidNodeType,
        },
{
    let (is_leaf, path): (bool, &NibblePath) = match node {
        Node::Leaf(l) => (true, &l.path),
        Node::Extension(e) => (false, &e.path),
        Node::Branch(_) => {
            return Err(CompactEncodeError::InvalidNodeType);
        },
    };
    let mut path_nibbles: Vec<u8> = Vec::new();
    let odd = path.nibbles.len() % 2;
    let flag: u8 = (if is_leaf {
        2u8
    } else {
        0u8
    }) + (odd as u8);
    path_nibbles.push(flag);
    if odd == 0 {
        path_nibbles.push(0);
    }
    path_nibbles.extend_from_slice(path.nibbles.as_slice());
    let ghost hn = hp_nibbles(is_leaf, path@);
    proof {
        assert(path_nibbles@ =~= hn);
        assert(is_nibble_seq(hn)) by {
            assert forall|j: int| 0 <= j < hn.len() implies hn[j] < 16 by {
                if path@.len() % 2 == 0 {
                    if j >= 2 {
                        assert(hn[j] == path@[j - 2]);
                    }
                } else {
                    if j >= 1 {
                        assert(hn[j] == path@[j - 1]);
                    }
                }
            }
        }
    }
    let mut encoded: Vec<u8> = Vec::new();
    let total = path_nibbles.len();
    let mut i: usize = 0;
    while i < total / 2
        invariant
            total == path_nibbles@.len(),
            path_nibbles@ == hn,
            total % 2 == 0,
            is_nibble_seq(hn),
            i <= total / 2,
            encoded@.len() == i,
            forall|j: int| 0 <= j < i ==> encoded@[j] == pack_nibbles(hn)[j],
        decreases total / 2 - i,
    {
        let hi = path_nibbles[2 * i];
        let lo = path_nibbles[2 * i + 1];
        encoded.push((hi << 4) | lo);
        i += 1;
    }
    proof {
        assert(encoded@ =~= pack_nibbles(hn));
    }
    Ok(encoded)
}

/// Read back a hex-prefix encoded path: the first nibble is the flag, one
/// padding nibble follows when the flag marks even parity, the rest is the
/// path.
pub fn compact_decode(encoded: &[u8]) -> (r: Result<NibblePath, CompactDecodeError>)
    ensures
        r is Ok <==> encoded@.len() > 0 && nibbles_of(encoded@)[0] <= 3,
        r matches Ok(p) ==> {
            let nibs = nibbles_of(encoded@);
            &&& p@ == nibs.skip(
                if nibs[0] == 0 || nibs[0] == 2 {
                    2int
                } else {
                    1int
                },
            )
            &&& is_nibble_seq(p@)
        },
        r matches Err(e) ==> match e {
            CompactDecodeError::EmptyPath => encoded@.len() == 0,
            CompactDecodeError::InvalidFlag { flag } => encoded@.len() > 0 && flag == nibbles_of(
                encoded@,
            )[0] && flag > 3,
        },
{
    let nibs = NibblePath::from_bytes(encoded);
    if nibs.nibbles.len() == 0 {
        return Err(CompactDecodeError::EmptyPath);
    }
    let flag = nibs.nibbles[0];
    if flag > 3 {
        return Err(CompactDecodeError::InvalidFlag { flag });
    }
    let drop: usize = if flag % 2 == 0 {
        2
    } else {
        1
    };
    proof {
        crate::path::lemma_nibbles_of_is_nibble_seq(encoded@);
        assert(nibbles_of(encoded@).len() % 2 == 0);
        assert(is_nibble_seq(nibbles_of(encoded@).skip(drop as int))) by {
            assert forall|j: int|
                0 <= j < nibbles_of(encoded@).skip(drop as int).len() implies nibbles_of(
                encoded@,
            ).skip(drop as int)[j] < 16 by {
                assert(nibbles_of(encoded@).skip(drop as int)[j] == nibbles_of(encoded@)[j
                    + drop]);
            }
        }
    }
    Ok(NibblePath::new(tail_from(nibs.nibbles.as_slice(), drop)))
}

/// Read the hex-prefix flag nibble from an encoded path.
pub fn hp_flag(encoded_path: &[u8]) -> (r: Option<u8>)
    ensures
        r == (if encoded_path@.len() == 0 {
            None::<u8>
        } else {
            Some(nibbles_of(encoded_path@)[0])
        }),
{
    if encoded_path.len() == 0 {
        None
    } else {
        let b = *vstd::slice::slice_index_get(encoded_path, 0);
        Some(b >> 4)
    }
}

/// The Keccak-256 digest of a byte string: a function of the bytes alone.
pub uninterp spec fn keccak256_of(data: Seq<u8>) -> [u8; 32];

/// Relies on `sha3::Keccak256` through `digest::Digest::digest`: a 32-byte
/// digest that depends on the input bytes alone.
#[verifier::external_body]
pub fn keccak256(data: &[u8]) -> (r: [u8; 32])
    ensures
        r == keccak256_of(data@),
{
    sha3::Keccak256::digest(data).into()
}

/// The lowercase hexadecimal digit for a value below 16.
pub open spec fn hex_char_of(n: u8) -> char {
    if n == 0 {
        '0'
    } else if n == 1 {
        '1'
    } else if n == 2 {
        '2'
    } else if n == 3 {
        '3'
    } else if n == 4 {
        '4'
    } else if n == 5 {
        '5'
    } else if n == 6 {
        '6'
    } else if n == 7 {
        '7'
    } else if n == 8 {
        '8'
    } else if n == 9 {
        '9'
    } else if n == 10 {
        'a'
    } else if n == 11 {
        'b'
    } else if n == 12 {
        'c'
    } else if n == 13 {
        'd'
    } else if n == 14 {
        'e'
    } else {
        'f'
    }
}

/// The lowercase hexadecimal rendering of a byte string: two digits per byte,
/// high nibble first.
pub open spec fn hex_str_of(bytes: Seq<u8>) -> Seq<char> {
    Seq::new(
        2 * bytes.len(),
        |i: int| if i % 2 == 0 {
            hex_char_of(bytes[i / 2] >> 4u8)
        } else {
            hex_char_of(bytes[i / 2] & 0x0fu8)
        },
    )
}

/// Relies on `hex::encode`: lowercase hexadecimal, two digits per byte, high
/// nibble first.
#[verifier::external_body]
pub fn hex_encode(data: &[u8]) -> (r: String)
    ensures
        r@ == hex_str_of(data@),
{
    hex::encode(data)
}

impl NodeRef {
    /// The digest this reference commits to: the hash itself, or the digest
    /// of the inlined bytes.
    pub fn canonicalize_root(&self) -> (r: [u8; 32])
        ensures
            r == (match self {
                NodeRef::Hash(h) => *h,
                NodeRef::Inline(bytes) => keccak256_of(bytes@),
            }),
    {
        match self {
            NodeRef::Hash(h) => *h,
            NodeRef::Inline(bytes) => keccak256(bytes.as_slice()),
        }
    }

    /// The reference rendered as lowercase hexadecimal.
    pub fn hex_string(&self) -> (r: String)
        ensures
            r@ == (match self {
                NodeRef::Hash(h) => hex_str_of(h@),
                NodeRef::Inline(bytes) => hex_str_of(bytes@),
            }),
    {
        match self {
            NodeRef::Hash(h) => hex_encode(h.as_slice()),
            NodeRef::Inline(bytes) => hex_encode(bytes.as_slice()),
        }
    }
}

/// The reference a parent embeds for a committed node: the node's RLP bytes
/// when short, their Keccak-256 digest otherwise.
pub open spec fn node_ref_bytes(n: Node) -> Seq<u8>
    decreases n, 1int,
{
    let e = rlp_bytes(node_rlp(n));
    if e.len() < 32 {
        e
    } else {
        keccak256_of(e)@
    }
}

/// The reference fields of a branch's 16 child slots: an empty string for an
/// absent child, the child's reference otherwise.
pub open spec fn branch_child_refs(cs: Seq<Option<Box<Node>>>) -> Seq<RlpVal>
    decreases cs, 2int,
{
    Seq::new(
        cs.len(),
        |i: int| if 0 <= i < cs.len() {
            match cs[i] {
                None => RlpVal::Bytes(Seq::empty()),
                Some(c) => RlpVal::Bytes(node_ref_bytes(*c)),
            }
        } else {
            RlpVal::Bytes(Seq::empty())
        },
    )
}

/// The canonical RLP value of a node: `[hp(path), value]` for a leaf,
/// `[hp(path), child_ref]` for an extension, and the 17-element list of child
/// references plus value field for a branch.
pub open spec fn node_rlp(n: Node) -> RlpVal
    decreases n, 0int,
{
    match n {
        Node::Leaf(l) => RlpVal::Items(
            seq![RlpVal::Bytes(hp_encode(true, l.path@)), RlpVal::Bytes(l.value@)],
        ),
        Node::Extension(e) => RlpVal::Items(
            seq![RlpVal::Bytes(hp_encode(false, e.path@)), RlpVal::Bytes(node_ref_bytes(*e.child))],
        ),
        Node::Branch(b) => RlpVal::Items(
            branch_child_refs(b.children@) + seq![
                RlpVal::Bytes(
                    match b.value {
                        Some(v) => v@,
                        None => Seq::empty(),
                    },
                ),
            ],
        ),
    }
}

/// The 32-byte digest that commits to a node: the Keccak-256 of its RLP.
pub open spec fn node_digest(n: Node) -> Seq<u8> {
    keccak256_of(rlp_bytes(node_rlp(n)))@
}

/// `r` is the store reference of node `n`.
pub open spec fn is_node_ref(r: NodeRef, n: Node) -> bool {
    let e = rlp_bytes(node_rlp(n));
    match r {
        NodeRef::Inline(b) => b@ == e && e.len() < 32,
        NodeRef::Hash(h) => h == keccak256_of(e) && e.len() >= 32,
    }
}

/// The store changed only by content-addressed writes: every key of `m_old`
/// is still present, any entry that changed now holds bytes whose Keccak-256
/// digest is its key, and so does every entry under a fresh key.
pub open spec fn store_evolves(m_old: Map<Seq<u8>, Seq<u8>>, m_new: Map<Seq<u8>, Seq<u8>>) -> bool {
    &&& forall|k: Seq<u8>| #[trigger]
        m_old.contains_key(k) ==> m_new.contains_key(k) && (m_new[k] == m_old[k] || k
            == keccak256_of(m_new[k])@)
    &&& forall|k: Seq<u8>| #[trigger]
        m_new.contains_key(k) ==> m_old.contains_key(k) || k == keccak256_of(m_new[k])@
}

/// `store_evolves` composes.
pub proof fn lemma_store_evolves_trans(
    a: Map<Seq<u8>, Seq<u8>>,
    b: Map<Seq<u8>, Seq<u8>>,
    c: Map<Seq<u8>, Seq<u8>>,
)
    requires
        store_evolves(a, b),
        store_evolves(b, c),
    ensures
        store_evolves(a, c),
{
}

/// Every node of the subtree rooted at `n` whose serialization is 32 bytes
/// or longer is present in the store under its digest, with exactly its
/// serialization as the stored bytes.  This is the hypothesis of the load
/// contracts; a commit establishes it unless two distinct serializations in
/// the subtree share a digest, which the contracts here do not rule out.
pub open spec fn node_stored(m: Map<Seq<u8>, Seq<u8>>, n: Node) -> bool
    decreases n,
{
    let e = rlp_bytes(node_rlp(n));
    &&& (e.len() >= 32 ==> m.contains_key(keccak256_of(e)@) && m[keccak256_of(e)@] == e)
    &&& match n {
        Node::Leaf(_) => true,
        Node::Extension(x) => node_stored(m, *x.child),
        Node::Branch(b) => forall|i: int|
            0 <= i < b.children@.len() ==> (#[trigger] b.children@[i] matches Some(c)
                ==> node_stored(m, *c)),
    }
}

/// Every node of this subtree serializes below 32 bytes, so committing it
/// embeds everything and writes nothing to the store.
pub open spec fn subtree_inline(n: Node) -> bool
    decreases n,
{
    &&& rlp_bytes(node_rlp(n)).len() < 32
    &&& match n {
        Node::Leaf(_) => true,
        Node::Extension(x) => subtree_inline(*x.child),
        Node::Branch(b) => forall|i: int|
            0 <= i < b.children@.len() ==> (#[trigger] b.children@[i] matches Some(c)
                ==> subtree_inline(*c)),
    }
}

/// Write one serialized node: embed it when shorter than 32 bytes, otherwise
/// store it under its Keccak-256 digest and hand back the digest.
fn inline_or_hash<D: HashDB>(db: &mut D, rlp: RlpData) -> (r: Result<NodeRef, D::Error>)
    ensures
        store_evolves(old(db).view(), final(db).view()),
        rlp_bytes(rlp@).len() < 32 ==> r is Ok,
        r matches Ok(nr) ==> match nr {
            NodeRef::Inline(b) => {
                &&& b@ == rlp_bytes(rlp@)
                &&& b@.len() < 32
                &&& final(db).view() == old(db).view()
            },
            NodeRef::Hash(h) => {
                &&& h == keccak256_of(rlp_bytes(rlp@))
                &&& rlp_bytes(rlp@).len() >= 32
                &&& final(db).view() == old(db).view().insert(h@, rlp_bytes(rlp@))
            },
        },
{
    let bytes = encode_rlp(rlp);
    if bytes.len() < 32 {
        Ok(NodeRef::Inline(bytes))
    } else {
        let h: [u8; 32] = keccak256(bytes.as_slice());
        let ghost key = h@;
        let ghost val = bytes@;
        match db.put(h, bytes) {
            Ok(_) => {
                proof {
                    assert(db.view() == old(db).view().insert(key, val));
                }
                Ok(NodeRef::Hash(h))
            },
            Err(e) => Err(e),
        }
    }
}

/// Serialize the subtree rooted at `node` depth-first, writing every node of
/// 32 bytes or more to the store under its Keccak-256 digest, and return the
/// root's reference.  A subtree that is embedded whole needs no store write,
/// so committing it cannot fail; on a store error, writes already made stay
/// made.
pub fn commit_node<D: HashDB>(db: &mut D, node: &Node) -> (r: Result<NodeRef, D::Error>)
    requires
        node.wf(),
    ensures
        store_evolves(old(db).view(), final(db).view()),
        subtree_inline(*node) ==> r is Ok,
        r matches Ok(nr) ==> is_node_ref(nr, *node),
        r is Ok && rlp_bytes(node_rlp(*node)).len() >= 32 ==> final(db).view().contains_key(
            node_digest(*node),
        ) && final(db).view()[node_digest(*node)] == rlp_bytes(node_rlp(*node)),
    decreases *node,
{
    match node {
        Node::Leaf(leaf) => {
            let encoded_path = match compact_encode(node) {
                Ok(p) => p,
                Err(_) => {
                    proof {
                        assert(false);
                    }
                    Vec::new()
                },
            };
            let value = slice_to_vec(leaf.value.as_slice());
            let rlp = RlpData::List(vec![RlpData::String(encoded_path), RlpData::String(value)]);
            proof {
                assert(views_of(rlp->List_0@) =~= node_rlp(*node)->Items_0);
            }
            inline_or_hash(db, rlp)
        },
        Node::Extension(extension) => {
            let ghost v0 = db.view();
            let child_ref = match commit_node(db, &extension.child) {
                Ok(cr) => cr,
                Err(e) => {
                    return Err(e);
                },
            };
            let child_field: Vec<u8> = match child_ref {
                NodeRef::Inline(bytes) => bytes,
                NodeRef::Hash(h) => slice_to_vec(h.as_slice()),
            };
            proof {
                assert(child_field@ == node_ref_bytes(*extension.child));
            }
            let encoded_path = match compact_encode(node) {
                Ok(p) => p,
                Err(_) => {
                    proof {
                        assert(false);
                    }
                    Vec::new()
                },
            };
            let rlp = RlpData::List(
                vec![RlpData::String(encoded_path), RlpData::String(child_field)],
            );
            proof {
                assert(views_of(rlp->List_0@) =~= node_rlp(*node)->Items_0);
            }
            let ghost mid = db.view();
            let r = inline_or_hash(db, rlp);
            proof {
                lemma_store_evolves_trans(v0, mid, db.view());
            }
            r
        },
        Node::Branch(branch) => {
            let ghost start = db.view();
            let mut items: Vec<RlpData> = Vec::new();
            let n = branch.children.len();
            let mut i: usize = 0;
            while i < n
                invariant
                    node is Branch && (*node)->Branch_0 == *branch,
                    node.wf(),
                    n == branch.children@.len(),
                    i <= n,
                    items@.len() == i,
                    start == old(db).view(),
                    store_evolves(start, db.view()),
                    forall|j: int|
                        0 <= j < i ==> #[trigger] views_of(items@)[j] == branch_child_refs(
                            branch.children@,
                        )[j],
                decreases n - i,
            {
                let ghost pre = db.view();
                let ghost items_pre = items@;
                match &branch.children[i] {
                    Some(child) => {
                        proof {
                            let opt = (*node)->Branch_0.children@[i as int];
                            assert(decreases_to!(*node => (*node)->Branch_0));
                            assert(decreases_to!((*node)->Branch_0 => (*node)->Branch_0.children));
                            assert(decreases_to!(
                                (*node)->Branch_0.children => (*node)->Branch_0.children@));
                            assert(decreases_to!(
                                (*node)->Branch_0.children@ => (*node)->Branch_0.children@[
                            i as int]));
                            assert(decreases_to!(opt => opt->0));
                            assert(opt->0 == *child);
                        }
                        let cr = match commit_node(db, child) {
                            Ok(cr) => cr,
                            Err(e) => {
                                proof {
                                    lemma_store_evolves_trans(start, pre, db.view());
                                }
                                return Err(e);
                            },
                        };
                        let field: Vec<u8> = match cr {
                            NodeRef::Inline(bytes) => bytes,
                            NodeRef::Hash(h) => slice_to_vec(h.as_slice()),
                        };
                        proof {
                            assert(field@ == node_ref_bytes(**child));
                        }
                        items.push(RlpData::String(field));
                    },
                    None => {
                        items.push(RlpData::String(Vec::new()));
                    },
                }
                proof {
                    lemma_store_evolves_trans(start, pre, db.view());
                    assert forall|j: int|
                        0 <= j < i + 1 implies #[trigger] views_of(items@)[j] == branch_child_refs(
                        branch.children@,
                    )[j] by {
                        if j < i {
                            assert(items@[j] == items_pre[j]);
                            assert(views_of(items@)[j] == views_of(items_pre)[j]);
                        }
                    }
                }
                i += 1;
            }
            let ghost items_children = items@;
            let value_field: Vec<u8> = match &branch.value {
                Some(v) => slice_to_vec(v.as_slice()),
                None => Vec::new(),
            };
            items.push(RlpData::String(value_field));
            proof {
                assert forall|j: int|
                    0 <= j < 17 implies #[trigger] views_of(items@)[j] == node_rlp(
                    *node,
                )->Items_0[j] by {
                    if j < 16 {
                        assert(items@[j] == items_children[j]);
                        assert(views_of(items@)[j] == views_of(items_children)[j]);
                        assert(node_rlp(*node)->Items_0[j] == branch_child_refs(
                            branch.children@,
                        )[j]);
                    } else {
                        assert(items@[j] == RlpData::String(value_field));
                    }
                }
                assert(views_of(items@) =~= node_rlp(*node)->Items_0);
            }
            let rlp = RlpData::List(items);
            let ghost mid = db.view();
            let r = inline_or_hash(db, rlp);
            proof {
                lemma_store_evolves_trans(start, mid, db.view());
            }
            r
        },
    }
}

/// Copy a 32-byte slice into an array.
fn to_hash32(b: &[u8]) -> (r: [u8; 32])
    requires
        b@.len() == 32,
    ensures
        r@ == b@,
{
    let mut arr: [u8; 32] = [0u8; 32];
    let mut i: usize = 0;
    while i < 32
        invariant
            i <= 32,
            b@.len() == 32,
            forall|j: int| 0 <= j < i ==> arr@[j] == b@[j],
        decreases 32 - i,
    {
        arr[i] = *vstd::slice::slice_index_get(b, i);
        i += 1;
    }
    proof {
        assert(arr@ =~= b@);
    }
    arr
}

/// An RLP value whose model is a byte string is a `String`.
proof fn lemma_view_bytes_is_string(item: RlpData, x: Seq<u8>)
    requires
        item@ == RlpVal::Bytes(x),
    ensures
        item matches RlpData::String(b) && b@ == x,
{
    match item {
        RlpData::String(_) => {},
        RlpData::List(_) => {
            assert(item@ is Items);
        },
    }
}

/// A child reference is never empty: a short reference is a nonempty RLP
/// encoding, a long one is a 32-byte digest.
proof fn lemma_node_ref_bytes_len(n: Node)
    ensures
        1 <= node_ref_bytes(n).len() <= 32,
        node_ref_bytes(n).len() < 32 ==> node_ref_bytes(n) == rlp_bytes(node_rlp(n)),
        node_ref_bytes(n).len() == 32 && rlp_bytes(node_rlp(n)).len() >= 32 ==> node_ref_bytes(n)
            == keccak256_of(rlp_bytes(node_rlp(n)))@,
        rlp_bytes(node_rlp(n)).len() < 32 ==> node_ref_bytes(n) == rlp_bytes(node_rlp(n)),
        rlp_bytes(node_rlp(n)).len() >= 32 ==> node_ref_bytes(n) == keccak256_of(
            rlp_bytes(node_rlp(n)),
        )@ && node_ref_bytes(n).len() == 32,
{
    crate::rlp::lemma_rlp_bytes_len_pos(node_rlp(n));
}

/// The canonical serialization of a node in canonical form, described piece
/// by piece for the loader.
proof fn lemma_node_rlp_shape(n: Node, d: int)
    requires
        n.wf(),
        n.has_depth(d),
    ensures
        node_rlp(n) matches RlpVal::Items(s) && {
            &&& (n matches Node::Leaf(l) ==> {
                &&& s.len() == 2
                &&& s[0] == RlpVal::Bytes(hp_encode(true, l.path@))
                &&& s[1] == RlpVal::Bytes(l.value@)
            })
            &&& (n matches Node::Extension(e) ==> {
                &&& s.len() == 2
                &&& s[0] == RlpVal::Bytes(hp_encode(false, e.path@))
                &&& s[1] == RlpVal::Bytes(node_ref_bytes(*e.child))
            })
            &&& (n matches Node::Branch(b) ==> {
                &&& s.len() == 17
                &&& forall|i: int|
                    0 <= i < 16 ==> #[trigger] s[i] == (match b.children@[i] {
                        None => RlpVal::Bytes(Seq::<u8>::empty()),
                        Some(c) => RlpVal::Bytes(node_ref_bytes(*c)),
                    })
                &&& s[16] == RlpVal::Bytes(Seq::<u8>::empty())
            })
        },
{
    match n {
        Node::Leaf(_) => {},
        Node::Extension(_) => {},
        Node::Branch(b) => {
            let s = node_rlp(n)->Items_0;
            assert(s.len() == 17);
            assert forall|i: int|
                0 <= i < 16 implies #[trigger] s[i] == (match b.children@[i] {
                None => RlpVal::Bytes(Seq::<u8>::empty()),
                Some(c) => RlpVal::Bytes(node_ref_bytes(*c)),
            }) by {
                assert(s[i] == branch_child_refs(b.children@)[i]);
            }
            assert(b.value is None);
        },
    }
}

/// The serializations the reconstruction rejects outright, without touching
/// the store: not a list, an arity other than two or seventeen, or a missing
/// or malformed path field.
pub open spec fn parse_rejects(v: RlpVal) -> bool {
    match v {
        RlpVal::Bytes(_) => true,
        RlpVal::Items(s) => {
            ||| s.len() != 2 && s.len() != 17
            ||| s.len() == 2 && !(match s[0] {
                RlpVal::Bytes(b) => b.len() > 0 && nibbles_of(b)[0] <= 3,
                RlpVal::Items(_) => false,
            })
        },
    }
}

/// A two-item list whose path field carries a leaf flag: reconstructed
/// without any store access, so the reconstruction owes an answer.
pub open spec fn leaf_shaped(v: RlpVal) -> bool {
    match v {
        RlpVal::Items(s) => s.len() == 2 && (match s[0] {
            RlpVal::Bytes(b) => b.len() > 0 && 2 <= nibbles_of(b)[0] <= 3,
            RlpVal::Items(_) => false,
        }),
        RlpVal::Bytes(_) => false,
    }
}

/// The value field of a two-item list is a byte string, as a leaf requires.
pub open spec fn leaf_value_is_bytes(v: RlpVal) -> bool {
    match v {
        RlpVal::Items(s) => s.len() == 2 && s[1] is Bytes,
        RlpVal::Bytes(_) => false,
    }
}

/// A 17-item list whose value field is not the empty byte string: no commit
/// over fixed-length keys produces one, and the reconstruction rejects it.
pub open spec fn branch_value_bad(v: RlpVal) -> bool {
    match v {
        RlpVal::Items(s) => s.len() == 17 && s[16] != RlpVal::Bytes(Seq::<u8>::empty()),
        RlpVal::Bytes(_) => false,
    }
}

/// A child reference field the loader rejects: a nested list, an empty
/// string where a child is required, or a string longer than a digest.
pub open spec fn child_field_rejected(v: RlpVal) -> bool {
    match v {
        RlpVal::Items(_) => true,
        RlpVal::Bytes(b) => b.len() == 0 || b.len() > 32,
    }
}

/// Reconstruct a node from its decoded serialization, loading hashed
/// children from the store.  Malformed serializations are rejected; a
/// leaf-shaped list needs no store access, so reconstructing it cannot
/// surface a store error.  Whenever the store holds the subtree of a node in
/// canonical form whose serialization this is, the reconstruction succeeds
/// and agrees with that node everywhere.
pub fn parse_node<D: HashDB>(db: &D, rlp: &RlpData, fuel: usize) -> (r: Result<
    Option<Node>,
    D::Error,
>)
    ensures
        r matches Ok(o) ==> (o matches Some(m) ==> m.branches_sized()),
        parse_rejects(rlp@) ==> (r matches Ok(o) && o is None),
        leaf_shaped(rlp@) ==> r is Ok,
        leaf_shaped(rlp@) && fuel >= 1 ==> (r matches Ok(o) && (o is Some <==> leaf_value_is_bytes(
            rlp@,
        ))),
        branch_value_bad(rlp@) ==> (r matches Ok(o) ==> o is None),
        forall|n: Node, d: int|
            #![trigger n.has_depth(d), node_stored(db.view(), n)]
            n.wf() && n.has_depth(d) && 0 <= d < fuel && node_rlp(n) == rlp@ && node_stored(
                db.view(),
                n,
            ) ==> (r matches Ok(o) ==> (o matches Some(m) && m.wf() && m.has_depth(d) && (m
                is Branch <==> n is Branch) && forall|q: Seq<u8>| #[trigger] m.lookup(q)
                == n.lookup(q))),
    decreases fuel, 1int,
{
    if fuel == 0 {
        return Ok(None);
    }
    let items: &Vec<RlpData> = match rlp {
        RlpData::List(items) => items,
        RlpData::String(_) => {
            proof {
                assert forall|n: Node, d: int|
                    #![trigger n.has_depth(d), node_stored(db.view(), n)]
                    n.wf() && n.has_depth(d) && 0 <= d < fuel && node_rlp(n) == rlp@
                        && node_stored(db.view(), n) implies false by {
                    lemma_node_rlp_shape(n, d);
                }
            }
            return Ok(None);
        },
    };
    if items.len() == 2 {
        let path_bytes: &Vec<u8> = match &items[0] {
            RlpData::String(b) => b,
            RlpData::List(_) => {
                proof {
                    two_item_vacuity(db, rlp, *items, fuel);
                }
                return Ok(None);
            },
        };
        let flag = match hp_flag(path_bytes.as_slice()) {
            Some(f) => f,
            None => {
                proof {
                    two_item_vacuity(db, rlp, *items, fuel);
                }
                return Ok(None);
            },
        };
        let path = match compact_decode(path_bytes.as_slice()) {
            Ok(p) => p,
            Err(_) => {
                proof {
                    two_item_vacuity(db, rlp, *items, fuel);
                }
                return Ok(None);
            },
        };
        proof {
            parse_two_facts(db, rlp, *items, fuel);
            assert(views_of(items@)[0] == items@[0]@);
            assert(items@[0]@ == RlpVal::Bytes(path_bytes@));
            assert(path_bytes@.len() > 0);
            assert(nibbles_of(path_bytes@)[0] == flag && flag <= 3);
            assert(!parse_rejects(rlp@));
            assert(leaf_shaped(rlp@) <==> flag >= 2);
        }
        if flag <= 1 {
            // extension: the second item is the child reference
            let lc = load_child(db, &items[1], fuel - 1);
            let ghost lc_snap = lc;
            let child = match lc {
                Ok(Some(c)) => c,
                Ok(None) => {
                    proof {
                        assert forall|n: Node, d: int|
                            #![trigger n.has_depth(d), node_stored(db.view(), n)]
                            n.wf() && n.has_depth(d) && 0 <= d < fuel && node_rlp(n) == rlp@
                                && node_stored(db.view(), n) implies false by {
                            match n {
                                Node::Leaf(_) => {
                                    assert(nibbles_of(path_bytes@)[0] >= 2);
                                },
                                Node::Branch(_) => {},
                                Node::Extension(e) => {
                                    assert(e.child.has_depth(d - e.path@.len()));
                                    assert(node_stored(db.view(), *e.child));
                                    assert(items@[1]@ == RlpVal::Bytes(node_ref_bytes(*e.child)));
                                },
                            }
                        }
                    }
                    return Ok(None);
                },
                Err(e) => {
                    return Err(e);
                },
            };
            let m = Node::Extension(ExtensionNode::new(path, Box::new(child)));
            proof {
                assert forall|n: Node, d: int|
                    #![trigger n.has_depth(d), node_stored(db.view(), n)]
                    n.wf() && n.has_depth(d) && 0 <= d < fuel && node_rlp(n) == rlp@
                        && node_stored(db.view(), n) implies (m.wf() && m.has_depth(d) && (m
                    is Branch <==> n is Branch) && forall|q: Seq<u8>| #[trigger] m.lookup(q)
                    == n.lookup(q)) by {
                    match n {
                        Node::Leaf(_) => {
                            assert(nibbles_of(path_bytes@)[0] >= 2);
                            assert(false);
                        },
                        Node::Branch(_) => {
                            assert(false);
                        },
                        Node::Extension(e) => {
                            let plen = e.path@.len() as int;
                            assert(path@ == e.path@);
                            assert(e.child.has_depth(d - plen));
                            assert(node_stored(db.view(), *e.child));
                            assert(items@[1]@ == RlpVal::Bytes(node_ref_bytes(*e.child)));
                            assert(lc_snap matches Ok(o) && o matches Some(mc) && mc == child);
                            assert(child.wf() && child.has_depth(d - plen) && (child is Branch
                                <==> *e.child is Branch));
                            assert(m.wf());
                            assert(m.has_depth(d));
                            assert forall|q: Seq<u8>| #[trigger] m.lookup(q) == n.lookup(q) by {
                                assert(m->Extension_0.path@ == e.path@);
                                if plen <= q.len() && q.take(plen) == e.path@ {
                                    assert(m.lookup(q) == child.lookup(q.skip(plen)));
                                    assert(n.lookup(q) == e.child.lookup(q.skip(plen)));
                                    assert(child.lookup(q.skip(plen)) == e.child.lookup(
                                        q.skip(plen),
                                    ));
                                }
                            }
                        },
                    }
                }
            }
            Ok(Some(m))
        } else {
            // leaf: the second item is the stored value
            let value: Vec<u8> = match &items[1] {
                RlpData::String(v) => {
                    proof {
                        assert(views_of(items@)[1] == items@[1]@);
                        assert(leaf_value_is_bytes(rlp@));
                    }
                    slice_to_vec(v.as_slice())
                },
                RlpData::List(_) => {
                    proof {
                        two_item_vacuity(db, rlp, *items, fuel);
                        assert(views_of(items@)[1] == items@[1]@);
                        assert(!leaf_value_is_bytes(rlp@));
                    }
                    return Ok(None);
                },
            };
            let m = Node::Leaf(LeafNode::new(path, value));
            proof {
                assert forall|n: Node, d: int|
                    #![trigger n.has_depth(d), node_stored(db.view(), n)]
                    n.wf() && n.has_depth(d) && 0 <= d < fuel && node_rlp(n) == rlp@
                        && node_stored(db.view(), n) implies (m.wf() && m.has_depth(d) && (m
                    is Branch <==> n is Branch) && forall|q: Seq<u8>| #[trigger] m.lookup(q)
                    == n.lookup(q)) by {
                    match n {
                        Node::Extension(_) => {
                            assert(nibbles_of(path_bytes@)[0] <= 1);
                            assert(false);
                        },
                        Node::Branch(_) => {
                            assert(false);
                        },
                        Node::Leaf(l) => {
                            assert(path@ == l.path@);
                            assert(value@ == l.value@);
                            assert(m.wf());
                            assert(m.has_depth(d));
                            assert forall|q: Seq<u8>| #[trigger] m.lookup(q) == n.lookup(q) by {}
                        },
                    }
                }
            }
            Ok(Some(m))
        }
    } else if items.len() == 17 {
        let mut branch = BranchNode::new();
        let mut i: usize = 0;
        while i < 16
            invariant
                items@.len() == 17,
                rlp@ == RlpVal::Items(views_of(items@)),
                0 < fuel,
                i <= 16,
                branch.children@.len() == 16,
                branch.value is None,
                forall|j: int| i <= j < 16 ==> branch.children@[j] is None,
                forall|j: int|
                    0 <= j < i ==> (#[trigger] items@[j]@ == RlpVal::Bytes(Seq::<u8>::empty())
                        ==> branch.children@[j] is None),
                forall|j: int|
                    0 <= j < i ==> (#[trigger] branch.children@[j] matches Some(m)
                        ==> m.branches_sized()),
                forall|j: int, c: Node, d2: int|
                    #![trigger branch.children@[j], c.has_depth(d2)]
                    0 <= j < i && c.wf() && c.has_depth(d2) && 0 <= d2 < fuel - 1 && items@[j]@
                        == RlpVal::Bytes(node_ref_bytes(c)) && node_stored(db.view(), c) ==> (
                    branch.children@[j] matches Some(m) && m.wf() && m.has_depth(d2) && (*m
                        is Branch <==> c is Branch) && forall|q: Seq<u8>| #[trigger] m.lookup(q)
                        == c.lookup(q)),
            decreases 16 - i,
        {
            let ghost cs_pre = branch.children@;
            let is_empty_field: bool = match &items[i] {
                RlpData::String(b) => {
                    proof {
                        if b@.len() == 0 {
                            assert(b@ =~= Seq::<u8>::empty());
                        }
                    }
                    b.len() == 0
                },
                RlpData::List(_) => false,
            };
            proof {
                assert(is_empty_field <==> items@[i as int]@ == RlpVal::Bytes(
                    Seq::<u8>::empty(),
                ));
            }
            if !is_empty_field {
                let lc = load_child(db, &items[i], fuel - 1);
                let ghost lc_snap = lc;
                let child = match lc {
                    Ok(Some(c)) => c,
                    Ok(None) => {
                        proof {
                            assert forall|c: Node, d2: int|
                                #![trigger c.has_depth(d2), node_stored(db.view(), c)]
                                c.wf() && c.has_depth(d2) && 0 <= d2 < fuel - 1 && items@[i as int]@
                                    == RlpVal::Bytes(node_ref_bytes(c)) && node_stored(
                                    db.view(),
                                    c,
                                ) implies false by {
                                assert(lc_snap matches Ok(o) && o matches Some(_mc));
                            }
                            branch_vacuity(db, rlp, *items, fuel, i as int);
                        }
                        return Ok(None);
                    },
                    Err(e) => {
                        return Err(e);
                    },
                };
                branch.add_child(i, Box::new(child));
                proof {
                    assert forall|j: int|
                        0 <= j < i + 1 implies (#[trigger] items@[j]@ == RlpVal::Bytes(
                        Seq::<u8>::empty(),
                    ) ==> branch.children@[j] is None) by {
                        if j < i {
                            assert(branch.children@[j] == cs_pre[j]);
                        }
                    }
                    assert forall|j: int, c: Node, d2: int|
                        #![trigger branch.children@[j], c.has_depth(d2)]
                        0 <= j < i + 1 && c.wf() && c.has_depth(d2) && 0 <= d2 < fuel - 1
                            && items@[j]@ == RlpVal::Bytes(node_ref_bytes(c)) && node_stored(
                            db.view(),
                            c,
                        ) implies (branch.children@[j] matches Some(m) && m.wf() && m.has_depth(d2)
                        && (*m is Branch <==> c is Branch) && forall|q: Seq<u8>| #[trigger]
                        m.lookup(q) == c.lookup(q)) by {
                        if j < i {
                            assert(branch.children@[j] == cs_pre[j]);
                        } else {
                            assert(lc_snap matches Ok(o) && o matches Some(mc) && mc == child);
                            assert(branch.children@[j] == Some(Box::new(child)));
                        }
                    }
                }
            } else {
                proof {
                    assert(branch.children@ == cs_pre);
                    assert forall|j: int, c: Node, d2: int|
                        #![trigger branch.children@[j], c.has_depth(d2)]
                        0 <= j < i + 1 && c.wf() && c.has_depth(d2) && 0 <= d2 < fuel - 1
                            && items@[j]@ == RlpVal::Bytes(node_ref_bytes(c)) && node_stored(
                            db.view(),
                            c,
                        ) implies (branch.children@[j] matches Some(m) && m.wf() && m.has_depth(d2)
                        && (*m is Branch <==> c is Branch) && forall|q: Seq<u8>| #[trigger]
                        m.lookup(q) == c.lookup(q)) by {
                        if j == i {
                            lemma_node_ref_bytes_len(c);
                            assert(node_ref_bytes(c).len() >= 1);
                            assert(false);
                        }
                    }
                }
            }
            i += 1;
        }
        let value_ok: bool = match &items[16] {
            RlpData::String(v) => {
                proof {
                    assert(views_of(items@)[16] == items@[16]@);
                    if v@.len() == 0 {
                        assert(v@ =~= Seq::<u8>::empty());
                    }
                }
                v.len() == 0
            },
            RlpData::List(_) => {
                proof {
                    assert(views_of(items@)[16] == items@[16]@);
                }
                false
            },
        };
        proof {
            assert(value_ok <==> views_of(items@)[16] == RlpVal::Bytes(Seq::<u8>::empty()));
            assert(!parse_rejects(rlp@));
        }
        if !value_ok {
            proof {
                assert forall|n: Node, d: int|
                    #![trigger n.has_depth(d), node_stored(db.view(), n)]
                    n.wf() && n.has_depth(d) && 0 <= d < fuel && node_rlp(n) == rlp@
                        && node_stored(db.view(), n) implies false by {
                    lemma_node_rlp_shape(n, d);
                    assert(items@[16]@ == views_of(items@)[16]);
                    lemma_view_bytes_is_string(items@[16], Seq::<u8>::empty());
                    let b16 = items@[16]->String_0;
                    assert(b16@.len() == 0);
                }
            }
            return Ok(None);
        }
        let m = Node::Branch(branch);
        proof {
            assert forall|n: Node, d: int|
                #![trigger n.has_depth(d), node_stored(db.view(), n)]
                n.wf() && n.has_depth(d) && 0 <= d < fuel && node_rlp(n) == rlp@ && node_stored(
                    db.view(),
                    n,
                ) implies (m.wf() && m.has_depth(d) && (m is Branch <==> n is Branch) && forall|
                q: Seq<u8>,
            | #[trigger] m.lookup(q) == n.lookup(q)) by {
                lemma_node_rlp_shape(n, d);
                let s = node_rlp(n)->Items_0;
                assert(n is Branch) by {
                    if !(n is Branch) {
                        assert(s.len() == 2);
                        assert(views_of(items@) == s);
                    }
                }
                let nb = n->Branch_0;
                assert(views_of(items@) == s);
                assert forall|j: int|
                    0 <= j < 16 implies (#[trigger] branch.children@[j] is Some <==> nb.children@[j]
                    is Some) && (branch.children@[j] matches Some(mc) ==> (nb.children@[j] matches
                Some(nc) && mc.wf() && mc.has_depth(d - 1) && forall|q: Seq<u8>| #[trigger]
                    mc.lookup(q) == nc.lookup(q))) by {
                    assert(items@[j]@ == views_of(items@)[j]);
                    match nb.children@[j] {
                        None => {
                            assert(items@[j]@ == RlpVal::Bytes(Seq::<u8>::empty()));
                            assert(branch.children@[j] is None);
                        },
                        Some(nc) => {
                            assert(items@[j]@ == RlpVal::Bytes(node_ref_bytes(*nc)));
                            lemma_node_ref_bytes_len(*nc);
                            assert(nc.wf() && nc.has_depth(d - 1));
                            assert(0 <= d - 1 < fuel - 1);
                            assert(node_stored(db.view(), *nc));
                            assert(branch.children@[j] matches Some(mc) && mc.wf()
                                && mc.has_depth(d - 1) && forall|q: Seq<u8>| #[trigger] mc.lookup(q)
                                == nc.lookup(q));
                        },
                    }
                }
                assert(m.wf()) by {
                    lemma_num_children_pointwise(branch.children@, nb.children@);
                    assert(num_children(nb.children@) >= 2);
                }
                assert(m.has_depth(d)) by {
                    assert(d >= 1);
                }
                assert forall|q: Seq<u8>| #[trigger] m.lookup(q) == n.lookup(q) by {
                    if q.len() > 0 && 0 <= q[0] < 16 {
                        let j = q[0] as int;
                        match branch.children@[j] {
                            Some(mc) => {
                                let nc = nb.children@[j]->0;
                                assert(m.lookup(q) == mc.lookup(q.skip(1)));
                                assert(n.lookup(q) == nc.lookup(q.skip(1)));
                            },
                            None => {
                                assert(nb.children@[j] is None);
                            },
                        }
                    }
                }
            }
        }
        Ok(Some(m))
    } else {
        proof {
            assert forall|n: Node, d: int|
                #![trigger n.has_depth(d), node_stored(db.view(), n)]
                n.wf() && n.has_depth(d) && 0 <= d < fuel && node_rlp(n) == rlp@ && node_stored(
                    db.view(),
                    n,
                ) implies false by {
                lemma_node_rlp_shape(n, d);
                assert(views_of(items@) == node_rlp(n)->Items_0);
            }
        }
        Ok(None)
    }
}

/// In a two-item list that failed the path checks, no canonical node fits.
proof fn two_item_vacuity<D: HashDB>(db: &D, rlp: &RlpData, items: Vec<RlpData>, fuel: usize)
    requires
        rlp@ == RlpVal::Items(views_of(items@)),
        items@.len() == 2,
        !(items@[0] matches RlpData::String(b) && {
            let nibs = nibbles_of(b@);
            &&& b@.len() > 0
            &&& nibs[0] <= 3
            &&& (nibs[0] >= 2 ==> items@[1] is String)
        }),
    ensures
        forall|n: Node, d: int|
            #![trigger n.has_depth(d), node_stored(db.view(), n)]
            n.wf() && n.has_depth(d) && 0 <= d < fuel && node_rlp(n) == rlp@ && node_stored(
                db.view(),
                n,
            ) ==> false,
{
    assert forall|n: Node, d: int|
        #![trigger n.has_depth(d), node_stored(db.view(), n)]
        n.wf() && n.has_depth(d) && 0 <= d < fuel && node_rlp(n) == rlp@ && node_stored(
            db.view(),
            n,
        ) implies false by {
        lemma_node_rlp_shape(n, d);
        let s = node_rlp(n)->Items_0;
        assert(views_of(items@) == s);
        assert(items@[0]@ == views_of(items@)[0]);
        assert(items@[1]@ == views_of(items@)[1]);
        match n {
            Node::Leaf(l) => {
                lemma_hp_round_trip(true, l.path@);
                lemma_view_bytes_is_string(items@[0], hp_encode(true, l.path@));
                lemma_view_bytes_is_string(items@[1], l.value@);
            },
            Node::Extension(e) => {
                lemma_hp_round_trip(false, e.path@);
                lemma_view_bytes_is_string(items@[0], hp_encode(false, e.path@));
            },
            Node::Branch(_) => {
                assert(s.len() == 17);
            },
        }
    }
}

/// The facts a two-item parse needs about the hypothetical node: its kind
/// from the flag, its path from the decoder, and its second field.
proof fn parse_two_facts<D: HashDB>(db: &D, rlp: &RlpData, items: Vec<RlpData>, fuel: usize)
    requires
        rlp@ == RlpVal::Items(views_of(items@)),
        items@.len() == 2,
    ensures
        forall|n: Node, d: int|
            #![trigger n.has_depth(d), node_stored(db.view(), n)]
            n.wf() && n.has_depth(d) && 0 <= d < fuel && node_rlp(n) == rlp@ && node_stored(
                db.view(),
                n,
            ) ==> (match n {
                Node::Leaf(l) => {
                    &&& items@[0] matches RlpData::String(b) && b@ == hp_encode(true, l.path@)
                        && nibbles_of(b@).len() >= 2 && nibbles_of(b@)[0] >= 2 && nibbles_of(b@)[0]
                        <= 3 && nibbles_of(b@).skip(
                        if nibbles_of(b@)[0] == 2 {
                            2int
                        } else {
                            1int
                        },
                    ) == l.path@
                    &&& items@[1] matches RlpData::String(v) && v@ == l.value@
                },
                Node::Extension(e) => {
                    &&& items@[0] matches RlpData::String(b) && b@ == hp_encode(false, e.path@)
                        && nibbles_of(b@).len() >= 2 && nibbles_of(b@)[0] <= 1 && nibbles_of(
                        b@,
                    ).skip(
                        if nibbles_of(b@)[0] == 0 {
                            2int
                        } else {
                            1int
                        },
                    ) == e.path@
                    &&& items@[1]@ == RlpVal::Bytes(node_ref_bytes(*e.child))
                    &&& e.path@.len() >= 1
                    &&& e.child.wf() && e.child.has_depth(d - e.path@.len()) && 0 <= d
                        - e.path@.len() < fuel - 1
                    &&& node_stored(db.view(), *e.child)
                },
                Node::Branch(_) => false,
            }),
{
    assert forall|n: Node, d: int|
        #![trigger n.has_depth(d), node_stored(db.view(), n)]
        n.wf() && n.has_depth(d) && 0 <= d < fuel && node_rlp(n) == rlp@ && node_stored(
            db.view(),
            n,
        ) implies (match n {
        Node::Leaf(l) => {
            &&& items@[0] matches RlpData::String(b) && b@ == hp_encode(true, l.path@)
                && nibbles_of(b@).len() >= 2 && nibbles_of(b@)[0] >= 2 && nibbles_of(b@)[0] <= 3
                && nibbles_of(b@).skip(
                if nibbles_of(b@)[0] == 2 {
                    2int
                } else {
                    1int
                },
            ) == l.path@
            &&& items@[1] matches RlpData::String(v) && v@ == l.value@
        },
        Node::Extension(e) => {
            &&& items@[0] matches RlpData::String(b) && b@ == hp_encode(false, e.path@)
                && nibbles_of(b@).len() >= 2 && nibbles_of(b@)[0] <= 1 && nibbles_of(b@).skip(
                if nibbles_of(b@)[0] == 0 {
                    2int
                } else {
                    1int
                },
            ) == e.path@
            &&& items@[1]@ == RlpVal::Bytes(node_ref_bytes(*e.child))
            &&& e.path@.len() >= 1
            &&& e.child.wf() && e.child.has_depth(d - e.path@.len()) && 0 <= d - e.path@.len()
                < fuel - 1
            &&& node_stored(db.view(), *e.child)
        },
        Node::Branch(_) => false,
    }) by {
        lemma_node_rlp_shape(n, d);
        let s = node_rlp(n)->Items_0;
        assert(views_of(items@) == s);
        assert(items@[0]@ == views_of(items@)[0]);
        assert(items@[1]@ == views_of(items@)[1]);
        match n {
            Node::Leaf(l) => {
                lemma_hp_round_trip(true, l.path@);
                lemma_view_bytes_is_string(items@[0], hp_encode(true, l.path@));
                lemma_view_bytes_is_string(items@[1], l.value@);
                let b0 = items@[0]->String_0;
                assert(nibbles_of(b0@)[0] == 2 || nibbles_of(b0@)[0] == 3);
            },
            Node::Extension(e) => {
                lemma_hp_round_trip(false, e.path@);
                lemma_view_bytes_is_string(items@[0], hp_encode(false, e.path@));
                let b0 = items@[0]->String_0;
                assert(nibbles_of(b0@)[0] == 0 || nibbles_of(b0@)[0] == 1);
            },
            Node::Branch(_) => {
                assert(s.len() == 17);
            },
        }
    }
}

/// In a branch whose child at `i` failed to load, no canonical node fits.
proof fn branch_vacuity<D: HashDB>(
    db: &D,
    rlp: &RlpData,
    items: Vec<RlpData>,
    fuel: usize,
    i: int,
)
    requires
        rlp@ == RlpVal::Items(views_of(items@)),
        items@.len() == 17,
        0 <= i < 16,
        fuel >= 1,
        items@[i]@ != RlpVal::Bytes(Seq::<u8>::empty()),
        forall|c: Node, d2: int|
            #![trigger c.has_depth(d2), node_stored(db.view(), c)]
            c.wf() && c.has_depth(d2) && 0 <= d2 < fuel - 1 && items@[i]@ == RlpVal::Bytes(
                node_ref_bytes(c),
            ) && node_stored(db.view(), c) ==> false,
    ensures
        forall|n: Node, d: int|
            #![trigger n.has_depth(d), node_stored(db.view(), n)]
            n.wf() && n.has_depth(d) && 0 <= d < fuel && node_rlp(n) == rlp@ && node_stored(
                db.view(),
                n,
            ) ==> false,
{
    assert forall|n: Node, d: int|
        #![trigger n.has_depth(d), node_stored(db.view(), n)]
        n.wf() && n.has_depth(d) && 0 <= d < fuel && node_rlp(n) == rlp@ && node_stored(
            db.view(),
            n,
        ) implies false by {
        lemma_node_rlp_shape(n, d);
        let s = node_rlp(n)->Items_0;
        assert(views_of(items@) == s);
        assert(items@[i]@ == views_of(items@)[i]);
        match n {
            Node::Branch(nb) => {
                match nb.children@[i] {
                    Some(nc) => {
                        assert(nc.wf() && nc.has_depth(d - 1));
                        assert(node_stored(db.view(), *nc));
                        assert(items@[i]@ == RlpVal::Bytes(node_ref_bytes(*nc)));
                    },
                    None => {
                        assert(items@[i]@ == RlpVal::Bytes(Seq::<u8>::empty()));
                    },
                }
            },
            Node::Leaf(_) => {
                assert(s.len() == 2);
            },
            Node::Extension(_) => {
                assert(s.len() == 2);
            },
        }
    }
}

/// Load the node a child reference field points at: inline bytes are decoded
/// directly, a 32-byte reference is fetched from the store.
pub fn load_child<D: HashDB>(db: &D, field: &RlpData, fuel: usize) -> (r: Result<
    Option<Node>,
    D::Error,
>)
    ensures
        r matches Ok(o) ==> (o matches Some(m) ==> m.branches_sized()),
        child_field_rejected(field@) ==> (r matches Ok(o) && o is None),
        forall|c: Node, d2: int|
            #![trigger c.has_depth(d2), node_stored(db.view(), c)]
            c.wf() && c.has_depth(d2) && 0 <= d2 < fuel && field@ == RlpVal::Bytes(
                node_ref_bytes(c),
            ) && node_stored(db.view(), c) ==> (r matches Ok(o) ==> (o matches Some(m) && m.wf()
                && m.has_depth(d2) && (m is Branch <==> c is Branch) && forall|q: Seq<u8>|
                #[trigger] m.lookup(q) == c.lookup(q))),
    decreases fuel, 3int,
{
    proof {
        crate::rlp::lemma_usize_max_bound();
    }
    let bytes: &Vec<u8> = match field {
        RlpData::String(b) => b,
        RlpData::List(_) => {
            return Ok(None);
        },
    };
    if bytes.len() == 0 || bytes.len() > 32 {
        proof {
            assert forall|c: Node, d2: int|
                #![trigger c.has_depth(d2), node_stored(db.view(), c)]
                c.wf() && c.has_depth(d2) && 0 <= d2 < fuel && field@ == RlpVal::Bytes(
                    node_ref_bytes(c),
                ) && node_stored(db.view(), c) implies false by {
                lemma_node_ref_bytes_len(c);
            }
        }
        return Ok(None);
    }
    if bytes.len() < 32 {
        // an embedded child: the bytes are the child's serialization
        let bytes_len = bytes.len();
        proof {
            assert(bytes@.len() == bytes_len <= usize::MAX);
        }
        let child_rlp = match crate::rlp::decode_rlp(bytes.as_slice()) {
            Ok(x) => x,
            Err(_) => {
                proof {
                    assert forall|c: Node, d2: int|
                        #![trigger c.has_depth(d2), node_stored(db.view(), c)]
                        c.wf() && c.has_depth(d2) && 0 <= d2 < fuel && field@ == RlpVal::Bytes(
                            node_ref_bytes(c),
                        ) && node_stored(db.view(), c) implies false by {
                        lemma_node_ref_bytes_len(c);
                        assert(rlp_bytes(node_rlp(c)) == bytes@);
                        assert(exists|v: crate::rlp::RlpVal| #[trigger] rlp_bytes(v)
                            == bytes@) by {
                            assert(rlp_bytes(node_rlp(c)) == bytes@);
                        }
                    }
                }
                return Ok(None);
            },
        };
        let r = parse_node(db, &child_rlp, fuel);
        proof {
            assert forall|c: Node, d2: int|
                #![trigger c.has_depth(d2), node_stored(db.view(), c)]
                c.wf() && c.has_depth(d2) && 0 <= d2 < fuel && field@ == RlpVal::Bytes(
                    node_ref_bytes(c),
                ) && node_stored(db.view(), c) implies (r matches Ok(o) ==> (o matches Some(m)
                && m.wf() && m.has_depth(d2) && (m is Branch <==> c is Branch) && forall|
                q: Seq<u8>,
            | #[trigger] m.lookup(q) == c.lookup(q))) by {
                lemma_node_ref_bytes_len(c);
                assert(rlp_bytes(node_rlp(c)) == bytes@);
                assert(rlp_bytes(child_rlp@) == bytes@);
                crate::rlp::lemma_rlp_encoding_injective(child_rlp@, node_rlp(c));
                assert(node_rlp(c) == child_rlp@);
            }
        }
        r
    } else {
        // a hashed child: fetch the serialization from the store
        let h = to_hash32(bytes.as_slice());
        let r = load_node(db, &h, fuel);
        proof {
            assert forall|c: Node, d2: int|
                #![trigger c.has_depth(d2), node_stored(db.view(), c)]
                c.wf() && c.has_depth(d2) && 0 <= d2 < fuel && field@ == RlpVal::Bytes(
                    node_ref_bytes(c),
                ) && node_stored(db.view(), c) implies (r matches Ok(o) ==> (o matches Some(m)
                && m.wf() && m.has_depth(d2) && (m is Branch <==> c is Branch) && forall|
                q: Seq<u8>,
            | #[trigger] m.lookup(q) == c.lookup(q))) by {
                lemma_node_ref_bytes_len(c);
                assert(rlp_bytes(node_rlp(c)).len() >= 32);
                assert(h@ == keccak256_of(rlp_bytes(node_rlp(c)))@);
                assert(h@ == node_digest(c));
            }
        }
        r
    }
}

/// Fetch a node's serialization from the store by its digest, decode it
/// strictly and reconstruct the node.
pub fn load_node<D: HashDB>(db: &D, key: &[u8; 32], fuel: usize) -> (r: Result<
    Option<Node>,
    D::Error,
>)
    ensures
        r matches Ok(o) ==> (o matches Some(m) ==> m.branches_sized()),
        forall|n: Node, d: int|
            #![trigger n.has_depth(d), node_stored(db.view(), n)]
            n.wf() && n.has_depth(d) && 0 <= d < fuel && key@ == node_digest(n) && rlp_bytes(
                node_rlp(n),
            ).len() >= 32 && node_stored(db.view(), n) ==> (r matches Ok(o) ==> (o matches Some(m)
                && m.wf() && m.has_depth(d) && (m is Branch <==> n is Branch) && forall|
                q: Seq<u8>,
            | #[trigger] m.lookup(q) == n.lookup(q))),
    decreases fuel, 2int,
{
    proof {
        crate::rlp::lemma_usize_max_bound();
    }
    let encoded: Vec<u8> = match db.get(key) {
        Ok(Some(v)) => v,
        Ok(None) => {
            return Ok(None);
        },
        Err(e) => {
            return Err(e);
        },
    };
    let encoded_len = encoded.len();
    proof {
        assert(encoded@.len() == encoded_len <= usize::MAX);
    }
    let rlp = match crate::rlp::decode_rlp(encoded.as_slice()) {
        Ok(x) => x,
        Err(_) => {
            proof {
                assert forall|n: Node, d: int|
                    #![trigger n.has_depth(d), node_stored(db.view(), n)]
                    n.wf() && n.has_depth(d) && 0 <= d < fuel && key@ == node_digest(n)
                        && rlp_bytes(node_rlp(n)).len() >= 32 && node_stored(db.view(), n) implies
                false by {
                    assert(db.view()[key@] == rlp_bytes(node_rlp(n)));
                    assert(encoded@ == rlp_bytes(node_rlp(n)));
                    assert(exists|v: crate::rlp::RlpVal| #[trigger] rlp_bytes(v) == encoded@) by {
                        assert(rlp_bytes(node_rlp(n)) == encoded@);
                    }
                }
            }
            return Ok(None);
        },
    };
    let r = parse_node(db, &rlp, fuel);
    proof {
        assert forall|n: Node, d: int|
            #![trigger n.has_depth(d), node_stored(db.view(), n)]
            n.wf() && n.has_depth(d) && 0 <= d < fuel && key@ == node_digest(n) && rlp_bytes(
                node_rlp(n),
            ).len() >= 32 && node_stored(db.view(), n) implies (r matches Ok(o) ==> (o matches Some(
            m,
        ) && m.wf() && m.has_depth(d) && (m is Branch <==> n is Branch) && forall|q: Seq<u8>|
            #[trigger] m.lookup(q) == n.lookup(q))) by {
            assert(db.view()[key@] == rlp_bytes(node_rlp(n)));
            assert(encoded@ == rlp_bytes(node_rlp(n)));
            assert(rlp_bytes(rlp@) == encoded@);
            assert(encoded@.len() <= usize::MAX);
            crate::rlp::lemma_rlp_encoding_injective(rlp@, node_rlp(n));
            assert(node_rlp(n) == rlp@);
        }
    }
    r
}

/// Look up `key` in the trie whose root serialization the store holds under
/// `root_hash`.  Whenever the store holds such a trie in canonical form, the
/// answer is exactly that trie's answer; a store error is surfaced.
pub fn get_value<D: HashDB>(db: &D, key: &[u8; 32], root_hash: &[u8; 32]) -> (r: Result<
    Option<Vec<u8>>,
    D::Error,
>)
    ensures
        forall|n: Node|
            #![trigger node_stored(db.view(), n)]
            n.wf() && n.has_depth(64) && rlp_bytes(node_rlp(n)).len() >= 32 && root_hash@
                == node_digest(n) && node_stored(db.view(), n) ==> (match r {
                Ok(o) => match o {
                    Some(v) => n.lookup(nibbles_of(key@)) == Some(v@),
                    None => n.lookup(nibbles_of(key@)) is None,
                },
                Err(_) => true,
            }),
{
    let root = match load_node(db, root_hash, 65) {
        Ok(Some(m)) => m,
        Ok(None) => {
            return Ok(None);
        },
        Err(e) => {
            return Err(e);
        },
    };
    let path = NibblePath::from_bytes(key.as_slice());
    match root.get(path) {
        Some(v) => Ok(Some(slice_to_vec(v.as_slice()))),
        None => Ok(None),
    }
}

/// Structurally equal trees serialize identically: the canonical RLP of a
/// node depends only on the views of its paths, values and children.
pub proof fn lemma_same_shape_same_rlp(a: Node, b: Node)
    requires
        crate::node::same_shape(a, b),
    ensures
        node_rlp(a) == node_rlp(b),
    decreases a,
{
    match (a, b) {
        (Node::Leaf(l1), Node::Leaf(l2)) => {
            assert(node_rlp(a)->Items_0 =~= node_rlp(b)->Items_0);
        },
        (Node::Extension(e1), Node::Extension(e2)) => {
            lemma_same_shape_same_rlp(*e1.child, *e2.child);
            assert(node_ref_bytes(*e1.child) == node_ref_bytes(*e2.child));
            assert(node_rlp(a)->Items_0 =~= node_rlp(b)->Items_0);
        },
        (Node::Branch(b1), Node::Branch(b2)) => {
            assert forall|i: int|
                0 <= i < 17 implies #[trigger] node_rlp(a)->Items_0[i] == node_rlp(
                b,
            )->Items_0[i] by {
                if i < 16 {
                    assert(node_rlp(a)->Items_0[i] == branch_child_refs(b1.children@)[i]);
                    assert(node_rlp(b)->Items_0[i] == branch_child_refs(b2.children@)[i]);
                    match (b1.children@[i], b2.children@[i]) {
                        (Some(c1), Some(c2)) => {
                            assert(decreases_to!(a => a->Branch_0));
                            assert(decreases_to!(a->Branch_0 => a->Branch_0.children));
                            assert(decreases_to!(a->Branch_0.children => a->Branch_0.children@));
                            assert(decreases_to!(
                                a->Branch_0.children@ => a->Branch_0.children@[i]));
                            let opt = a->Branch_0.children@[i];
                            assert(decreases_to!(opt => opt->0));
                            lemma_same_shape_same_rlp(*c1, *c2);
                            assert(node_ref_bytes(*c1) == node_ref_bytes(*c2));
                        },
                        (None, None) => {},
                        _ => {},
                    }
                }
            }
            assert(node_rlp(a)->Items_0 =~= node_rlp(b)->Items_0);
        },
        _ => {},
    }
}

} // verus!