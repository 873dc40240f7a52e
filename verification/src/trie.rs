//! The trie facade: a map from 32-byte keys to byte strings.
//!
//! A `Trie` is empty or holds one root [`Node`] in canonical form.  Its model
//! is a `Map` from 32-byte key views to value views; `set`, `get` and
//! `delete` are specified as `insert`, lookup and `remove` on that map.

use crate::node::{delete_node, insert_node, DeleteStep, Node};
use crate::db::HashDB;
use crate::path::{
    lemma_nibbles_of_injective, lemma_nibbles_of_is_nibble_seq, nibbles_of, Key32, NibblePath,
};
use crate::rlp::rlp_bytes;
use crate::storage::{commit_node, is_node_ref, keccak256_of, node_digest, node_rlp, NodeRef};
use vstd::prelude::*;
use vstd::slice::slice_to_vec;

verus! {

/// A Merkle Patricia Trie over 32-byte keys.
#[derive(Debug, PartialEq, Eq)]
pub struct Trie {
    root: Option<Node>,
}

impl View for Trie {
    type V = Map<Seq<u8>, Seq<u8>>;

    open spec fn view(&self) -> Map<Seq<u8>, Seq<u8>> {
        self.as_map()
    }
}

impl Trie {
    /// The root node, `None` for the empty trie.
    pub closed spec fn root_node(self) -> Option<Node> {
        self.root
    }

    /// The trie is empty or its root is in canonical form with every key
    /// path 64 nibbles long.
    pub closed spec fn inv(self) -> bool {
        self.root matches Some(r) ==> r.wf() && r.has_depth(64)
    }

    /// The value stored under the 64-nibble path `k`, if any.
    pub closed spec fn path_lookup(self, k: Seq<u8>) -> Option<Seq<u8>> {
        match self.root {
            None => None,
            Some(r) => r.lookup(k),
        }
    }

    /// The mapping this trie represents: 32-byte keys to values.
    pub closed spec fn as_map(self) -> Map<Seq<u8>, Seq<u8>> {
        Map::new(
            |bk: Seq<u8>| bk.len() == 32 && self.path_lookup(nibbles_of(bk)) is Some,
            |bk: Seq<u8>| self.path_lookup(nibbles_of(bk))->0,
        )
    }

    /// An empty in-memory trie.
    pub fn new() -> (r: Trie)
        ensures
            r.inv(),
            r@ == Map::<Seq<u8>, Seq<u8>>::empty(),
            r.root_node() is None,
    {
        let r = Trie { root: None };
        proof {
            assert(r@ =~= Map::<Seq<u8>, Seq<u8>>::empty());
        }
        r
    }

    /// The root node, for inspection.
    pub fn root(&self) -> (r: Option<&Node>)
        ensures
            match r {
                Some(n) => self.root_node() == Some(*n),
                None => self.root_node() is None,
            },
    {
        self.root.as_ref()
    }

    /// Insert `value` under `key`, overwriting any earlier value.
    pub fn set(&mut self, key: Key32, value: &[u8])
        requires
            old(self).inv(),
        ensures
            final(self).inv(),
            final(self)@ == old(self)@.insert(key@, value@),
            final(self).root_node() is Some,
    {
        let path = NibblePath::from_key32(&key);
        proof {
            lemma_nibbles_of_is_nibble_seq(key@);
            assert(key@.len() == 32);
        }
        let v = slice_to_vec(value);
        match self.root.take() {
            None => {
                self.root = Some(Node::new_leaf(path, v));
            },
            Some(root_node) => {
                self.root = Some(insert_node(root_node, path, v));
            },
        }
        proof {
            assert forall|q: Seq<u8>| #[trigger] self.path_lookup(q) == (if q == nibbles_of(key@) {
                Some(value@)
            } else {
                old(self).path_lookup(q)
            }) by {}
            lemma_map_view_update(*old(self), *self, key@, Some(value@));
            assert(self@ =~= old(self)@.insert(key@, value@));
        }
    }

    /// Look up the value stored under `key`.
    pub fn get(&self, key: Key32) -> (r: Option<Vec<u8>>)
        requires
            self.inv(),
        ensures
            match r {
                Some(v) => self@.contains_key(key@) && self@[key@] == v@,
                None => !self@.contains_key(key@),
            },
    {
        proof {
            assert(key@.len() == 32);
        }
        let path = NibblePath::from_key32(&key);
        match &self.root {
            None => {
                proof {
                    assert(!self@.contains_key(key@));
                }
                None
            },
            Some(r) => {
                proof {
                    crate::node::lemma_wf_branches_sized(*r);
                }
                match r.get(path) {
                    Some(v) => {
                        proof {
                            assert(self@.contains_key(key@) && self@[key@] == v@);
                        }
                        Some(slice_to_vec(v.as_slice()))
                    },
                    None => {
                        proof {
                            assert(!self@.contains_key(key@));
                        }
                        None
                    },
                }
            },
        }
    }

    /// Walk the whole tree and check the canonical-form invariants: true
    /// exactly when the trie is empty or its root is in canonical form with
    /// every key path 64 nibbles long.
    pub fn check_invariants(&self) -> (r: bool)
        ensures
            r == self.inv(),
    {
        match &self.root {
            None => true,
            Some(rt) => rt.check_invariants(64),
        }
    }

    /// Remove the value stored under `key`; returns whether one was present.
    pub fn delete(&mut self, key: Key32) -> (r: bool)
        requires
            old(self).inv(),
        ensures
            final(self).inv(),
            r == old(self)@.contains_key(key@),
            final(self)@ == old(self)@.remove(key@),
    {
        let path = NibblePath::from_key32(&key);
        proof {
            lemma_nibbles_of_is_nibble_seq(key@);
            assert(key@.len() == 32);
        }
        let found: bool;
        match self.root.take() {
            None => {
                found = false;
            },
            Some(root_node) => {
                match root_node {
                    Node::Leaf(leaf) => {
                        if crate::path::bytes_eq(
                            leaf.path.nibbles.as_slice(),
                            path.nibbles.as_slice(),
                        ) {
                            // the only key: the trie becomes empty
                            found = true;
                        } else {
                            self.root = Some(Node::Leaf(leaf));
                            found = false;
                        }
                    },
                    other => {
                        match delete_node(other, path) {
                            DeleteStep::Missing(m) => {
                                self.root = Some(m);
                                found = false;
                            },
                            DeleteStep::Removed(m) => {
                                self.root = Some(m);
                                found = true;
                            },
                            DeleteStep::Collapsed(m) => {
                                self.root = Some(m);
                                found = true;
                            },
                        }
                    },
                }
            },
        }
        proof {
            assert forall|q: Seq<u8>| #[trigger] self.path_lookup(q) == (if q == nibbles_of(key@) {
                None
            } else {
                old(self).path_lookup(q)
            }) by {}
            assert(found <==> old(self).path_lookup(nibbles_of(key@)) is Some);
            lemma_map_view_update(*old(self), *self, key@, None);
            assert(self@ =~= old(self)@.remove(key@));
            assert(old(self)@.contains_key(key@) <==> old(self).path_lookup(
                nibbles_of(key@),
            ) is Some);
        }
        found
    }
}

/// The store key of the root sentinel: the Keccak-256 digest of the ASCII
/// bytes `__ROOT__`.
pub open spec fn root_sentinel_key() -> Seq<u8> {
    keccak256_of(seq![0x5fu8, 0x5fu8, 0x52u8, 0x4fu8, 0x4fu8, 0x54u8, 0x5fu8, 0x5fu8])@
}

/// The canonical 32-byte digest a root reference commits to.
pub open spec fn ref_digest(nr: NodeRef) -> Seq<u8> {
    match nr {
        NodeRef::Hash(h) => h@,
        NodeRef::Inline(b) => keccak256_of(b@)@,
    }
}

impl Trie {
    /// Serialize the trie into the store and return the root reference.  The
    /// empty trie commits to an empty inline reference.  A sentinel entry
    /// mapping the digest of `__ROOT__` to the canonical root digest is
    /// written last, so later readers can find the root.
    pub fn commit<D: HashDB>(&self, db: &mut D) -> (r: Result<NodeRef, D::Error>)
        requires
            self.inv(),
        ensures
            forall|k: Seq<u8>|
                #![trigger old(db).view().contains_key(k)]
                old(db).view().contains_key(k) && k != root_sentinel_key()
                    ==> final(db).view().contains_key(k) && (final(db).view()[k]
                    == old(db).view()[k] || k == keccak256_of(final(db).view()[k])@),
            forall|k: Seq<u8>|
                #![trigger final(db).view().contains_key(k)]
                final(db).view().contains_key(k) ==> old(db).view().contains_key(k) || k
                    == root_sentinel_key() || k == keccak256_of(final(db).view()[k])@,
            r matches Ok(nr) ==> {
                &&& match self.root_node() {
                    None => nr matches NodeRef::Inline(b) && b@ == Seq::<u8>::empty(),
                    Some(rt) => is_node_ref(nr, rt),
                }
                &&& final(db).view().contains_key(root_sentinel_key())
                &&& final(db).view()[root_sentinel_key()] == ref_digest(nr)
            },
            r is Ok ==> (self.root_node() matches Some(rt) ==> (rlp_bytes(node_rlp(rt)).len() >= 32
                && node_digest(rt) != root_sentinel_key() ==> final(db).view().contains_key(
                node_digest(rt),
            ) && final(db).view()[node_digest(rt)] == rlp_bytes(node_rlp(rt)))),
    {
        let root_ref = match &self.root {
            None => NodeRef::Inline(Vec::new()),
            Some(rt) => {
                match commit_node(db, rt) {
                    Ok(nr) => nr,
                    Err(e) => {
                        return Err(e);
                    },
                }
            },
        };
        // the digest of the ASCII bytes "__ROOT__"
        let sentinel: Vec<u8> = vec![0x5fu8, 0x5fu8, 0x52u8, 0x4fu8, 0x4fu8, 0x54u8, 0x5fu8, 0x5fu8];
        proof {
            assert(sentinel@ =~= seq![0x5fu8, 0x5fu8, 0x52u8, 0x4fu8, 0x4fu8, 0x54u8, 0x5fu8, 0x5fu8]);
        }
        let root_key = crate::storage::keccak256(sentinel.as_slice());
        let digest = root_ref.canonicalize_root();
        let ghost mid = db.view();
        match db.put(root_key, slice_to_vec(digest.as_slice())) {
            Ok(_) => {
                proof {
                    assert(db.view() == mid.insert(root_key@, digest@));
                }
                Ok(root_ref)
            },
            Err(e) => Err(e),
        }
    }
}

/// When a trie's path lookup changed only at one key's nibble path, its map
/// view changed only at that key.
proof fn lemma_map_view_update(before: Trie, after: Trie, key: Seq<u8>, v: Option<Seq<u8>>)
    requires
        key.len() == 32,
        forall|q: Seq<u8>| #[trigger] after.path_lookup(q) == (if q == nibbles_of(key) {
            v
        } else {
            before.path_lookup(q)
        }),
    ensures
        v matches Some(vv) ==> after.as_map() =~= before.as_map().insert(key, vv),
        v is None ==> after.as_map() =~= before.as_map().remove(key),
        before.as_map().contains_key(key) <==> before.path_lookup(nibbles_of(key)) is Some,
{
    assert forall|bk: Seq<u8>| bk.len() == 32 && bk != key implies #[trigger] nibbles_of(bk)
        != nibbles_of(key) by {
        if nibbles_of(bk) == nibbles_of(key) {
            lemma_nibbles_of_injective(bk, key);
        }
    }
}

/// After `set(k, v)`, `get(k)` returns `v`: a trie whose mapping is the old
/// mapping with `k` bound to `v` — which is what `set` ensures — contains `k`
/// with value `v` — which is what `get` returns.
pub proof fn lemma_set_then_get(before: Trie, after: Trie, k: Key32, v: Seq<u8>)
    requires
        after@ == before@.insert(k@, v),
    ensures
        after@.contains_key(k@),
        after@[k@] == v,
{
}

/// The second of two `set`s on the same key wins: inserting `v1` and then
/// `v2` under `k` leaves `k` bound to `v2`.
pub proof fn lemma_set_twice(before: Trie, after: Trie, k: Key32, v1: Seq<u8>, v2: Seq<u8>)
    requires
        after@ == before@.insert(k@, v1).insert(k@, v2),
    ensures
        after@.contains_key(k@),
        after@[k@] == v2,
{
}

/// On an absent key, `get` misses and `delete` reports `false`: both are
/// specified directly by membership in the mapping, so an absent key makes
/// `get` return nothing and `delete` return the absence.
pub proof fn lemma_absent_key(t: Trie, k: Key32)
    requires
        !t@.contains_key(k@),
    ensures
        t@.remove(k@) == t@,
{
    assert(t@.remove(k@) =~= t@);
}

/// After `set(k, v)`, `delete(k)` reports `true` and a later `get(k)`
/// misses: the key is present before the removal and absent after it.
pub proof fn lemma_set_then_delete(before: Trie, mid: Trie, after: Trie, k: Key32, v: Seq<u8>)
    requires
        mid@ == before@.insert(k@, v),
        after@ == mid@.remove(k@),
    ensures
        mid@.contains_key(k@),
        !after@.contains_key(k@),
{
}

/// Canonicality: two tries in canonical form that hold the same mapping are
/// structurally equal, and serialize identically, so committing them yields
/// the same root reference and digest whatever the operations that built
/// them.  In particular, deleting a key restores a tree structurally equal
/// to the one that stood before that key was inserted.
pub proof fn lemma_commit_canonical(t1: Trie, t2: Trie)
    requires
        t1.inv(),
        t2.inv(),
        t1@ == t2@,
    ensures
        match (t1.root_node(), t2.root_node()) {
            (None, None) => true,
            (Some(r1), Some(r2)) => crate::node::same_shape(r1, r2) && crate::storage::node_rlp(r1)
                == crate::storage::node_rlp(r2),
            _ => false,
        },
{
    assert forall|q: Seq<u8>| #[trigger] t1.path_lookup(q) == t2.path_lookup(q) by {
        lemma_trie_lookup_from_map(t1, t2, q);
        lemma_trie_lookup_from_map(t2, t1, q);
    }
    match (t1.root_node(), t2.root_node()) {
        (None, None) => {},
        (Some(r1), Some(r2)) => {
            assert forall|q: Seq<u8>| #[trigger] r1.lookup(q) == r2.lookup(q) by {
                assert(t1.path_lookup(q) == r1.lookup(q));
                assert(t2.path_lookup(q) == r2.lookup(q));
            }
            crate::node::lemma_canonical_unique(r1, r2, 64);
            crate::storage::lemma_same_shape_same_rlp(r1, r2);
        },
        (Some(r1), None) => {
            let w = crate::node::lemma_wf_lookup_nonempty(r1, 64);
            assert(t1.path_lookup(w) is Some);
            assert(t2.path_lookup(w) is None);
        },
        (None, Some(r2)) => {
            let w = crate::node::lemma_wf_lookup_nonempty(r2, 64);
            assert(t2.path_lookup(w) is Some);
            assert(t1.path_lookup(w) is None);
        },
    }
}

/// A stored path of one trie is stored with the same value in another trie
/// holding the same mapping: every 64-nibble path is the nibble expansion of
/// a 32-byte key.
proof fn lemma_trie_lookup_from_map(t1: Trie, t2: Trie, q: Seq<u8>)
    requires
        t1.inv(),
        t2.inv(),
        t1@ == t2@,
    ensures
        t1.path_lookup(q) matches Some(v) ==> t2.path_lookup(q) == Some(v),
{
    if t1.path_lookup(q) is Some {
        let v = t1.path_lookup(q)->0;
        let r1 = t1.root_node()->0;
        crate::node::lemma_lookup_key_form(r1, 64, q);
        let bk = crate::storage::pack_nibbles(q);
        crate::storage::lemma_pack_unpack(q);
        assert(nibbles_of(bk) == q);
        assert(bk.len() == 32);
        assert(t1@.contains_key(bk) && t1@[bk] == v);
        assert(t2@.contains_key(bk) && t2@[bk] == v);
        assert(t2.path_lookup(nibbles_of(bk)) is Some);
        assert(t2.path_lookup(q) == Some(v));
    }
}

} // verus!
