//! The trie's node structure: branch, extension and leaf nodes, with lookup,
//! insert and delete.
//!
//! The mathematical model of a node is the partial map `lookup` from nibble
//! paths to values.  Every operation carries a contract over that model, and
//! the canonical-form invariants are the spec functions [`Node::wf`] (shape:
//! minimal branches and extensions) and [`Node::has_depth`] (every stored key
//! consumes exactly the same number of nibbles, as 32-byte keys do).

use crate::path::{NibblePath, bytes_eq, head_to, is_nibble_seq, lcp_len, tail_from};
use vstd::prelude::*;
use vstd::slice::slice_to_vec;

verus! {

/// A 16-way fork.  `children[s]` holds the subtree of all keys whose next
/// nibble is `s`; `value` is set only when a key ends at this node, which
/// cannot happen for fixed-length keys.
#[derive(Debug, PartialEq, Eq)]
pub struct BranchNode {
    pub children: Vec<Option<Box<Node>>>,
    pub value: Option<Vec<u8>>,
}

/// A shared run of nibbles above a branch.
#[derive(Debug, PartialEq, Eq)]
pub struct ExtensionNode {
    pub path: NibblePath,
    pub child: Box<Node>,
}

/// A terminal node: the rest of the key's path, and the stored value.
#[derive(Debug, PartialEq, Eq)]
pub struct LeafNode {
    pub path: NibblePath,
    pub value: Vec<u8>,
}

/// A Merkle Patricia Trie node.
#[derive(Debug, PartialEq, Eq)]
pub enum Node {
    Branch(BranchNode),
    Extension(ExtensionNode),
    Leaf(LeafNode),
}

/// The outcome of a recursive delete.  On `DeletedAndReplace(n)` the caller
/// must install `n` in place of the node it called into.
#[derive(Debug)]
pub enum DeleteResult {
    NotFound,
    Deleted,
    DeletedAndReplace(Node),
}

/// How many of these child slots are occupied.
pub open spec fn num_children(cs: Seq<Option<Box<Node>>>) -> nat
    decreases cs.len(),
{
    if cs.len() == 0 {
        0
    } else {
        num_children(cs.drop_last()) + if cs.last() is Some {
            1nat
        } else {
            0nat
        }
    }
}

impl Node {
    /// The value stored under the nibble path `key`, if any.  This partial
    /// map is the model of a node: every operation is specified against it.
    pub open spec fn lookup(self, key: Seq<u8>) -> Option<Seq<u8>>
        decreases self,
    {
        match self {
            Node::Leaf(leaf) => {
                if key == leaf.path@ {
                    Some(leaf.value@)
                } else {
                    None
                }
            },
            Node::Extension(ext) => {
                let plen = ext.path@.len() as int;
                if plen <= key.len() && key.take(plen) == ext.path@ {
                    ext.child.lookup(key.skip(plen))
                } else {
                    None
                }
            },
            Node::Branch(b) => {
                if key.len() == 0 {
                    match b.value {
                        Some(v) => Some(v@),
                        None => None,
                    }
                } else {
                    let i = key[0] as int;
                    if i < b.children@.len() {
                        match b.children@[i] {
                            Some(c) => c.lookup(key.skip(1)),
                            None => None,
                        }
                    } else {
                        None
                    }
                }
            },
        }
    }

    /// Canonical form: a branch has 16 slots and at least two children or a
    /// value; an extension has a nonempty path and a branch child; all paths
    /// consist of nibbles.
    pub open spec fn wf(self) -> bool
        decreases self,
    {
        match self {
            Node::Leaf(leaf) => is_nibble_seq(leaf.path@),
            Node::Extension(ext) => {
                &&& is_nibble_seq(ext.path@)
                &&& ext.path@.len() > 0
                &&& *ext.child is Branch
                &&& ext.child.wf()
            },
            Node::Branch(b) => {
                &&& b.children@.len() == 16
                &&& num_children(b.children@) >= 2 || b.value is Some
                &&& forall|i: int|
                    0 <= i < 16 ==> (#[trigger] b.children@[i] matches Some(c) ==> c.wf())
            },
        }
    }

    /// Every key below this node consumes exactly `len` more nibbles.  For a
    /// trie over 32-byte keys the root has depth 64; a branch then never
    /// carries a value of its own.
    pub open spec fn has_depth(self, len: int) -> bool
        decreases self,
    {
        match self {
            Node::Leaf(leaf) => leaf.path@.len() == len,
            Node::Extension(ext) => {
                &&& ext.path@.len() <= len
                &&& ext.child.has_depth(len - ext.path@.len())
            },
            Node::Branch(b) => {
                &&& len >= 1
                &&& b.value is None
                &&& forall|i: int|
                    0 <= i < b.children@.len() ==> (#[trigger] b.children@[i] matches Some(c)
                        ==> c.has_depth(len - 1))
            },
        }
    }

    /// Every branch in this tree has its 16 child slots, so the tree can be
    /// walked without running out of bounds.  Canonical form implies it.
    pub open spec fn branches_sized(self) -> bool
        decreases self,
    {
        match self {
            Node::Leaf(_) => true,
            Node::Extension(ext) => ext.child.branches_sized(),
            Node::Branch(b) => {
                &&& b.children@.len() == 16
                &&& forall|i: int|
                    0 <= i < 16 ==> (#[trigger] b.children@[i] matches Some(c)
                        ==> c.branches_sized())
            },
        }
    }

    /// A structurally equal copy of this tree: same shapes, same paths, same
    /// values.
    pub fn duplicate(&self) -> (r: Node)
        requires
            self.branches_sized(),
        ensures
            same_shape(*self, r),
        decreases *self,
    {
        match self {
            Node::Leaf(leaf) => Node::Leaf(
                LeafNode {
                    path: NibblePath::new(slice_to_vec(leaf.path.nibbles.as_slice())),
                    value: slice_to_vec(leaf.value.as_slice()),
                },
            ),
            Node::Extension(ext) => Node::Extension(
                ExtensionNode {
                    path: NibblePath::new(slice_to_vec(ext.path.nibbles.as_slice())),
                    child: Box::new(ext.child.duplicate()),
                },
            ),
            Node::Branch(b) => {
                let mut children: Vec<Option<Box<Node>>> = Vec::new();
                let n = b.children.len();
                let mut i: usize = 0;
                while i < n
                    invariant
                        self is Branch && (*self)->Branch_0 == *b,
                        self.branches_sized(),
                        n == b.children@.len(),
                        i <= n,
                        children@.len() == i,
                        forall|j: int|
                            0 <= j < i ==> (match (b.children@[j], #[trigger] children@[j]) {
                                (None, None) => true,
                                (Some(c1), Some(c2)) => same_shape(*c1, *c2),
                                _ => false,
                            }),
                    decreases n - i,
                {
                    match &b.children[i] {
                        Some(c) => {
                            proof {
                                assert(decreases_to!(*self => (*self)->Branch_0));
                                assert(decreases_to!(
                                    (*self)->Branch_0 => (*self)->Branch_0.children));
                                assert(decreases_to!(
                                    (*self)->Branch_0.children => (*self)->Branch_0.children@));
                                assert(decreases_to!(
                                    (*self)->Branch_0.children@ => (*self)->Branch_0.children@[
                                i as int]));
                                let opt = (*self)->Branch_0.children@[i as int];
                                assert(decreases_to!(opt => opt->0));
                                assert(opt->0 == *c);
                            }
                            children.push(Some(Box::new(c.duplicate())));
                        },
                        None => {
                            children.push(None);
                        },
                    }
                    i += 1;
                }
                let value: Option<Vec<u8>> = match &b.value {
                    Some(v) => Some(slice_to_vec(v.as_slice())),
                    None => None,
                };
                let r = Node::Branch(BranchNode { children, value });
                proof {
                    assert(same_shape(*self, r));
                }
                r
            },
        }
    }

    /// A placeholder node, used while a node is taken apart and rebuilt.
    pub fn dummy() -> (r: Node)
        ensures
            r is Branch,
            forall|k: Seq<u8>| #[trigger] r.lookup(k) is None,
    {
        let b = BranchNode::new();
        Node::Branch(b)
    }

    /// A fresh leaf holding `value` at `path`.
    pub fn new_leaf(path: NibblePath, value: Vec<u8>) -> (r: Node)
        ensures
            r == Node::Leaf(LeafNode { path, value }),
            forall|k: Seq<u8>| #[trigger] r.lookup(k) == (if k == path@ {
                Some(value@)
            } else {
                None::<Seq<u8>>
            }),
            is_nibble_seq(path@) ==> r.wf(),
            r.has_depth(path@.len() as int),
    {
        Node::Leaf(LeafNode::new(path, value))
    }

    /// Insert `value` under the nibble path `path`, keeping the tree in
    /// canonical form.  Overwrites any value already stored at `path`.
    pub fn insert(&mut self, path: NibblePath, value: Vec<u8>)
        requires
            old(self).wf(),
            old(self).has_depth(path@.len() as int),
            is_nibble_seq(path@),
        ensures
            final(self).wf(),
            final(self).has_depth(path@.len() as int),
            forall|q: Seq<u8>| #[trigger] final(self).lookup(q) == (if q == path@ {
                Some(value@)
            } else {
                old(self).lookup(q)
            }),
    {
        let mut cur = Node::dummy();
        core::mem::swap(self, &mut cur);
        let nn = insert_node(cur, path, value);
        *self = nn;
    }

    /// Delete the value at the nibble path `path`.  On `NotFound` and
    /// `Deleted` this node remains the (possibly restructured) subtree root;
    /// on `DeletedAndReplace(m)` the caller must install `m` in place of this
    /// node, which is left holding an empty placeholder until then.
    pub fn delete(&mut self, path: NibblePath) -> (r: DeleteResult)
        requires
            old(self).wf(),
            old(self).has_depth(path@.len() as int),
            is_nibble_seq(path@),
            !(*old(self) is Leaf),
        ensures
            r is NotFound <==> old(self).lookup(path@) is None,
            !(r is DeletedAndReplace) ==> {
                &&& final(self).wf()
                &&& final(self).has_depth(path@.len() as int)
                &&& forall|q: Seq<u8>| #[trigger] final(self).lookup(q) == (if q == path@ {
                    None
                } else {
                    old(self).lookup(q)
                })
            },
            r matches DeleteResult::DeletedAndReplace(m) ==> {
                &&& m.wf()
                &&& m.has_depth(path@.len() as int)
                &&& forall|q: Seq<u8>| #[trigger] m.lookup(q) == (if q == path@ {
                    None
                } else {
                    old(self).lookup(q)
                })
            },
    {
        let mut cur = Node::dummy();
        core::mem::swap(self, &mut cur);
        match delete_node(cur, path) {
            DeleteStep::Missing(m) => {
                *self = m;
                DeleteResult::NotFound
            },
            DeleteStep::Removed(m) => {
                *self = m;
                DeleteResult::Deleted
            },
            DeleteStep::Collapsed(m) => {
                DeleteResult::DeletedAndReplace(m)
            },
        }
    }

    /// Walk the trie along `path` and return a reference to the stored value,
    /// or `None` when the path is absent.
    pub fn get(&self, path: NibblePath) -> (r: Option<&Vec<u8>>)
        requires
            self.branches_sized(),
        ensures
            match r {
                Some(v) => self.lookup(path@) == Some(v@),
                None => self.lookup(path@) is None,
            },
        decreases *self,
    {
        match self {
            Node::Leaf(leaf) => {
                if bytes_eq(leaf.path.nibbles.as_slice(), path.nibbles.as_slice()) {
                    Some(&leaf.value)
                } else {
                    None
                }
            },
            Node::Extension(ext) => {
                let plen = ext.path.nibbles.len();
                if plen <= path.nibbles.len() && lcp_len(
                    ext.path.nibbles.as_slice(),
                    path.nibbles.as_slice(),
                ) == plen {
                    proof {
                        assert(ext.path@.take(plen as int) =~= ext.path@);
                    }
                    let rem = NibblePath::new(tail_from(path.nibbles.as_slice(), plen));
                    ext.child.get(rem)
                } else {
                    proof {
                        if plen <= path@.len() && path@.take(plen as int) == ext.path@ {
                            assert(ext.path@.take(plen as int) =~= ext.path@);
                            assert(forall|j: int|
                                0 <= j < plen ==> ext.path@[j] == #[trigger] path@[j]);
                        }
                    }
                    None
                }
            },
            Node::Branch(b) => {
                if path.nibbles.len() == 0 {
                    match &b.value {
                        Some(v) => Some(v),
                        None => None,
                    }
                } else {
                    let idx = path.nibbles[0] as usize;
                    if idx < b.children.len() {
                        match &b.children[idx] {
                            Some(c) => {
                                let rem = NibblePath::new(tail_from(path.nibbles.as_slice(), 1));
                                c.get(rem)
                            },
                            None => None,
                        }
                    } else {
                        None
                    }
                }
            },
        }
    }
}

impl Node {
    /// Walk the tree and check the canonical-form invariants and the uniform
    /// key depth: the executable counterpart of `wf` and `has_depth`.
    pub fn check_invariants(&self, depth: usize) -> (r: bool)
        ensures
            r == (self.wf() && self.has_depth(depth as int)),
        decreases *self,
    {
        match self {
            Node::Leaf(leaf) => is_nibble_vec(&leaf.path.nibbles) && leaf.path.nibbles.len()
                == depth,
            Node::Extension(ext) => {
                let plen = ext.path.nibbles.len();
                is_nibble_vec(&ext.path.nibbles) && plen > 0 && plen <= depth && (matches!(
                    &*ext.child,
                    Node::Branch(_)
                )) && ext.child.check_invariants(depth - plen)
            },
            Node::Branch(b) => {
                if depth < 1 || b.children.len() != 16 || b.value.is_some() {
                    return false;
                }
                let ghost cs = b.children@;
                let mut count: usize = 0;
                let mut i: usize = 0;
                while i < 16
                    invariant
                        self is Branch && (*self)->Branch_0 == *b,
                        b.children@ == cs,
                        b.value is None,
                        cs.len() == 16,
                        depth >= 1,
                        i <= 16,
                        count <= i,
                        count == num_children(cs.take(i as int)),
                        forall|j: int|
                            0 <= j < i ==> (#[trigger] cs[j] matches Some(c) ==> c.wf()
                                && c.has_depth(depth - 1)),
                    decreases 16 - i,
                {
                    proof {
                        assert(cs.take(i + 1).drop_last() =~= cs.take(i as int));
                        assert(cs.take(i + 1).last() == cs[i as int]);
                        assert(decreases_to!(*self => (*self)->Branch_0));
                        assert(decreases_to!((*self)->Branch_0 => (*self)->Branch_0.children));
                        assert(decreases_to!(
                            (*self)->Branch_0.children => (*self)->Branch_0.children@));
                        assert(decreases_to!(
                            (*self)->Branch_0.children@ => (*self)->Branch_0.children@[i as int]));
                    }
                    match &b.children[i] {
                        Some(c) => {
                            proof {
                                let opt = (*self)->Branch_0.children@[i as int];
                                assert(decreases_to!(opt => opt->0));
                                assert(opt->0 == *c);
                            }
                            if !c.check_invariants(depth - 1) {
                                return false;
                            }
                            count = count + 1;
                        },
                        None => {},
                    }
                    i += 1;
                }
                proof {
                    assert(cs.take(16) =~= cs);
                }
                count >= 2
            },
        }
    }
}

/// Whether every element of `v` is a nibble.
pub fn is_nibble_vec(v: &Vec<u8>) -> (r: bool)
    ensures
        r == is_nibble_seq(v@),
{
    let n = v.len();
    let mut i: usize = 0;
    while i < n
        invariant
            n == v@.len(),
            i <= n,
            forall|j: int| 0 <= j < i ==> v@[j] < 16,
        decreases n - i,
    {
        if v[i] >= 16 {
            return false;
        }
        i += 1;
    }
    true
}

impl BranchNode {
    /// An empty branch: 16 empty slots, no value.
    pub fn new() -> (r: BranchNode)
        ensures
            r.children@.len() == 16,
            forall|i: int| 0 <= i < 16 ==> r.children@[i] is None,
            r.value is None,
            num_children(r.children@) == 0,
    {
        let mut children: Vec<Option<Box<Node>>> = Vec::new();
        let mut i: usize = 0;
        while i < 16
            invariant
                i <= 16,
                children@.len() == i,
                forall|j: int| 0 <= j < i ==> children@[j] is None,
            decreases 16 - i,
        {
            children.push(None);
            i += 1;
        }
        proof {
            lemma_num_children_all_none(children@);
        }
        BranchNode { children, value: None }
    }

    /// Install a fresh leaf in slot `slot`.
    pub fn add_leaf(&mut self, slot: usize, path: NibblePath, value: Vec<u8>)
        requires
            slot < old(self).children@.len(),
        ensures
            final(self).children@ == old(self).children@.update(
                slot as int,
                Some(Box::new(Node::Leaf(LeafNode { path, value }))),
            ),
            final(self).value == old(self).value,
    {
        let child_leaf = Node::Leaf(LeafNode::new(path, value));
        self.children[slot] = Some(Box::new(child_leaf));
    }

    /// Install `child` in slot `slot`.
    pub fn add_child(&mut self, slot: usize, child: Box<Node>)
        requires
            slot < old(self).children@.len(),
        ensures
            final(self).children@ == old(self).children@.update(slot as int, Some(child)),
            final(self).value == old(self).value,
    {
        self.children[slot] = Some(child);
    }
}

impl ExtensionNode {
    /// An extension with path `path` above `child`.
    pub fn new(path: NibblePath, child: Box<Node>) -> (r: ExtensionNode)
        ensures
            r == (ExtensionNode { path, child }),
    {
        ExtensionNode { path, child }
    }

    /// Insert `value` at `path` into the tree rooted at this extension.  When
    /// the extension's path is a prefix of `path` the insert descends into
    /// the child; otherwise the extension splits at the divergence point and
    /// a branch takes its place, below a shared extension when a common
    /// prefix remains.
    pub fn merge_with(self, path: NibblePath, value: Vec<u8>) -> (r: Node)
        requires
            Node::Extension(self).wf(),
            Node::Extension(self).has_depth(path@.len() as int),
            is_nibble_seq(path@),
        ensures
            r.wf(),
            r.has_depth(path@.len() as int),
            forall|q: Seq<u8>| #[trigger] r.lookup(q) == (if q == path@ {
                Some(value@)
            } else {
                Node::Extension(self).lookup(q)
            }),
        decreases self.child, 1int,
    {
        let ghost a = self.path@;
        let ghost b = path@;
        let ghost c0 = *self.child;
        let a_len = self.path.nibbles.len();
        let bhead = head_to(path.nibbles.as_slice(), a_len);
        let k = lcp_len(self.path.nibbles.as_slice(), bhead.as_slice());
        proof {
            assert(bhead@.len() == a_len);
            assert(k <= a_len);
            if k < a_len {
                assert(a[k as int] != bhead@[k as int]);
                assert(bhead@[k as int] == b[k as int]);
            }
        }
        if k == a_len {
            // the extension path is a prefix of the key: descend
            proof {
                assert forall|j: int| 0 <= j < a_len implies a[j] == b[j] by {
                    assert(a.take(k as int)[j] == a[j]);
                    assert(bhead@.take(k as int)[j] == bhead@[j]);
                }
                assert(a =~= b.take(a_len as int));
            }
            let rem = NibblePath::new(tail_from(path.nibbles.as_slice(), a_len));
            let new_child = insert_node(*self.child, rem, value);
            let r = Node::Extension(ExtensionNode::new(self.path, Box::new(new_child)));
            proof {
                assert forall|q: Seq<u8>| #[trigger] r.lookup(q) == (if q == b {
                    Some(value@)
                } else {
                    Node::Extension(self).lookup(q)
                }) by {
                    lemma_seq_split_at(q, b, a_len as int);
                    if a_len <= q.len() && q.take(a_len as int) == a {
                        assert(r.lookup(q) == new_child.lookup(q.skip(a_len as int)));
                        assert(Node::Extension(self).lookup(q) == c0.lookup(q.skip(a_len as int)));
                        if q.skip(a_len as int) == rem@ {
                            assert(q == b);
                        }
                    } else {
                        assert(r.lookup(q) is None);
                        assert(Node::Extension(self).lookup(q) is None);
                        assert(q != b) by {
                            if q == b {
                                assert(b.take(a_len as int) == a);
                            }
                        }
                    }
                }
            }
            return r;
        }
        // the paths diverge at index k < a_len: split
        let mut branch = BranchNode::new();
        let ghost cs0 = branch.children@;
        let ext_slot = self.path.nibbles[k] as usize;
        let sub: Box<Node> = if k + 1 == a_len {
            self.child
        } else {
            let sub_path = NibblePath::new(tail_from(self.path.nibbles.as_slice(), k + 1));
            proof {
                assert(is_nibble_seq(sub_path@)) by {
                    assert forall|j: int| 0 <= j < sub_path@.len() implies sub_path@[j] < 16 by {
                        assert(sub_path@[j] == a[k + 1 + j]);
                    }
                }
            }
            Box::new(Node::Extension(ExtensionNode { path: sub_path, child: self.child }))
        };
        proof {
            assert forall|t: Seq<u8>| #[trigger] sub.lookup(t) == prefixed_lookup(
                a.skip(k + 1),
                c0,
                t,
            ) by {
                if k + 1 == a_len as int {
                    assert(a.skip(k + 1).len() == 0);
                    assert(t.take(0) =~= a.skip(k + 1));
                    assert(t.skip(0) =~= t);
                } else {
                    assert(sub->Extension_0.path@ == a.skip(k + 1));
                }
            }
            assert(sub.wf() && sub.has_depth(b.len() - k - 1));
        }
        branch.add_child(ext_slot, sub);
        let ghost cs1 = branch.children@;
        let new_slot = path.nibbles[k] as usize;
        let new_rem = NibblePath::new(tail_from(path.nibbles.as_slice(), k + 1));
        proof {
            assert(is_nibble_seq(new_rem@)) by {
                assert forall|j: int| 0 <= j < new_rem@.len() implies new_rem@[j] < 16 by {
                    assert(new_rem@[j] == b[k + 1 + j]);
                }
            }
            assert(ext_slot != new_slot);
        }
        branch.add_leaf(new_slot, new_rem, value);
        let branch_node = Node::Branch(branch);
        proof {
            let cs = branch_node->Branch_0.children@;
            lemma_num_children_update(cs0, ext_slot as int, cs1[ext_slot as int]);
            lemma_num_children_update(cs1, new_slot as int, cs[new_slot as int]);
            assert(num_children(cs) == 2);
            assert(branch_node.wf()) by {
                assert forall|i: int|
                    0 <= i < 16 implies (#[trigger] cs[i] matches Some(c) ==> c.wf()) by {
                    if i != ext_slot as int && i != new_slot as int {
                        assert(cs[i] is None);
                    }
                }
            }
            assert(branch_node.has_depth(b.len() - k)) by {
                assert forall|i: int|
                    0 <= i < 16 implies (#[trigger] cs[i] matches Some(c) ==> c.has_depth(
                    b.len() - k - 1,
                )) by {
                    if i != ext_slot as int && i != new_slot as int {
                        assert(cs[i] is None);
                    }
                }
            }
            lemma_ext_split_branch(branch_node, c0, a, b, value@, k as int);
        }
        if k > 0 {
            let prefix = NibblePath::new(head_to(self.path.nibbles.as_slice(), k));
            let r = Node::Extension(ExtensionNode::new(prefix, Box::new(branch_node)));
            proof {
                assert(is_nibble_seq(prefix@)) by {
                    assert forall|j: int| 0 <= j < prefix@.len() implies prefix@[j] < 16 by {
                        assert(prefix@[j] == a[j]);
                    }
                }
                assert(a.take(k as int) == b.take(k as int)) by {
                    assert(bhead@.take(k as int) =~= b.take(k as int));
                }
                lemma_ext_split_wrap(r, branch_node, c0, a, b, value@, k as int);
            }
            r
        } else {
            proof {
                assert forall|q: Seq<u8>| #[trigger] branch_node.lookup(q) == (if q == b {
                    Some(value@)
                } else {
                    Node::Extension(self).lookup(q)
                }) by {
                    assert(b.skip(0) =~= b);
                    assert(a.skip(0) =~= a);
                    lemma_prefixed_is_ext_lookup(self, q);
                    if q == b.skip(0) {
                        assert(q == b);
                    }
                }
            }
            branch_node
        }
    }
}

/// Lookup below a path prefix `p`: the value of `t` in a virtual extension
/// with path `p` over the node `c`.
pub open spec fn prefixed_lookup(p: Seq<u8>, c: Node, t: Seq<u8>) -> Option<Seq<u8>> {
    if p.len() <= t.len() && t.take(p.len() as int) == p {
        c.lookup(t.skip(p.len() as int))
    } else {
        None
    }
}

/// An extension node's lookup is `prefixed_lookup` of its path over its child.
proof fn lemma_prefixed_is_ext_lookup(ext: ExtensionNode, q: Seq<u8>)
    ensures
        Node::Extension(ext).lookup(q) == prefixed_lookup(ext.path@, *ext.child, q),
{
}

/// Peeling one nibble off the front of a prefix.
proof fn lemma_prefixed_peel(p: Seq<u8>, c: Node, t: Seq<u8>)
    requires
        p.len() > 0,
    ensures
        prefixed_lookup(p, c, t) == (if t.len() > 0 && t[0] == p[0] {
            prefixed_lookup(p.skip(1), c, t.skip(1))
        } else {
            None::<Seq<u8>>
        }),
{
    if t.len() > 0 && t[0] == p[0] {
        let n = p.len() as int;
        if p.len() <= t.len() {
            assert(t.skip(1).take(n - 1) =~= t.take(n).skip(1)) by {
                assert forall|j: int| 0 <= j < n - 1 implies t.skip(1).take(n - 1)[j] == t.take(
                    n,
                ).skip(1)[j] by {
                    assert(t.skip(1).take(n - 1)[j] == t[j + 1]);
                    assert(t.take(n).skip(1)[j] == t[j + 1]);
                }
            }
            assert((t.take(n) == p) <==> (t.skip(1).take(n - 1) == p.skip(1))) by {
                if t.skip(1).take(n - 1) == p.skip(1) {
                    lemma_seq_head_decompose(t.take(n), p);
                    assert(t.take(n)[0] == t[0]);
                    assert(t.take(n).skip(1) =~= t.skip(1).take(n - 1));
                }
                if t.take(n) == p {
                    assert(t.take(n).skip(1) =~= p.skip(1));
                }
            }
            assert(t.skip(1).skip(n - 1) =~= t.skip(n));
        }
    } else {
        if p.len() <= t.len() && t.take(p.len() as int) == p {
            assert(t.take(p.len() as int)[0] == t[0]);
        }
    }
}

/// A prefix lookup through `p` splits at any cut `k` of `p`.
proof fn lemma_prefixed_split(p: Seq<u8>, c: Node, t: Seq<u8>, k: int)
    requires
        0 <= k <= p.len(),
    ensures
        prefixed_lookup(p, c, t) == (if k <= t.len() && t.take(k) == p.take(k) {
            prefixed_lookup(p.skip(k), c, t.skip(k))
        } else {
            None::<Seq<u8>>
        }),
{
    let n = p.len() as int;
    if k <= t.len() && t.take(k) == p.take(k) {
        assert(t.skip(k).take(n - k) =~= t.take(n).skip(k) || t.len() < n) by {
            if n <= t.len() {
                assert forall|j: int| 0 <= j < n - k implies t.skip(k).take(n - k)[j] == t.take(
                    n,
                ).skip(k)[j] by {
                    assert(t.skip(k).take(n - k)[j] == t[j + k]);
                    assert(t.take(n).skip(k)[j] == t[j + k]);
                }
                assert(t.skip(k).take(n - k) =~= t.take(n).skip(k));
            }
        }
        if n <= t.len() {
            assert((t.take(n) == p) <==> (t.skip(k).take(n - k) == p.skip(k))) by {
                if t.skip(k).take(n - k) == p.skip(k) {
                    lemma_seq_split_at(t.take(n), p, k);
                    assert(t.take(n).take(k) =~= t.take(k));
                    assert(t.take(n).skip(k) =~= t.skip(k).take(n - k));
                }
                if t.take(n) == p {
                    assert(t.take(n).skip(k) =~= p.skip(k));
                    assert(t.skip(k).take(n - k) =~= t.take(n).skip(k));
                }
            }
            assert(t.skip(k).skip(n - k) =~= t.skip(n));
        }
    } else {
        if n <= t.len() && t.take(n) == p {
            assert(k <= t.len());
            assert(t.take(k) =~= p.take(k)) by {
                assert forall|j: int| 0 <= j < k implies t.take(k)[j] == p.take(k)[j] by {
                    assert(t.take(n)[j] == t[j]);
                }
            }
        }
    }
}

/// Lookup in the branch built by an extension split: one slot holds the old
/// subtree below `a.skip(k + 1)`, the other a fresh leaf for `b.skip(k + 1)`.
proof fn lemma_ext_split_branch(bn: Node, c: Node, a: Seq<u8>, b: Seq<u8>, vb: Seq<u8>, k: int)
    requires
        0 <= k < a.len(),
        a.len() <= b.len(),
        a[k] != b[k],
        a[k] < 16,
        b[k] < 16,
        bn matches Node::Branch(br) && {
            &&& br.children@.len() == 16
            &&& br.value is None
            &&& (br.children@[a[k] as int] matches Some(sub) && forall|t: Seq<u8>| #[trigger]
                sub.lookup(t) == prefixed_lookup(a.skip(k + 1), c, t))
            &&& (br.children@[b[k] as int] matches Some(l) && *l matches Node::Leaf(leaf)
                && leaf.path@ == b.skip(k + 1) && leaf.value@ == vb)
            &&& forall|i: int|
                0 <= i < 16 && i != a[k] && i != b[k] ==> #[trigger] br.children@[i] is None
        },
    ensures
        forall|q: Seq<u8>| #[trigger] bn.lookup(q) == (if q == b.skip(k) {
            Some(vb)
        } else {
            prefixed_lookup(a.skip(k), c, q)
        }),
{
    let br = bn->Branch_0;
    assert forall|q: Seq<u8>| #[trigger] bn.lookup(q) == (if q == b.skip(k) {
        Some(vb)
    } else {
        prefixed_lookup(a.skip(k), c, q)
    }) by {
        lemma_seq_head_decompose(q, b.skip(k));
        assert(b.skip(k)[0] == b[k] && b.skip(k).skip(1) =~= b.skip(k + 1));
        assert(a.skip(k)[0] == a[k] && a.skip(k).skip(1) =~= a.skip(k + 1));
        lemma_prefixed_peel(a.skip(k), c, q);
        if q.len() == 0 {
            assert(bn.lookup(q) is None);
        } else {
            let i = q[0] as int;
            if i == a[k] as int {
                let s = br.children@[i]->0;
                assert(bn.lookup(q) == s.lookup(q.skip(1)));
                assert(s.lookup(q.skip(1)) == prefixed_lookup(a.skip(k + 1), c, q.skip(1)));
                assert(q != b.skip(k));
            } else if i == b[k] as int {
                let s = br.children@[i]->0;
                assert(bn.lookup(q) == s.lookup(q.skip(1)));
            } else {
                if 0 <= i < 16 {
                    assert(br.children@[i] is None);
                }
                assert(bn.lookup(q) is None);
            }
        }
    }
}

/// Lookup through the shared extension above a split branch.
proof fn lemma_ext_split_wrap(
    r: Node,
    bn: Node,
    c: Node,
    a: Seq<u8>,
    b: Seq<u8>,
    vb: Seq<u8>,
    k: int,
)
    requires
        0 < k < a.len(),
        a.len() <= b.len(),
        a.take(k) == b.take(k),
        r matches Node::Extension(ext) && ext.path@ == a.take(k) && *ext.child == bn,
        forall|q: Seq<u8>| #[trigger] bn.lookup(q) == (if q == b.skip(k) {
            Some(vb)
        } else {
            prefixed_lookup(a.skip(k), c, q)
        }),
    ensures
        forall|q: Seq<u8>| #[trigger] r.lookup(q) == (if q == b {
            Some(vb)
        } else {
            prefixed_lookup(a, c, q)
        }),
{
    assert forall|q: Seq<u8>| #[trigger] r.lookup(q) == (if q == b {
        Some(vb)
    } else {
        prefixed_lookup(a, c, q)
    }) by {
        lemma_prefixed_split(a, c, q, k);
        lemma_seq_split_at(q, b, k);
        assert(a.take(k).len() == k);
        if k <= q.len() && q.take(k) == a.take(k) {
            assert(r.lookup(q) == bn.lookup(q.skip(k)));
            if q.skip(k) == b.skip(k) {
                assert(q.take(k) == b.take(k));
            }
        } else {
            assert(r.lookup(q) is None);
            assert(q != b) by {
                if q == b {
                    assert(q.take(k) =~= b.take(k));
                }
            }
        }
    }
}

impl LeafNode {
    /// A leaf holding `value` at `path`.
    pub fn new(path: NibblePath, value: Vec<u8>) -> (r: LeafNode)
        ensures
            r == (LeafNode { path, value }),
    {
        LeafNode { path, value }
    }

    /// Insert `value` at `path` into a tree that consists of this single
    /// leaf: overwrite on the same path, otherwise split at the divergence
    /// point into a branch, below a shared extension when a common prefix
    /// exists.
    pub fn diverge_with(&self, path: NibblePath, value: Vec<u8>) -> (r: Node)
        requires
            is_nibble_seq(self.path@),
            is_nibble_seq(path@),
            self.path@.len() == path@.len(),
        ensures
            r.wf(),
            r.has_depth(path@.len() as int),
            forall|q: Seq<u8>| #[trigger] r.lookup(q) == (if q == path@ {
                Some(value@)
            } else {
                Node::Leaf(*self).lookup(q)
            }),
    {
        let ghost a = self.path@;
        let ghost b = path@;
        let a_len = self.path.nibbles.len();
        let k = lcp_len(self.path.nibbles.as_slice(), path.nibbles.as_slice());
        if k == a_len {
            // equal lengths, full common prefix: identical paths
            proof {
                assert(a.take(a.len() as int) =~= a);
                assert(b.take(b.len() as int) =~= b);
            }
            let r = Node::Leaf(LeafNode::new(path, value));
            return r;
        }
        // the paths diverge at index k
        let mut branch = BranchNode::new();
        let ghost cs0 = branch.children@;
        let old_slot = self.path.nibbles[k] as usize;
        let old_rem = NibblePath::new(tail_from(self.path.nibbles.as_slice(), k + 1));
        let old_val = slice_to_vec(self.value.as_slice());
        branch.add_leaf(old_slot, old_rem, old_val);
        let ghost cs1 = branch.children@;
        let new_slot = path.nibbles[k] as usize;
        let new_rem = NibblePath::new(tail_from(path.nibbles.as_slice(), k + 1));
        proof {
            assert(a[k as int] != b[k as int]);
            assert(old_slot < 16 && new_slot < 16 && old_slot != new_slot);
        }
        branch.add_leaf(new_slot, new_rem, value);
        let branch_node = Node::Branch(branch);
        proof {
            let bn = branch_node;
            let cs = bn->Branch_0.children@;
            assert(cs.len() == 16);
            lemma_num_children_update(cs0, old_slot as int, cs1[old_slot as int]);
            lemma_num_children_update(cs1, new_slot as int, cs[new_slot as int]);
            assert(num_children(cs) == 2);
            assert(is_nibble_seq(old_rem@)) by {
                assert forall|j: int| 0 <= j < old_rem@.len() implies old_rem@[j] < 16 by {
                    assert(old_rem@[j] == a[k + 1 + j]);
                }
            }
            assert(is_nibble_seq(new_rem@)) by {
                assert forall|j: int| 0 <= j < new_rem@.len() implies new_rem@[j] < 16 by {
                    assert(new_rem@[j] == b[k + 1 + j]);
                }
            }
            assert(bn.wf()) by {
                assert forall|i: int|
                    0 <= i < 16 implies (#[trigger] cs[i] matches Some(c) ==> c.wf()) by {
                    if i != old_slot as int && i != new_slot as int {
                        assert(cs[i] is None);
                    }
                }
            }
            assert(bn.has_depth(b.len() - k)) by {
                assert forall|i: int|
                    0 <= i < 16 implies (#[trigger] cs[i] matches Some(c) ==> c.has_depth(
                    b.len() - k - 1,
                )) by {
                    if i != old_slot as int && i != new_slot as int {
                        assert(cs[i] is None);
                    }
                }
            }
            lemma_two_leaf_branch(bn, a, b, self.value@, value@, k as int);
        }
        if k > 0 {
            let prefix = NibblePath::new(head_to(self.path.nibbles.as_slice(), k));
            let r = Node::Extension(ExtensionNode::new(prefix, Box::new(branch_node)));
            proof {
                lemma_ext_over_split(r, a, b, self.value@, value@, k as int);
            }
            r
        } else {
            proof {
                assert forall|q: Seq<u8>| #[trigger] branch_node.lookup(q) == (if q == b {
                    Some(value@)
                } else {
                    Node::Leaf(*self).lookup(q)
                }) by {
                    assert(a.skip(0) =~= a);
                    assert(b.skip(0) =~= b);
                }
            }
            branch_node
        }
    }
}

/// A nonempty sequence equals `s` exactly when the lengths, heads and tails
/// agree.
proof fn lemma_seq_head_decompose(q: Seq<u8>, s: Seq<u8>)
    requires
        s.len() > 0,
    ensures
        (q == s) <==> (q.len() == s.len() && q.len() > 0 && q[0] == s[0] && q.skip(1) == s.skip(1)),
{
    if q.len() == s.len() && q.len() > 0 && q[0] == s[0] && q.skip(1) == s.skip(1) {
        assert forall|i: int| 0 <= i < q.len() implies q[i] == s[i] by {
            if i > 0 {
                assert(q.skip(1)[i - 1] == q[i]);
                assert(s.skip(1)[i - 1] == s[i]);
            }
        }
        assert(q =~= s);
    }
}

/// A sequence equals `s` exactly when it carries `s`'s first `k` elements and
/// `s`'s tail from `k`.
proof fn lemma_seq_split_at(q: Seq<u8>, s: Seq<u8>, k: int)
    requires
        0 <= k <= s.len(),
    ensures
        (q == s) <==> (q.len() == s.len() && q.take(k) == s.take(k) && q.skip(k) == s.skip(k)),
{
    if q.len() == s.len() && q.take(k) == s.take(k) && q.skip(k) == s.skip(k) {
        assert forall|i: int| 0 <= i < q.len() implies q[i] == s[i] by {
            if i < k {
                assert(q.take(k)[i] == q[i]);
                assert(s.take(k)[i] == s[i]);
            } else {
                assert(q.skip(k)[i - k] == q[i]);
                assert(s.skip(k)[i - k] == s[i]);
            }
        }
        assert(q =~= s);
    }
}

/// Lookup in a branch holding exactly the two leaves of a split at `k`.
proof fn lemma_two_leaf_branch(bn: Node, a: Seq<u8>, b: Seq<u8>, va: Seq<u8>, vb: Seq<u8>, k: int)
    requires
        0 <= k < a.len(),
        a.len() == b.len(),
        a[k] < 16,
        b[k] < 16,
        a[k] != b[k],
        bn matches Node::Branch(br) && {
            &&& br.children@.len() == 16
            &&& br.value is None
            &&& (br.children@[a[k] as int] matches Some(c) && *c matches Node::Leaf(leaf)
                && leaf.path@ == a.skip(k + 1) && leaf.value@ == va)
            &&& (br.children@[b[k] as int] matches Some(c) && *c matches Node::Leaf(leaf)
                && leaf.path@ == b.skip(k + 1) && leaf.value@ == vb)
            &&& forall|i: int|
                0 <= i < 16 && i != a[k] && i != b[k] ==> #[trigger] br.children@[i] is None
        },
    ensures
        forall|q: Seq<u8>| #[trigger] bn.lookup(q) == (if q == b.skip(k) {
            Some(vb)
        } else if q == a.skip(k) {
            Some(va)
        } else {
            None::<Seq<u8>>
        }),
{
    let br = bn->Branch_0;
    assert forall|q: Seq<u8>| #[trigger] bn.lookup(q) == (if q == b.skip(k) {
        Some(vb)
    } else if q == a.skip(k) {
        Some(va)
    } else {
        None::<Seq<u8>>
    }) by {
        lemma_seq_head_decompose(q, a.skip(k));
        lemma_seq_head_decompose(q, b.skip(k));
        assert(a.skip(k)[0] == a[k] && a.skip(k).skip(1) =~= a.skip(k + 1));
        assert(b.skip(k)[0] == b[k] && b.skip(k).skip(1) =~= b.skip(k + 1));
        assert(a.skip(k).len() == a.len() - k && b.skip(k).len() == b.len() - k);
        if q.len() == 0 {
            assert(bn.lookup(q) is None);
            assert(q != a.skip(k) && q != b.skip(k));
        } else {
            let i = q[0] as int;
            if i == a[k] as int {
                let c = br.children@[i]->0;
                assert(bn.lookup(q) == c.lookup(q.skip(1)));
                assert(c.lookup(q.skip(1)) == (if q.skip(1) == a.skip(k + 1) {
                    Some(va)
                } else {
                    None::<Seq<u8>>
                }));
                assert(q != b.skip(k));
            } else if i == b[k] as int {
                let c = br.children@[i]->0;
                assert(bn.lookup(q) == c.lookup(q.skip(1)));
                assert(c.lookup(q.skip(1)) == (if q.skip(1) == b.skip(k + 1) {
                    Some(vb)
                } else {
                    None::<Seq<u8>>
                }));
                assert(q != a.skip(k));
            } else {
                if 0 <= i < 16 {
                    assert(br.children@[i] is None);
                }
                assert(bn.lookup(q) is None);
                assert(q != a.skip(k) && q != b.skip(k));
            }
        }
    }
}

/// Lookup through an extension over the split branch of `lemma_two_leaf_branch`.
proof fn lemma_ext_over_split(r: Node, a: Seq<u8>, b: Seq<u8>, va: Seq<u8>, vb: Seq<u8>, k: int)
    requires
        0 < k < a.len(),
        a.len() == b.len(),
        a.take(k) == b.take(k),
        r matches Node::Extension(ext) && {
            &&& ext.path@ == a.take(k)
            &&& forall|q: Seq<u8>| #[trigger] ext.child.lookup(q) == (if q == b.skip(k) {
                Some(vb)
            } else if q == a.skip(k) {
                Some(va)
            } else {
                None::<Seq<u8>>
            })
        },
    ensures
        forall|q: Seq<u8>| #[trigger] r.lookup(q) == (if q == b {
            Some(vb)
        } else if q == a {
            Some(va)
        } else {
            None::<Seq<u8>>
        }),
{
    assert forall|q: Seq<u8>| #[trigger] r.lookup(q) == (if q == b {
        Some(vb)
    } else if q == a {
        Some(va)
    } else {
        None::<Seq<u8>>
    }) by {
        lemma_seq_split_at(q, a, k);
        lemma_seq_split_at(q, b, k);
        assert(a.take(k) =~= a.take(k));
        if k <= q.len() && q.take(k) == a.take(k) {
            let ghost ext = r->Extension_0;
            assert(ext.child.lookup(q.skip(k)) == (if q.skip(k) == b.skip(k) {
                Some(vb)
            } else if q.skip(k) == a.skip(k) {
                Some(va)
            } else {
                None::<Seq<u8>>
            }));
        }
    }
}

/// The outcome of a by-value recursive delete: the rebuilt node, tagged with
/// whether the key was absent, removed in place, or removed with the node
/// collapsing into a different shape.
pub(crate) enum DeleteStep {
    Missing(Node),
    Removed(Node),
    Collapsed(Node),
}

impl DeleteStep {
    /// The rebuilt node carried by this step.
    pub(crate) open spec fn node(self) -> Node {
        match self {
            DeleteStep::Missing(m) => m,
            DeleteStep::Removed(m) => m,
            DeleteStep::Collapsed(m) => m,
        }
    }
}

/// Delete the value at `path` from the tree rooted at `n`, by value.  The
/// node returned inside the step replaces `n`.
pub(crate) fn delete_node(n: Node, path: NibblePath) -> (r: DeleteStep)
    requires
        n.wf(),
        n.has_depth(path@.len() as int),
        is_nibble_seq(path@),
        !(n is Leaf),
    ensures
        r.node().wf(),
        r.node().has_depth(path@.len() as int),
        r is Missing <==> n.lookup(path@) is None,
        forall|q: Seq<u8>| #[trigger] r.node().lookup(q) == (if q == path@ {
            None
        } else {
            n.lookup(q)
        }),
        r matches DeleteStep::Missing(m) ==> (m is Branch <==> n is Branch) && (m is Extension
            <==> n is Extension),
        r matches DeleteStep::Removed(m) ==> (m is Branch <==> n is Branch) && (m is Extension
            <==> n is Extension),
    decreases n,
{
    let ghost n0 = n;
    match n {
        Node::Leaf(leaf) => {
            proof {
                assert(false);
            }
            DeleteStep::Missing(Node::Leaf(leaf))
        },
        Node::Branch(mut br) => {
            proof {
                assert(n0 == Node::Branch(br));
                assert(path@.len() >= 1);
                assert(path@[0] < 16);
            }
            let ghost cs_orig = br.children@;
            let ghost depth = path@.len() as int;
            let idx = path.nibbles[0] as usize;
            let rem = NibblePath::new(tail_from(path.nibbles.as_slice(), 1));
            proof {
                assert(is_nibble_seq(rem@)) by {
                    assert forall|j: int| 0 <= j < rem@.len() implies rem@[j] < 16 by {
                        assert(rem@[j] == path@[1 + j]);
                    }
                }
            }
            let child_opt = br.children.remove(idx);
            match child_opt {
                None => {
                    br.children.insert(idx, None);
                    proof {
                        lemma_remove_insert_is_update(cs_orig, idx as int, None);
                        assert(br.children@ =~= cs_orig);
                    }
                    let r = Node::Branch(br);
                    proof {
                        assert(r.lookup(path@) is None);
                        assert forall|q: Seq<u8>| #[trigger] r.lookup(q) == n0.lookup(q) by {}
                    }
                    DeleteStep::Missing(r)
                },
                Some(boxed) => {
                    proof {
                        let opt = n0->Branch_0.children@[idx as int];
                        assert(opt == Some(boxed));
                        assert(decreases_to!(n0 => n0->Branch_0));
                        assert(decreases_to!(n0->Branch_0 => n0->Branch_0.children));
                        assert(decreases_to!(n0->Branch_0.children => n0->Branch_0.children@));
                        assert(decreases_to!(
                            n0->Branch_0.children@ => n0->Branch_0.children@[idx as int]));
                        assert(decreases_to!(opt => opt->0));
                        assert(opt->0 == boxed);
                    }
                    let ghost c_old = *boxed;
                    match *boxed {
                        Node::Leaf(leaf) => {
                            if bytes_eq(leaf.path.nibbles.as_slice(), rem.nibbles.as_slice()) {
                                // this leaf holds the key: remove it
                                br.children.insert(idx, None);
                                proof {
                                    lemma_remove_insert_is_update(cs_orig, idx as int, None);
                                    assert(br.children@ =~= cs_orig.update(idx as int, None));
                                    lemma_num_children_update(cs_orig, idx as int, None);
                                    lemma_branch_child_update(n0, Node::Branch(br), idx as int);
                                }
                                proof {
                                    assert(num_children(cs_orig) >= 2);
                                }
                                let (merged, shrank) = try_collapse_branch(br, Ghost(depth));
                                proof {
                                    assert forall|q: Seq<u8>| #[trigger] merged.lookup(q) == (
                                    if q == path@ {
                                        None
                                    } else {
                                        n0.lookup(q)
                                    }) by {
                                        lemma_seq_head_decompose(q, path@);
                                    }
                                    assert(n0.lookup(path@) == c_old.lookup(rem@));
                                }
                                if shrank {
                                    DeleteStep::Collapsed(merged)
                                } else {
                                    DeleteStep::Removed(merged)
                                }
                            } else {
                                // a different key lives here: not found
                                br.children.insert(idx, Some(Box::new(Node::Leaf(leaf))));
                                proof {
                                    lemma_remove_insert_is_update(
                                        cs_orig,
                                        idx as int,
                                        br.children@[idx as int],
                                    );
                                    assert(br.children@ =~= cs_orig);
                                }
                                let r = Node::Branch(br);
                                proof {
                                    assert(r.lookup(path@) == c_old.lookup(rem@));
                                    assert(r.lookup(path@) is None);
                                    assert forall|q: Seq<u8>| #[trigger] r.lookup(q) == n0.lookup(
                                        q,
                                    ) by {}
                                }
                                DeleteStep::Missing(r)
                            }
                        },
                        other => {
                            let step = delete_node(other, rem);
                            let (m, found) = match step {
                                DeleteStep::Missing(m) => (m, false),
                                DeleteStep::Removed(m) => (m, true),
                                DeleteStep::Collapsed(m) => (m, true),
                            };
                            br.children.insert(idx, Some(Box::new(m)));
                            proof {
                                lemma_remove_insert_is_update(
                                    cs_orig,
                                    idx as int,
                                    br.children@[idx as int],
                                );
                                assert(br.children@ =~= cs_orig.update(
                                    idx as int,
                                    br.children@[idx as int],
                                ));
                                lemma_num_children_update(
                                    cs_orig,
                                    idx as int,
                                    br.children@[idx as int],
                                );
                                lemma_branch_child_update(n0, Node::Branch(br), idx as int);
                            }
                            let r = Node::Branch(br);
                            proof {
                                assert(n0.lookup(path@) == c_old.lookup(rem@));
                                assert forall|q: Seq<u8>| #[trigger] r.lookup(q) == (if q == path@ {
                                    None
                                } else {
                                    n0.lookup(q)
                                }) by {
                                    lemma_seq_head_decompose(q, path@);
                                }
                            }
                            if found {
                                DeleteStep::Removed(r)
                            } else {
                                DeleteStep::Missing(r)
                            }
                        },
                    }
                },
            }
        },
        Node::Extension(ext) => {
            proof {
                assert(n0 == Node::Extension(ext));
            }
            let ghost a = ext.path@;
            let ghost b = path@;
            let ghost c0 = *ext.child;
            let plen = ext.path.nibbles.len();
            let k = lcp_len(ext.path.nibbles.as_slice(), path.nibbles.as_slice());
            if k == plen {
                proof {
                    assert(a.take(plen as int) =~= a);
                    assert(b.take(plen as int) == a);
                }
                let rem = NibblePath::new(tail_from(path.nibbles.as_slice(), plen));
                proof {
                    assert(is_nibble_seq(rem@)) by {
                        assert forall|j: int| 0 <= j < rem@.len() implies rem@[j] < 16 by {
                            assert(rem@[j] == b[plen + j]);
                        }
                    }
                    assert(decreases_to!(n0 => ext));
                    assert(decreases_to!(ext => ext.child));
                }
                let step = delete_node(*ext.child, rem);
                proof {
                    assert(n0.lookup(b) == c0.lookup(rem@));
                }
                match step {
                    DeleteStep::Missing(m) => {
                        let r = Node::Extension(ExtensionNode { path: ext.path, child: Box::new(m) });
                        proof {
                            lemma_ext_child_update(n0, r, b, rem@);
                        }
                        DeleteStep::Missing(r)
                    },
                    DeleteStep::Removed(m) => {
                        let r = Node::Extension(ExtensionNode { path: ext.path, child: Box::new(m) });
                        proof {
                            lemma_ext_child_update(n0, r, b, rem@);
                        }
                        DeleteStep::Removed(r)
                    },
                    DeleteStep::Collapsed(m) => {
                        match m {
                            Node::Leaf(leaf) => {
                                let merged_path = ext.path.merge(&leaf.path);
                                let merged = LeafNode::new(merged_path, leaf.value);
                                let r = Node::Leaf(merged);
                                proof {
                                    lemma_leaf_concat(a, leaf, merged);
                                    lemma_ext_replaced(n0, Node::Leaf(leaf), r, b, rem@);
                                }
                                DeleteStep::Collapsed(r)
                            },
                            Node::Extension(e2) => {
                                let merged_path = ext.path.merge(&e2.path);
                                let ghost e2snap = e2;
                                let merged = ExtensionNode { path: merged_path, child: e2.child };
                                let r = Node::Extension(merged);
                                proof {
                                    lemma_ext_concat(a, e2snap, merged);
                                    lemma_ext_replaced(n0, Node::Extension(e2snap), r, b, rem@);
                                }
                                DeleteStep::Collapsed(r)
                            },
                            Node::Branch(b2) => {
                                let m2 = Node::Branch(b2);
                                let r = Node::Extension(
                                    ExtensionNode { path: ext.path, child: Box::new(m2) },
                                );
                                proof {
                                    lemma_ext_child_update(n0, r, b, rem@);
                                }
                                DeleteStep::Removed(r)
                            },
                        }
                    },
                }
            } else {
                // the extension path is not a prefix of the key: not found
                proof {
                    assert(k < plen);
                    assert(a[k as int] != b[k as int]);
                    if plen <= b.len() && b.take(plen as int) == a {
                        assert(b.take(plen as int)[k as int] == b[k as int]);
                    }
                    assert(n0.lookup(b) is None);
                }
                DeleteStep::Missing(Node::Extension(ext))
            }
        },
    }
}

/// After updating one child slot, a branch's lookup agrees with the old
/// branch everywhere except below the updated slot.
proof fn lemma_branch_child_update(old_n: Node, new_n: Node, idx: int)
    requires
        old_n is Branch,
        new_n is Branch,
        0 <= idx < 16,
        old_n->Branch_0.children@.len() == 16,
        new_n->Branch_0.children@ == old_n->Branch_0.children@.update(
            idx,
            new_n->Branch_0.children@[idx],
        ),
        new_n->Branch_0.value == old_n->Branch_0.value,
    ensures
        forall|q: Seq<u8>|
            q.len() == 0 || q[0] != idx ==> #[trigger] new_n.lookup(q) == old_n.lookup(q),
        forall|q: Seq<u8>|
            q.len() > 0 && q[0] == idx ==> #[trigger] new_n.lookup(q) == (match new_n
                ->Branch_0.children@[idx] {
                Some(c) => c.lookup(q.skip(1)),
                None => None,
            }),
        forall|q: Seq<u8>|
            q.len() > 0 && q[0] == idx ==> #[trigger] old_n.lookup(q) == (match old_n
                ->Branch_0.children@[idx] {
                Some(c) => c.lookup(q.skip(1)),
                None => None,
            }),
{
}

/// An extension whose child's lookup changed only at `rem` changes only at
/// the full key `b`.
proof fn lemma_ext_child_update(old_n: Node, new_n: Node, b: Seq<u8>, rem: Seq<u8>)
    requires
        old_n is Extension,
        new_n is Extension,
        new_n->Extension_0.path == old_n->Extension_0.path,
        old_n->Extension_0.path@.len() <= b.len(),
        b.take(old_n->Extension_0.path@.len() as int) == old_n->Extension_0.path@,
        rem == b.skip(old_n->Extension_0.path@.len() as int),
        forall|t: Seq<u8>| #[trigger] new_n->Extension_0.child.lookup(t) == (if t == rem {
            None
        } else {
            old_n->Extension_0.child.lookup(t)
        }),
    ensures
        forall|q: Seq<u8>| #[trigger] new_n.lookup(q) == (if q == b {
            None
        } else {
            old_n.lookup(q)
        }),
{
    let p = old_n->Extension_0.path@;
    let plen = p.len() as int;
    assert forall|q: Seq<u8>| #[trigger] new_n.lookup(q) == (if q == b {
        None
    } else {
        old_n.lookup(q)
    }) by {
        lemma_seq_split_at(q, b, plen);
        if plen <= q.len() && q.take(plen) == p {
            assert(new_n.lookup(q) == new_n->Extension_0.child.lookup(q.skip(plen)));
            assert(old_n.lookup(q) == old_n->Extension_0.child.lookup(q.skip(plen)));
        } else {
            assert(new_n.lookup(q) is None && old_n.lookup(q) is None);
            assert(q != b);
        }
    }
}

/// An extension whose child was replaced by a node with the updated lookup,
/// where the replacement `r` looks up as the prefix `path` over that node.
proof fn lemma_ext_replaced(old_n: Node, m: Node, r: Node, b: Seq<u8>, rem: Seq<u8>)
    requires
        old_n is Extension,
        old_n->Extension_0.path@.len() <= b.len(),
        b.take(old_n->Extension_0.path@.len() as int) == old_n->Extension_0.path@,
        rem == b.skip(old_n->Extension_0.path@.len() as int),
        forall|t: Seq<u8>| #[trigger] m.lookup(t) == (if t == rem {
            None
        } else {
            old_n->Extension_0.child.lookup(t)
        }),
        forall|q: Seq<u8>| #[trigger] r.lookup(q) == prefixed_lookup(
            old_n->Extension_0.path@,
            m,
            q,
        ),
    ensures
        forall|q: Seq<u8>| #[trigger] r.lookup(q) == (if q == b {
            None
        } else {
            old_n.lookup(q)
        }),
{
    let p = old_n->Extension_0.path@;
    let plen = p.len() as int;
    assert forall|q: Seq<u8>| #[trigger] r.lookup(q) == (if q == b {
        None
    } else {
        old_n.lookup(q)
    }) by {
        lemma_seq_split_at(q, b, plen);
        assert(r.lookup(q) == prefixed_lookup(p, m, q));
        if plen <= q.len() && q.take(plen) == p {
            assert(prefixed_lookup(p, m, q) == m.lookup(q.skip(plen)));
            assert(old_n.lookup(q) == old_n->Extension_0.child.lookup(q.skip(plen)));
        } else {
            assert(prefixed_lookup(p, m, q) is None && old_n.lookup(q) is None);
            assert(q != b);
        }
    }
}

/// A leaf whose path is `pre` followed by `leaf`'s path looks up as the
/// prefix `pre` over `leaf`.
proof fn lemma_leaf_concat(pre: Seq<u8>, leaf: LeafNode, merged: LeafNode)
    requires
        merged.path@ == pre + leaf.path@,
        merged.value@ == leaf.value@,
    ensures
        forall|q: Seq<u8>| #[trigger] Node::Leaf(merged).lookup(q) == prefixed_lookup(
            pre,
            Node::Leaf(leaf),
            q,
        ),
{
    let plen = pre.len() as int;
    let full = pre + leaf.path@;
    assert(full.take(plen) =~= pre);
    assert(full.skip(plen) =~= leaf.path@);
    assert forall|q: Seq<u8>| #[trigger] Node::Leaf(merged).lookup(q) == prefixed_lookup(
        pre,
        Node::Leaf(leaf),
        q,
    ) by {
        lemma_seq_split_at(q, full, plen);
        if plen <= q.len() && q.take(plen) == pre {
            assert(prefixed_lookup(pre, Node::Leaf(leaf), q) == Node::Leaf(leaf).lookup(
                q.skip(plen),
            ));
            if q.skip(plen) == leaf.path@ {
                assert(q == full);
            }
            if q == full {
                assert(q.skip(plen) == leaf.path@);
            }
        } else {
            assert(q != full);
        }
    }
}

/// An extension whose path is `pre` followed by `inner`'s path looks up as
/// the prefix `pre` over `inner`.
proof fn lemma_ext_concat(pre: Seq<u8>, inner: ExtensionNode, merged: ExtensionNode)
    requires
        merged.path@ == pre + inner.path@,
        merged.child == inner.child,
    ensures
        forall|q: Seq<u8>| #[trigger] Node::Extension(merged).lookup(q) == prefixed_lookup(
            pre,
            Node::Extension(inner),
            q,
        ),
{
    let plen = pre.len() as int;
    let full = pre + inner.path@;
    assert(full.take(plen) =~= pre);
    assert(full.skip(plen) =~= inner.path@);
    assert forall|q: Seq<u8>| #[trigger] Node::Extension(merged).lookup(q) == prefixed_lookup(
        pre,
        Node::Extension(inner),
        q,
    ) by {
        lemma_prefixed_split(full, *inner.child, q, plen);
        assert(Node::Extension(merged).lookup(q) == prefixed_lookup(full, *inner.child, q));
        lemma_prefixed_is_ext_lookup(inner, q);
        if plen <= q.len() && q.take(plen) == pre {
            assert(prefixed_lookup(pre, Node::Extension(inner), q) == Node::Extension(
                inner,
            ).lookup(q.skip(plen)));
        }
    }
}

/// A branch with a single child at `slot` and no value looks up as the
/// one-nibble prefix `slot` over that child.
proof fn lemma_single_child_branch(bn: Node, c: Node, slot: u8)
    requires
        bn is Branch,
        bn->Branch_0.children@.len() == 16,
        bn->Branch_0.value is None,
        slot < 16,
        bn->Branch_0.children@[slot as int] matches Some(cc) && *cc == c,
        forall|j: int| 0 <= j < 16 && j != slot ==> bn->Branch_0.children@[j] is None,
    ensures
        forall|q: Seq<u8>| #[trigger] bn.lookup(q) == prefixed_lookup(seq![slot], c, q),
{
    let p = seq![slot];
    assert(p.len() == 1 && p[0] == slot);
    assert forall|q: Seq<u8>| #[trigger] bn.lookup(q) == prefixed_lookup(p, c, q) by {
        if q.len() == 0 {
            assert(bn.lookup(q) is None);
        } else {
            if q[0] == slot {
                assert(q.take(1) =~= p);
                assert(prefixed_lookup(p, c, q) == c.lookup(q.skip(1)));
            } else {
                if 0 <= q[0] < 16 {
                    assert(bn->Branch_0.children@[q[0] as int] is None);
                }
                assert(bn.lookup(q) is None);
                if 1 <= q.len() && q.take(1) == p {
                    assert(q.take(1)[0] == q[0]);
                    assert(false);
                }
            }
        }
    }
}

/// Inspect a branch after one child was removed: when only a single child is
/// left (and no value), the branch collapses into that child, extended by the
/// child's slot nibble.  Returns the surviving node and whether it collapsed.
fn try_collapse_branch(b: BranchNode, Ghost(depth): Ghost<int>) -> (r: (Node, bool))
    requires
        b.children@.len() == 16,
        b.value is None,
        depth >= 1,
        num_children(b.children@) >= 1,
        forall|i: int|
            0 <= i < 16 ==> (#[trigger] b.children@[i] matches Some(c) ==> c.wf() && c.has_depth(
                depth - 1,
            )),
    ensures
        r.0.wf(),
        r.0.has_depth(depth),
        forall|q: Seq<u8>| #[trigger] r.0.lookup(q) == Node::Branch(b).lookup(q),
        r.1 <==> num_children(b.children@) == 1,
        !r.1 ==> r.0 is Branch,
{
    let ghost cs = b.children@;
    let ghost bn0 = Node::Branch(b);
    let mut br = b;
    let mut count: usize = 0;
    let mut slot: usize = 0;
    let mut i: usize = 0;
    while i < 16
        invariant
            br.children@ == cs,
            br.value is None,
            cs.len() == 16,
            i <= 16,
            count <= i,
            count == num_children(cs.take(i as int)),
            count >= 1 ==> slot < i && cs[slot as int] is Some,
            count == 1 ==> forall|j: int| 0 <= j < i && j != slot ==> cs[j] is None,
        decreases 16 - i,
    {
        proof {
            assert(cs.take(i + 1).drop_last() =~= cs.take(i as int));
            assert(cs.take(i + 1).last() == cs[i as int]);
            if count == 0 {
                lemma_num_children_zero(cs.take(i as int));
                assert forall|j: int| 0 <= j < i implies cs[j] is None by {
                    assert(cs.take(i as int)[j] == cs[j]);
                }
            }
        }
        if br.children[i].is_some() {
            count = count + 1;
            slot = i;
        }
        i += 1;
    }
    proof {
        assert(cs.take(16) =~= cs);
    }
    if count == 1 {
        // a single child remains: merge the slot nibble into it
        let child_opt = br.children.remove(slot);
        let boxed = match child_opt {
            Some(c) => c,
            None => {
                proof {
                    assert(false);
                }
                Box::new(Node::dummy())
            },
        };
        let ghost c_old = *boxed;
        proof {
            lemma_single_child_branch(bn0, c_old, slot as u8);
        }
        let r = match *boxed {
            Node::Leaf(leaf) => {
                let mut np: Vec<u8> = vec![slot as u8];
                np.extend_from_slice(leaf.path.nibbles.as_slice());
                let ghost lsnap = leaf;
                let merged = LeafNode::new(NibblePath::new(np), leaf.value);
                proof {
                    assert(merged.path@ =~= seq![slot as u8] + lsnap.path@);
                    lemma_leaf_concat(seq![slot as u8], lsnap, merged);
                    assert(is_nibble_seq(merged.path@)) by {
                        assert forall|j: int|
                            0 <= j < merged.path@.len() implies merged.path@[j] < 16 by {
                            if j > 0 {
                                assert(merged.path@[j] == lsnap.path@[j - 1]);
                            }
                        }
                    }
                }
                Node::Leaf(merged)
            },
            Node::Extension(e2) => {
                let mut np: Vec<u8> = vec![slot as u8];
                np.extend_from_slice(e2.path.nibbles.as_slice());
                let ghost esnap = e2;
                let merged = ExtensionNode { path: NibblePath::new(np), child: e2.child };
                proof {
                    assert(merged.path@ =~= seq![slot as u8] + esnap.path@);
                    lemma_ext_concat(seq![slot as u8], esnap, merged);
                    assert(is_nibble_seq(merged.path@)) by {
                        assert forall|j: int|
                            0 <= j < merged.path@.len() implies merged.path@[j] < 16 by {
                            if j > 0 {
                                assert(merged.path@[j] == esnap.path@[j - 1]);
                            }
                        }
                    }
                }
                Node::Extension(merged)
            },
            Node::Branch(b2) => {
                let np: Vec<u8> = vec![slot as u8];
                let inner = Node::Branch(b2);
                let r2 = Node::Extension(
                    ExtensionNode { path: NibblePath::new(np), child: Box::new(inner) },
                );
                proof {
                    assert(r2->Extension_0.path@ =~= seq![slot as u8]);
                    assert forall|q: Seq<u8>| #[trigger] r2.lookup(q) == prefixed_lookup(
                        seq![slot as u8],
                        c_old,
                        q,
                    ) by {}
                }
                r2
            },
        };
        (r, true)
    } else {
        proof {
            assert(num_children(cs) >= 2);
        }
        (Node::Branch(br), false)
    }
}

/// Insert `value` at `path` into the tree rooted at `n`, by value.
pub(crate) fn insert_node(n: Node, path: NibblePath, value: Vec<u8>) -> (r: Node)
    requires
        n.wf(),
        n.has_depth(path@.len() as int),
        is_nibble_seq(path@),
    ensures
        r.wf(),
        r.has_depth(path@.len() as int),
        n is Branch ==> r is Branch,
        forall|q: Seq<u8>| #[trigger] r.lookup(q) == (if q == path@ {
            Some(value@)
        } else {
            n.lookup(q)
        }),
    decreases n, 0int,
{
    let ghost n0 = n;
    match n {
        Node::Leaf(leaf) => {
            let r = leaf.diverge_with(path, value);
            proof {
                assert(n0 == Node::Leaf(leaf));
            }
            r
        },
        Node::Extension(ext) => {
            proof {
                assert(n0 == Node::Extension(ext));
                assert(decreases_to!(n0 => ext));
                assert(decreases_to!(ext => ext.child));
            }
            ext.merge_with(path, value)
        },
        Node::Branch(mut br) => {
            proof {
                assert(n0 == Node::Branch(br));
                assert(path@.len() >= 1);
                assert(path@[0] < 16);
            }
            let ghost cs_orig = br.children@;
            let idx = path.nibbles[0] as usize;
            let rem = NibblePath::new(tail_from(path.nibbles.as_slice(), 1));
            proof {
                assert(is_nibble_seq(rem@)) by {
                    assert forall|j: int| 0 <= j < rem@.len() implies rem@[j] < 16 by {
                        assert(rem@[j] == path@[1 + j]);
                    }
                }
            }
            let child_opt = br.children.remove(idx);
            match child_opt {
                None => {
                    br.children.insert(idx, Some(Box::new(Node::new_leaf(rem, value))));
                },
                Some(boxed) => {
                    proof {
                        let opt = n0->Branch_0.children@[idx as int];
                        assert(opt == Some(boxed));
                        assert(decreases_to!(n0 => n0->Branch_0));
                        assert(decreases_to!(n0->Branch_0 => n0->Branch_0.children));
                        assert(decreases_to!(n0->Branch_0.children => n0->Branch_0.children@));
                        assert(decreases_to!(n0->Branch_0.children@ => n0->Branch_0.children@[idx as int]));
                        assert(decreases_to!(opt => opt->0));
                        assert(opt->0 == boxed);
                    }
                    let new_sub = insert_node(*boxed, rem, value);
                    br.children.insert(idx, Some(Box::new(new_sub)));
                },
            }
            proof {
                lemma_remove_insert_is_update(cs_orig, idx as int, br.children@[idx as int]);
                assert(br.children@ =~= cs_orig.update(idx as int, br.children@[idx as int]));
            }
            let r = Node::Branch(br);
            proof {
                let cs = r->Branch_0.children@;
                let nb = cs[idx as int]->0;
                lemma_num_children_update(cs_orig, idx as int, cs[idx as int]);
                assert(r.wf()) by {
                    assert forall|i: int|
                        0 <= i < 16 implies (#[trigger] cs[i] matches Some(c) ==> c.wf()) by {
                        if i != idx as int {
                            assert(cs[i] == cs_orig[i]);
                        }
                    }
                }
                assert(r.has_depth(path@.len() as int)) by {
                    assert forall|i: int|
                        0 <= i < 16 implies (#[trigger] cs[i] matches Some(c) ==> c.has_depth(
                        path@.len() - 1,
                    )) by {
                        if i != idx as int {
                            assert(cs[i] == cs_orig[i]);
                        }
                    }
                }
                assert forall|q: Seq<u8>| #[trigger] r.lookup(q) == (if q == path@ {
                    Some(value@)
                } else {
                    n0.lookup(q)
                }) by {
                    lemma_seq_head_decompose(q, path@);
                    assert(path@[0] == path@[0] && path@.skip(1) == rem@);
                    if q.len() > 0 {
                        let i = q[0] as int;
                        if i == idx as int {
                            assert(r.lookup(q) == nb.lookup(q.skip(1)));
                            if cs_orig[i] is Some {
                                assert(n0.lookup(q) == cs_orig[i]->0.lookup(q.skip(1)));
                            } else {
                                assert(n0.lookup(q) is None);
                            }
                        } else {
                            if 0 <= i < 16 {
                                assert(cs[i] == cs_orig[i]);
                            }
                            assert(q != path@);
                        }
                    } else {
                        assert(q != path@);
                    }
                }
            }
            r
        },
    }
}

/// Removing a slot and inserting a replacement at the same index is an
/// update.
proof fn lemma_remove_insert_is_update(cs: Seq<Option<Box<Node>>>, i: int, v: Option<Box<Node>>)
    requires
        0 <= i < cs.len(),
    ensures
        cs.remove(i).insert(i, v) =~= cs.update(i, v),
{
}

/// Updating one slot changes the child count by the occupancy difference.
proof fn lemma_num_children_update(cs: Seq<Option<Box<Node>>>, i: int, v: Option<Box<Node>>)
    requires
        0 <= i < cs.len(),
    ensures
        num_children(cs.update(i, v)) == num_children(cs) + (if v is Some {
            1int
        } else {
            0int
        }) - (if cs[i] is Some {
            1int
        } else {
            0int
        }),
    decreases cs.len(),
{
    let cs2 = cs.update(i, v);
    if i == cs.len() - 1 {
        assert(cs2.drop_last() =~= cs.drop_last());
        assert(cs2.last() == v);
        assert(cs.last() == cs[i]);
    } else {
        assert(cs2.drop_last() =~= cs.drop_last().update(i, v));
        assert(cs2.last() == cs.last());
        lemma_num_children_update(cs.drop_last(), i, v);
    }
}

/// Two slot sequences occupied at the same positions have the same count.
pub proof fn lemma_num_children_pointwise(cs1: Seq<Option<Box<Node>>>, cs2: Seq<Option<Box<Node>>>)
    requires
        cs1.len() == cs2.len(),
        forall|i: int| 0 <= i < cs1.len() ==> (cs1[i] is Some <==> #[trigger] cs2[i] is Some),
    ensures
        num_children(cs1) == num_children(cs2),
    decreases cs1.len(),
{
    if cs1.len() > 0 {
        assert(cs1.last() is Some <==> cs2.last() is Some);
        assert forall|i: int|
            0 <= i < cs1.drop_last().len() implies (cs1.drop_last()[i] is Some
            <==> #[trigger] cs2.drop_last()[i] is Some) by {
            assert(cs1.drop_last()[i] == cs1[i]);
            assert(cs2.drop_last()[i] == cs2[i]);
        }
        lemma_num_children_pointwise(cs1.drop_last(), cs2.drop_last());
    }
}

/// Canonical form implies that every branch has its 16 child slots.
pub proof fn lemma_wf_branches_sized(n: Node)
    requires
        n.wf(),
    ensures
        n.branches_sized(),
    decreases n,
{
    match n {
        Node::Leaf(_) => {},
        Node::Extension(ext) => {
            lemma_wf_branches_sized(*ext.child);
        },
        Node::Branch(b) => {
            assert forall|i: int|
                0 <= i < 16 implies (#[trigger] b.children@[i] matches Some(c)
                ==> c.branches_sized()) by {
                match b.children@[i] {
                    Some(c) => {
                        assert(c.wf());
                        lemma_wf_branches_sized(*c);
                    },
                    None => {},
                }
            }
        },
    }
}

/// A slot sequence with no children has no occupied entries.
proof fn lemma_num_children_zero(cs: Seq<Option<Box<Node>>>)
    requires
        num_children(cs) == 0,
    ensures
        forall|j: int| 0 <= j < cs.len() ==> cs[j] is None,
    decreases cs.len(),
{
    if cs.len() > 0 {
        lemma_num_children_zero(cs.drop_last());
        assert forall|j: int| 0 <= j < cs.len() implies cs[j] is None by {
            if j < cs.len() - 1 {
                assert(cs.drop_last()[j] == cs[j]);
            } else {
                assert(cs.last() == cs[j]);
            }
        }
    }
}

/// A slot sequence with no occupied entries has no children.
proof fn lemma_num_children_all_none(cs: Seq<Option<Box<Node>>>)
    requires
        forall|i: int| 0 <= i < cs.len() ==> cs[i] is None,
    ensures
        num_children(cs) == 0,
    decreases cs.len(),
{
    if cs.len() > 0 {
        lemma_num_children_all_none(cs.drop_last());
    }
}


/// Structural equality of two trees up to the views of their paths and
/// values: same shapes, same contents.
pub open spec fn same_shape(a: Node, b: Node) -> bool
    decreases a,
{
    match (a, b) {
        (Node::Leaf(l1), Node::Leaf(l2)) => l1.path@ == l2.path@ && l1.value@ == l2.value@,
        (Node::Extension(e1), Node::Extension(e2)) => e1.path@ == e2.path@ && same_shape(
            *e1.child,
            *e2.child,
        ),
        (Node::Branch(b1), Node::Branch(b2)) => {
            &&& b1.children@.len() == 16
            &&& b2.children@.len() == 16
            &&& (match (b1.value, b2.value) {
                (None, None) => true,
                (Some(v1), Some(v2)) => v1@ == v2@,
                _ => false,
            })
            &&& forall|i: int|
                0 <= i < 16 ==> (match (#[trigger] b1.children@[i], b2.children@[i]) {
                    (None, None) => true,
                    (Some(c1), Some(c2)) => same_shape(*c1, *c2),
                    _ => false,
                })
        },
        _ => false,
    }
}

/// A tree in canonical form holds at least one key.
pub proof fn lemma_wf_lookup_nonempty(n: Node, d: int) -> (w: Seq<u8>)
    requires
        n.wf(),
        n.has_depth(d),
    ensures
        n.lookup(w) is Some,
    decreases n,
{
    match n {
        Node::Leaf(l) => l.path@,
        Node::Extension(e) => {
            let t = lemma_wf_lookup_nonempty(*e.child, d - e.path@.len());
            let w = e.path@ + t;
            assert(w.take(e.path@.len() as int) =~= e.path@);
            assert(w.skip(e.path@.len() as int) =~= t);
            w
        },
        Node::Branch(b) => {
            let (s1, s2) = lemma_two_occupied_slots(b.children@);
            let c = b.children@[s1]->0;
            let t = lemma_wf_lookup_nonempty(*c, d - 1);
            let w = seq![s1 as u8] + t;
            assert(w.len() >= 1 && w[0] == s1);
            assert(w.skip(1) =~= t);
            w
        },
    }
}

/// A slot sequence with at least two children has two distinct occupied
/// slots.
proof fn lemma_two_occupied_slots(cs: Seq<Option<Box<Node>>>) -> (r: (int, int))
    requires
        num_children(cs) >= 2,
    ensures
        0 <= r.0 < cs.len(),
        0 <= r.1 < cs.len(),
        r.0 != r.1,
        cs[r.0] is Some,
        cs[r.1] is Some,
    decreases cs.len(),
{
    if cs.last() is Some {
        if num_children(cs.drop_last()) >= 1 {
            let s = lemma_one_occupied_slot(cs.drop_last());
            assert(cs[s] == cs.drop_last()[s]);
            (s, cs.len() - 1)
        } else {
            assert(num_children(cs) < 2);
            (0, 0)
        }
    } else {
        let (s1, s2) = lemma_two_occupied_slots(cs.drop_last());
        assert(cs[s1] == cs.drop_last()[s1]);
        assert(cs[s2] == cs.drop_last()[s2]);
        (s1, s2)
    }
}

/// A slot sequence with at least one child has an occupied slot.
proof fn lemma_one_occupied_slot(cs: Seq<Option<Box<Node>>>) -> (r: int)
    requires
        num_children(cs) >= 1,
    ensures
        0 <= r < cs.len(),
        cs[r] is Some,
    decreases cs.len(),
{
    if cs.last() is Some {
        cs.len() - 1
    } else {
        let s = lemma_one_occupied_slot(cs.drop_last());
        assert(cs[s] == cs.drop_last()[s]);
        s
    }
}

/// A stored key has exactly the tree's depth and consists of nibbles.
pub proof fn lemma_lookup_key_form(n: Node, d: int, q: Seq<u8>)
    requires
        n.wf(),
        n.has_depth(d),
        n.lookup(q) is Some,
    ensures
        q.len() == d,
        is_nibble_seq(q),
    decreases n,
{
    match n {
        Node::Leaf(l) => {
            assert(q == l.path@);
        },
        Node::Extension(e) => {
            let plen = e.path@.len() as int;
            lemma_lookup_key_form(*e.child, d - plen, q.skip(plen));
            assert forall|j: int| 0 <= j < q.len() implies q[j] < 16 by {
                if j < plen {
                    assert(q.take(plen)[j] == q[j]);
                } else {
                    assert(q.skip(plen)[j - plen] == q[j]);
                }
            }
        },
        Node::Branch(b) => {
            assert(q.len() > 0);
            let c = b.children@[q[0] as int]->0;
            lemma_lookup_key_form(*c, d - 1, q.skip(1));
            assert forall|j: int| 0 <= j < q.len() implies q[j] < 16 by {
                if j >= 1 {
                    assert(q.skip(1)[j - 1] == q[j]);
                }
            }
        },
    }
}

/// Looking below an extension prepends its path to the key.
proof fn lemma_ext_lookup_prefix(e: ExtensionNode, t: Seq<u8>)
    ensures
        Node::Extension(e).lookup(e.path@ + t) == e.child.lookup(t),
{
    let w = e.path@ + t;
    assert(w.take(e.path@.len() as int) =~= e.path@);
    assert(w.skip(e.path@.len() as int) =~= t);
}

/// Looking below a branch slot prepends the slot nibble to the key.
proof fn lemma_branch_lookup_slot(b: BranchNode, s: u8, t: Seq<u8>)
    requires
        s < 16,
        b.children@.len() == 16,
        b.children@[s as int] is Some,
    ensures
        Node::Branch(b).lookup(seq![s] + t) == b.children@[s as int]->0.lookup(t),
{
    let w = seq![s] + t;
    assert(w.len() >= 1 && w[0] == s);
    assert(w.skip(1) =~= t);
}

/// Canonical form is unique: two trees in canonical form of the same depth
/// that hold the same mapping are structurally equal.  This is why deleting
/// a key restores the exact tree that stood before it was inserted, and why
/// tries holding the same mapping commit to the same root.
pub proof fn lemma_canonical_unique(a: Node, b: Node, d: int)
    requires
        a.wf(),
        b.wf(),
        a.has_depth(d),
        b.has_depth(d),
        forall|q: Seq<u8>| #[trigger] a.lookup(q) == b.lookup(q),
    ensures
        same_shape(a, b),
    decreases a,
{
    match (a, b) {
        (Node::Leaf(l1), Node::Leaf(l2)) => {
            assert(a.lookup(l1.path@) is Some);
            assert(b.lookup(l1.path@) is Some);
            assert(l1.path@ == l2.path@);
            assert(a.lookup(l1.path@) == b.lookup(l2.path@));
        },
        (Node::Extension(e1), Node::Extension(e2)) => {
            let p1 = e1.path@;
            let p2 = e2.path@;
            let d1 = d - p1.len();
            let d2 = d - p2.len();
            // each side holds two keys that diverge right after its own path
            let (x1, y1) = lemma_ext_divergent_keys(e1, d);
            let (x2, y2) = lemma_ext_divergent_keys(e2, d);
            assert(p1.len() == p2.len()) by {
                if p1.len() < p2.len() {
                    // b's keys all agree on position p1.len(); a's keys x1, y1 differ there
                    assert(b.lookup(x1) is Some && b.lookup(y1) is Some);
                    assert(x1.take(p2.len() as int) == p2 && y1.take(p2.len() as int) == p2) by {
                        lemma_ext_key_prefix(e2, x1);
                        lemma_ext_key_prefix(e2, y1);
                    }
                    assert(x1[p1.len() as int] == p2[p1.len() as int]) by {
                        assert(x1.take(p2.len() as int)[p1.len() as int] == x1[p1.len() as int]);
                    }
                    assert(y1[p1.len() as int] == p2[p1.len() as int]) by {
                        assert(y1.take(p2.len() as int)[p1.len() as int] == y1[p1.len() as int]);
                    }
                    assert(false);
                }
                if p2.len() < p1.len() {
                    assert(a.lookup(x2) is Some && a.lookup(y2) is Some);
                    assert(x2.take(p1.len() as int) == p1 && y2.take(p1.len() as int) == p1) by {
                        lemma_ext_key_prefix(e1, x2);
                        lemma_ext_key_prefix(e1, y2);
                    }
                    assert(x2[p2.len() as int] == p1[p2.len() as int]) by {
                        assert(x2.take(p1.len() as int)[p2.len() as int] == x2[p2.len() as int]);
                    }
                    assert(y2[p2.len() as int] == p1[p2.len() as int]) by {
                        assert(y2.take(p1.len() as int)[p2.len() as int] == y2[p2.len() as int]);
                    }
                    assert(false);
                }
            }
            assert(p1 == p2) by {
                assert(b.lookup(x1) is Some);
                lemma_ext_key_prefix(e2, x1);
                lemma_ext_key_prefix(e1, x1);
                assert(x1.take(p1.len() as int) == p1);
                assert(x1.take(p2.len() as int) == p2);
            }
            assert forall|t: Seq<u8>| #[trigger] e1.child.lookup(t) == e2.child.lookup(t) by {
                lemma_ext_lookup_prefix(e1, t);
                lemma_ext_lookup_prefix(e2, t);
                assert(a.lookup(p1 + t) == b.lookup(p1 + t));
            }
            lemma_canonical_unique(*e1.child, *e2.child, d1);
        },
        (Node::Branch(b1), Node::Branch(b2)) => {
            assert(b1.value is None && b2.value is None);
            assert forall|i: int|
                0 <= i < 16 implies (match (#[trigger] b1.children@[i], b2.children@[i]) {
                (None, None) => true,
                (Some(c1), Some(c2)) => same_shape(*c1, *c2),
                _ => false,
            }) by {
                lemma_branch_children_match(b1, b2, d, i);
                match (b1.children@[i], b2.children@[i]) {
                    (Some(c1), Some(c2)) => {
                        assert forall|t: Seq<u8>| #[trigger] c1.lookup(t) == c2.lookup(t) by {
                            lemma_branch_lookup_slot(b1, i as u8, t);
                            lemma_branch_lookup_slot(b2, i as u8, t);
                            assert(Node::Branch(b1).lookup(seq![i as u8] + t) == Node::Branch(
                                b2,
                            ).lookup(seq![i as u8] + t));
                        }
                        assert(decreases_to!(a => a->Branch_0));
                        assert(decreases_to!(a->Branch_0 => a->Branch_0.children));
                        assert(decreases_to!(a->Branch_0.children => a->Branch_0.children@));
                        assert(decreases_to!(a->Branch_0.children@ => a->Branch_0.children@[i]));
                        let opt = a->Branch_0.children@[i];
                        assert(decreases_to!(opt => opt->0));
                        lemma_canonical_unique(*c1, *c2, d - 1);
                    },
                    _ => {},
                }
            }
        },
        (Node::Leaf(l1), Node::Extension(e2)) => {
            let (x2, y2) = lemma_ext_divergent_keys(e2, d);
            assert(a.lookup(x2) is Some && a.lookup(y2) is Some);
            assert(x2 == l1.path@ && y2 == l1.path@);
            assert(false);
        },
        (Node::Extension(e1), Node::Leaf(l2)) => {
            let (x1, y1) = lemma_ext_divergent_keys(e1, d);
            assert(b.lookup(x1) is Some && b.lookup(y1) is Some);
            assert(x1 == l2.path@ && y1 == l2.path@);
            assert(false);
        },
        (Node::Leaf(l1), Node::Branch(b2)) => {
            let (x2, y2) = lemma_branch_divergent_keys(b2, d);
            assert(a.lookup(x2) is Some && a.lookup(y2) is Some);
            assert(x2 == l1.path@ && y2 == l1.path@);
            assert(false);
        },
        (Node::Branch(b1), Node::Leaf(l2)) => {
            let (x1, y1) = lemma_branch_divergent_keys(b1, d);
            assert(b.lookup(x1) is Some && b.lookup(y1) is Some);
            assert(x1 == l2.path@ && y1 == l2.path@);
            assert(false);
        },
        (Node::Extension(e1), Node::Branch(b2)) => {
            let (x2, y2) = lemma_branch_divergent_keys(b2, d);
            assert(a.lookup(x2) is Some && a.lookup(y2) is Some);
            lemma_ext_key_prefix(e1, x2);
            lemma_ext_key_prefix(e1, y2);
            assert(x2.take(e1.path@.len() as int)[0] == x2[0]);
            assert(y2.take(e1.path@.len() as int)[0] == y2[0]);
            assert(x2[0] == e1.path@[0] && y2[0] == e1.path@[0]);
            assert(false);
        },
        (Node::Branch(b1), Node::Extension(e2)) => {
            let (x1, y1) = lemma_branch_divergent_keys(b1, d);
            assert(b.lookup(x1) is Some && b.lookup(y1) is Some);
            lemma_ext_key_prefix(e2, x1);
            lemma_ext_key_prefix(e2, y1);
            assert(x1.take(e2.path@.len() as int)[0] == x1[0]);
            assert(y1.take(e2.path@.len() as int)[0] == y1[0]);
            assert(x1[0] == e2.path@[0] && y1[0] == e2.path@[0]);
            assert(false);
        },
    }
}

/// Two branches with the same mapping have the same occupied slots.
proof fn lemma_branch_children_match(b1: BranchNode, b2: BranchNode, d: int, i: int)
    requires
        Node::Branch(b1).wf(),
        Node::Branch(b2).wf(),
        Node::Branch(b1).has_depth(d),
        Node::Branch(b2).has_depth(d),
        forall|q: Seq<u8>| #[trigger] Node::Branch(b1).lookup(q) == Node::Branch(b2).lookup(q),
        0 <= i < 16,
    ensures
        b1.children@[i] is Some <==> b2.children@[i] is Some,
{
    if b1.children@[i] is Some && !(b2.children@[i] is Some) {
        let c1 = b1.children@[i]->0;
        let t = lemma_wf_lookup_nonempty(*c1, d - 1);
        lemma_branch_lookup_slot(b1, i as u8, t);
        let w = seq![i as u8] + t;
        assert(w.len() >= 1 && w[0] == i as u8);
        assert(Node::Branch(b1).lookup(w) is Some);
        assert(Node::Branch(b2).lookup(w) is None);
        assert(false);
    }
    if b2.children@[i] is Some && !(b1.children@[i] is Some) {
        let c2 = b2.children@[i]->0;
        let t = lemma_wf_lookup_nonempty(*c2, d - 1);
        lemma_branch_lookup_slot(b2, i as u8, t);
        let w = seq![i as u8] + t;
        assert(w.len() >= 1 && w[0] == i as u8);
        assert(Node::Branch(b2).lookup(w) is Some);
        assert(Node::Branch(b1).lookup(w) is None);
        assert(false);
    }
}

/// Any key stored below an extension starts with its path.
proof fn lemma_ext_key_prefix(e: ExtensionNode, q: Seq<u8>)
    requires
        Node::Extension(e).lookup(q) is Some,
    ensures
        q.len() >= e.path@.len(),
        q.take(e.path@.len() as int) == e.path@,
{
}

/// An extension in canonical form holds two keys that differ right after its
/// path.
proof fn lemma_ext_divergent_keys(e: ExtensionNode, d: int) -> (r: (Seq<u8>, Seq<u8>))
    requires
        Node::Extension(e).wf(),
        Node::Extension(e).has_depth(d),
    ensures
        Node::Extension(e).lookup(r.0) is Some,
        Node::Extension(e).lookup(r.1) is Some,
        r.0.len() > e.path@.len(),
        r.1.len() > e.path@.len(),
        r.0[e.path@.len() as int] != r.1[e.path@.len() as int],
{
    let plen = e.path@.len() as int;
    let cb = e.child->Branch_0;
    let (x, y) = lemma_branch_divergent_keys(cb, d - plen);
    let w0 = e.path@ + x;
    let w1 = e.path@ + y;
    lemma_ext_lookup_prefix(e, x);
    lemma_ext_lookup_prefix(e, y);
    assert(w0[plen] == x[0] && w1[plen] == y[0]);
    (w0, w1)
}

/// A branch in canonical form holds two keys with different first nibbles.
proof fn lemma_branch_divergent_keys(b: BranchNode, d: int) -> (r: (Seq<u8>, Seq<u8>))
    requires
        Node::Branch(b).wf(),
        Node::Branch(b).has_depth(d),
    ensures
        Node::Branch(b).lookup(r.0) is Some,
        Node::Branch(b).lookup(r.1) is Some,
        r.0.len() > 0,
        r.1.len() > 0,
        r.0[0] != r.1[0],
    decreases Node::Branch(b),
{
    assert(num_children(b.children@) >= 2);
    let (s1, s2) = lemma_two_occupied_slots(b.children@);
    let c1 = b.children@[s1]->0;
    let c2 = b.children@[s2]->0;
    let t1 = lemma_wf_lookup_nonempty(*c1, d - 1);
    let t2 = lemma_wf_lookup_nonempty(*c2, d - 1);
    let w0 = seq![s1 as u8] + t1;
    let w1 = seq![s2 as u8] + t2;
    lemma_branch_lookup_slot(b, s1 as u8, t1);
    lemma_branch_lookup_slot(b, s2 as u8, t2);
    assert(w0[0] == s1 && w1[0] == s2);
    (w0, w1)
}

} // verus!
