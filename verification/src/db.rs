//! The blob store under the trie: a map from 32-byte hashes to node bytes.
//!
//! [`HashDB`] is the port the commit and load layers write to and read from;
//! its model is a `Map` from 32-byte keys to values.  [`MemStore`] is an
//! in-memory implementation, verified against that model; a persistent
//! backend implements the same trait outside the library.

use crate::path::bytes_eq;
use vstd::prelude::*;
use vstd::slice::slice_to_vec;

verus! {

/// A store of byte strings keyed by 32-byte hashes.  `put` must be
/// idempotent for identical pairs, which the contract gives for free: the
/// model is a map.
pub trait HashDB {
    type Error;

    /// The mapping this store holds.  Implementations outside the library
    /// leave the default, which promises nothing.
    open spec fn view(&self) -> Map<Seq<u8>, Seq<u8>> {
        Map::empty()
    }

    /// Read the value stored under `key`.
    fn get(&self, key: &[u8; 32]) -> (r: Result<Option<Vec<u8>>, Self::Error>)
        ensures
            r matches Ok(o) ==> match o {
                Some(v) => self.view().contains_key(key@) && self.view()[key@] == v@,
                None => !self.view().contains_key(key@),
            },
    ;

    /// Store `value` under `key`.  On failure the store holds either the old
    /// or the new mapping, nothing else.
    fn put(&mut self, key: [u8; 32], value: Vec<u8>) -> (r: Result<(), Self::Error>)
        ensures
            r is Ok ==> final(self).view() == old(self).view().insert(key@, value@),
            r is Err ==> final(self).view() == old(self).view() || final(self).view() == old(
                self,
            ).view().insert(key@, value@),
    ;

    /// Make earlier writes durable; the mapping is unchanged.
    fn flush(&mut self) -> (r: Result<(), Self::Error>)
        ensures
            final(self).view() == old(self).view(),
    ;
}

/// An in-memory store: a list of key-value pairs, later writes shadowing
/// earlier ones.
pub struct MemStore {
    entries: Vec<([u8; 32], Vec<u8>)>,
}

/// The mapping held by a pair list, later pairs shadowing earlier ones.
pub open spec fn entries_map(s: Seq<([u8; 32], Vec<u8>)>) -> Map<Seq<u8>, Seq<u8>>
    decreases s.len(),
{
    if s.len() == 0 {
        Map::empty()
    } else {
        entries_map(s.drop_last()).insert(s.last().0@, s.last().1@)
    }
}

impl MemStore {
    /// An empty store.
    pub fn new() -> (r: MemStore)
        ensures
            r.view() == Map::<Seq<u8>, Seq<u8>>::empty(),
    {
        MemStore { entries: Vec::new() }
    }
}

/// A key not named by any pair from index `i` on looks up the same in the
/// prefix before `i`.
proof fn lemma_entries_map_prefix(s: Seq<([u8; 32], Vec<u8>)>, i: int, k: Seq<u8>)
    requires
        0 <= i <= s.len(),
        forall|j: int| i <= j < s.len() ==> #[trigger] s[j].0@ != k,
    ensures
        entries_map(s).contains_key(k) == entries_map(s.take(i)).contains_key(k),
        entries_map(s).contains_key(k) ==> entries_map(s)[k] == entries_map(s.take(i))[k],
    decreases s.len() - i,
{
    if i == s.len() {
        assert(s.take(i) =~= s);
    } else {
        lemma_entries_map_prefix(s, i + 1, k);
        assert(s.take(i + 1).drop_last() =~= s.take(i));
        assert(s.take(i + 1).last() == s[i]);
    }
}

impl HashDB for MemStore {
    type Error = ();

    closed spec fn view(&self) -> Map<Seq<u8>, Seq<u8>> {
        entries_map(self.entries@)
    }

    fn get(&self, key: &[u8; 32]) -> (r: Result<Option<Vec<u8>>, ()>)
        ensures
            r is Ok,
            r matches Ok(o) ==> match o {
                Some(v) => self.view().contains_key(key@) && self.view()[key@] == v@,
                None => !self.view().contains_key(key@),
            },
    {
        let ghost s = self.entries@;
        let mut i: usize = self.entries.len();
        while i > 0
            invariant
                s == self.entries@,
                i <= s.len(),
                forall|j: int| i <= j < s.len() ==> #[trigger] s[j].0@ != key@,
            decreases i,
        {
            i = i - 1;
            let hit = bytes_eq(self.entries[i].0.as_slice(), key.as_slice());
            if hit {
                proof {
                    lemma_entries_map_prefix(s, i + 1, key@);
                    assert(s.take(i + 1).drop_last() =~= s.take(i as int));
                    assert(s.take(i + 1).last() == s[i as int]);
                }
                let v = slice_to_vec(self.entries[i].1.as_slice());
                return Ok(Some(v));
            }
        }
        proof {
            lemma_entries_map_prefix(s, 0, key@);
            assert(s.take(0) =~= Seq::<([u8; 32], Vec<u8>)>::empty());
        }
        Ok(None)
    }

    fn put(&mut self, key: [u8; 32], value: Vec<u8>) -> (r: Result<(), ()>)
        ensures
            r is Ok,
            r is Ok ==> final(self).view() == old(self).view().insert(key@, value@),
            r is Err ==> final(self).view() == old(self).view() || final(self).view() == old(
                self,
            ).view().insert(key@, value@),
    {
        let ghost s0 = self.entries@;
        self.entries.push((key, value));
        proof {
            assert(self.entries@.drop_last() =~= s0);
            assert(self.entries@.last() == (key, value));
        }
        Ok(())
    }

    fn flush(&mut self) -> (r: Result<(), ()>)
        ensures
            r is Ok,
            final(self).view() == old(self).view(),
    {
        Ok(())
    }
}

} // verus!
