//! Keys and nibble paths.
//!
//! A 32-byte key is walked four bits at a time; each byte `b` contributes the
//! high nibble `b >> 4` and then the low nibble `b & 0x0f`, so a key yields a
//! path of 64 nibbles.

use vstd::prelude::*;
use vstd::slice::{slice_index_get, slice_subrange, slice_to_vec};

verus! {

/// A 32-byte key.
#[derive(Copy, Clone, Debug, PartialEq, Eq)]
pub struct Key32(pub [u8; 32]);

impl View for Key32 {
    type V = Seq<u8>;

    open spec fn view(&self) -> Seq<u8> {
        self.0@
    }
}

/// The nibble expansion of a byte sequence: byte `b` contributes `b >> 4`
/// and then `b & 0x0f`.
pub open spec fn nibbles_of(bytes: Seq<u8>) -> Seq<u8> {
    Seq::new(
        2 * bytes.len(),
        |i: int| if i % 2 == 0 { (bytes[i / 2] >> 4u8) as u8 } else { (bytes[i / 2] & 0x0fu8) as u8 },
    )
}

/// Every element is a nibble, that is, below 16.
pub open spec fn is_nibble_seq(s: Seq<u8>) -> bool {
    forall|i: int| 0 <= i < s.len() ==> s[i] < 16
}

/// A nibble expansion consists of nibbles only.
pub proof fn lemma_nibbles_of_is_nibble_seq(bytes: Seq<u8>)
    ensures
        is_nibble_seq(nibbles_of(bytes)),
{
    assert forall|i: int| 0 <= i < nibbles_of(bytes).len() implies nibbles_of(bytes)[i] < 16 by {
        let b = bytes[i / 2];
        assert((b >> 4u8) < 16 && (b & 0x0fu8) < 16) by (bit_vector);
    }
}

/// Two byte sequences of equal length with the same nibble expansion are equal.
pub proof fn lemma_nibbles_of_injective(a: Seq<u8>, b: Seq<u8>)
    requires
        nibbles_of(a) == nibbles_of(b),
    ensures
        a == b,
{
    assert(2 * a.len() == nibbles_of(a).len());
    assert(2 * b.len() == nibbles_of(b).len());
    assert(a.len() == b.len());
    assert forall|i: int| 0 <= i < a.len() implies a[i] == b[i] by {
        let x = a[i];
        let y = b[i];
        assert((2 * i) % 2 == 0 && (2 * i) / 2 == i && (2 * i + 1) % 2 == 1 && (2 * i + 1) / 2
            == i);
        assert(nibbles_of(a)[2 * i] == (x >> 4u8) as u8);
        assert(nibbles_of(b)[2 * i] == (y >> 4u8) as u8);
        assert(nibbles_of(a)[2 * i + 1] == (x & 0x0fu8) as u8);
        assert(nibbles_of(b)[2 * i + 1] == (y & 0x0fu8) as u8);
        assert((x >> 4u8) == (y >> 4u8) && (x & 0x0fu8) == (y & 0x0fu8) ==> x == y) by (bit_vector);
    }
    assert(a =~= b);
}

/// A sequence of nibbles, the path type of the trie.
#[derive(Clone, Debug, PartialEq, Eq)]
pub struct NibblePath {
    pub nibbles: Vec<u8>,
}

impl View for NibblePath {
    type V = Seq<u8>;

    open spec fn view(&self) -> Seq<u8> {
        self.nibbles@
    }
}

impl NibblePath {
    /// Wrap a vector of nibbles as a path.
    pub fn new(nibbles: Vec<u8>) -> (r: NibblePath)
        ensures
            r@ == nibbles@,
    {
        NibblePath { nibbles }
    }

    /// The 64-nibble path of a 32-byte key.
    pub fn from_key32(k: &Key32) -> (r: NibblePath)
        ensures
            r@ == nibbles_of(k@),
            r@.len() == 64,
    {
        let mut nibbles: Vec<u8> = Vec::new();
        for i in 0..32
            invariant
                nibbles@.len() == 2 * i,
                forall|j: int| 0 <= j < 2 * i ==> nibbles@[j] == nibbles_of(k@)[j],
        {
            let b = k.0[i];
            nibbles.push(b >> 4);
            nibbles.push(b & 0x0f);
        }
        assert(nibbles@ =~= nibbles_of(k@));
        NibblePath { nibbles }
    }

    /// The nibble expansion of an arbitrary byte string, two nibbles per byte.
    pub fn from_bytes(bytes: &[u8]) -> (r: NibblePath)
        ensures
            r@ == nibbles_of(bytes@),
    {
        let mut nibbles: Vec<u8> = Vec::new();
        let n = bytes.len();
        for i in 0..n
            invariant
                n == bytes@.len(),
                nibbles@.len() == 2 * i,
                forall|j: int| 0 <= j < 2 * i ==> nibbles@[j] == nibbles_of(bytes@)[j],
        {
            let b = *slice_index_get(bytes, i);
            nibbles.push(b >> 4);
            nibbles.push(b & 0x0f);
        }
        assert(nibbles@ =~= nibbles_of(bytes@));
        NibblePath { nibbles }
    }

    /// Concatenation: this path followed by `other`.
    pub fn merge(&self, other: &NibblePath) -> (r: NibblePath)
        ensures
            r@ == self@ + other@,
    {
        let mut merged: Vec<u8> = slice_to_vec(self.nibbles.as_slice());
        merged.extend_from_slice(other.nibbles.as_slice());
        assert(merged@ =~= self@ + other@);
        NibblePath { nibbles: merged }
    }

    /// Length of the longest common prefix of this path and `other`.
    pub fn lcp_len(&self, other: &[u8]) -> (r: usize)
        ensures
            r <= self@.len() && r <= other@.len(),
            self@.take(r as int) == other@.take(r as int),
            r < self@.len() && r < other@.len() ==> self@[r as int] != other@[r as int],
    {
        lcp_len(self.nibbles.as_slice(), other)
    }
}

/// Length of the longest common prefix of two nibble slices.
pub fn lcp_len(a: &[u8], b: &[u8]) -> (r: usize)
    ensures
        r <= a@.len() && r <= b@.len(),
        a@.take(r as int) == b@.take(r as int),
        r < a@.len() && r < b@.len() ==> a@[r as int] != b@[r as int],
{
    let n = if a.len() < b.len() { a.len() } else { b.len() };
    let mut i: usize = 0;
    while i < n
        invariant
            n <= a@.len() && n <= b@.len(),
            n == a@.len() || n == b@.len(),
            i <= n,
            forall|j: int| 0 <= j < i ==> a@[j] == b@[j],
        decreases n - i,
    {
        if *slice_index_get(a, i) != *slice_index_get(b, i) {
            assert(a@.take(i as int) =~= b@.take(i as int));
            return i;
        }
        i += 1;
    }
    assert(a@.take(i as int) =~= b@.take(i as int));
    i
}

/// Whether two byte slices hold the same bytes.
pub fn bytes_eq(x: &[u8], y: &[u8]) -> (r: bool)
    ensures
        r <==> x@ == y@,
{
    if x.len() != y.len() {
        return false;
    }
    let n = lcp_len(x, y);
    if n == x.len() {
        proof {
            assert(x@.take(n as int) =~= x@);
            assert(y@.take(n as int) =~= y@);
        }
        true
    } else {
        false
    }
}

/// Copy of the elements of `v` from index `from` (inclusive) to the end.
pub fn tail_from(v: &[u8], from: usize) -> (r: Vec<u8>)
    requires
        from <= v@.len(),
    ensures
        r@ == v@.skip(from as int),
{
    slice_to_vec(slice_subrange(v, from, v.len()))
}

/// Copy of the elements of `v` before index `to` (exclusive).
pub fn head_to(v: &[u8], to: usize) -> (r: Vec<u8>)
    requires
        to <= v@.len(),
    ensures
        r@ == v@.take(to as int),
{
    slice_to_vec(slice_subrange(v, 0, to))
}

} // verus!
