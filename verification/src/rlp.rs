//! Recursive-length (RLP) serialization.
//!
//! The value domain is `{ byte-string | list of such values }`.  Encoding is
//! canonical: every value has exactly one encoding, and the strict decoder
//! accepts exactly the canonical encodings.
//!
//! Encoding rules:
//! - a single byte below `0x80` stands for itself;
//! - a string of length `0..=55` gets the prefix byte `0x80 + len`;
//! - a longer string gets `0xb7 + L` followed by the minimal big-endian
//!   length (`L` bytes, no leading zero);
//! - a list whose concatenated payload has length `0..=55` gets `0xc0 + len`;
//! - a longer list gets `0xf7 + L` followed by the minimal big-endian length.

use vstd::prelude::*;
use vstd::slice::{slice_index_get, slice_subrange, slice_to_vec};

verus! {

/// An RLP value: a byte string or a list of RLP values.
#[derive(Debug, PartialEq, Eq)]
pub enum RlpData {
    String(Vec<u8>),
    List(Vec<RlpData>),
}

/// The mathematical model of an RLP value.
pub enum RlpVal {
    Bytes(Seq<u8>),
    Items(Seq<RlpVal>),
}

/// The models of a sequence of RLP values.
pub open spec fn views_of(s: Seq<RlpData>) -> Seq<RlpVal>
    decreases s,
{
    Seq::new(
        s.len(),
        |i: int| if 0 <= i < s.len() {
            s[i]@
        } else {
            RlpVal::Bytes(Seq::empty())
        },
    )
}

impl View for RlpData {
    type V = RlpVal;

    open spec fn view(&self) -> RlpVal
        decreases self,
    {
        match self {
            RlpData::String(bytes) => RlpVal::Bytes(bytes@),
            RlpData::List(items) => RlpVal::Items(views_of(items@)),
        }
    }
}

/// Why a decode was rejected.
#[derive(Debug, PartialEq, Eq, Clone, Copy)]
pub enum RlpDecodeError {
    /// The input was empty where a value was required.
    EmptyInput,
    /// A declared length runs past the end of the input.
    InsufficientData { expected: usize, actual: usize },
    /// A non-canonical length: a long form used for a short value, a length
    /// with a leading zero byte, or a single small byte wrapped in a prefix.
    InvalidLengthEncoding,
    /// A declared length does not fit in the platform length type.
    LengthTooLarge,
    /// The top-level value ended before the input did.
    TrailingBytes { decoded: usize, total: usize },
}

/// The minimal big-endian representation of `n`: no leading zero, empty for 0.
pub open spec fn min_be_bytes(n: nat) -> Seq<u8>
    decreases n,
{
    if n == 0 {
        Seq::empty()
    } else {
        min_be_bytes(n / 256) + seq![(n % 256) as u8]
    }
}

/// The value of a big-endian byte string.
pub open spec fn be_value(s: Seq<u8>) -> nat
    decreases s.len(),
{
    if s.len() == 0 {
        0
    } else {
        (be_value(s.drop_last()) * 256 + s.last()) as nat
    }
}

/// 256 to the power `k`.
pub open spec fn pow256(k: nat) -> nat
    decreases k,
{
    if k == 0 {
        1nat
    } else {
        256 * pow256((k - 1) as nat)
    }
}

/// `min_be_bytes` round-trips through `be_value`, is empty only at 0, and has
/// no leading zero.
pub proof fn lemma_min_be_bytes_value(n: nat)
    ensures
        be_value(min_be_bytes(n)) == n,
        n > 0 ==> min_be_bytes(n).len() >= 1 && min_be_bytes(n)[0] != 0,
    decreases n,
{
    if n > 0 {
        lemma_min_be_bytes_value(n / 256);
        let s = min_be_bytes(n);
        assert(s.drop_last() =~= min_be_bytes(n / 256));
        assert(s.last() == (n % 256) as u8);
        if n / 256 == 0 {
            assert(s[0] == (n % 256) as u8);
            assert(n % 256 == n);
        } else {
            assert(s[0] == min_be_bytes(n / 256)[0]);
        }
    }
}

/// A value below `pow256(k)` takes at most `k` bytes.
pub proof fn lemma_min_be_bytes_len(n: nat, k: nat)
    requires
        n < pow256(k),
    ensures
        min_be_bytes(n).len() <= k,
    decreases k,
{
    if n > 0 {
        assert(k > 0);
        assert(n / 256 < pow256((k - 1) as nat)) by (nonlinear_arith)
            requires
                n < 256 * pow256((k - 1) as nat),
        ;
        lemma_min_be_bytes_len(n / 256, (k - 1) as nat);
    }
}

/// A nonempty big-endian string without a leading zero has a positive value,
/// and is the minimal representation of that value.
pub proof fn lemma_be_value_canonical(s: Seq<u8>)
    requires
        s.len() > 0,
        s[0] != 0,
    ensures
        be_value(s) > 0,
        min_be_bytes(be_value(s)) == s,
    decreases s.len(),
{
    let v = be_value(s);
    if s.len() == 1 {
        assert(v == be_value(s.drop_last()) * 256 + s.last());
        assert(s.drop_last().len() == 0);
        assert(v == s[0]);
        assert(min_be_bytes(0nat) == Seq::<u8>::empty());
        assert(v / 256 == 0 && (v % 256) as u8 == s[0]);
        assert(min_be_bytes(v) =~= Seq::empty().push(s[0]));
        assert(min_be_bytes(v) =~= s);
    } else {
        let t = s.drop_last();
        lemma_be_value_canonical(t);
        assert(v == be_value(t) * 256 + s.last());
        assert(v / 256 == be_value(t) && v % 256 == s.last()) by (nonlinear_arith)
            requires
                v == be_value(t) * 256 + s.last(),
                0 <= s.last() < 256,
        ;
        assert(v > 0);
        assert(min_be_bytes(v) =~= min_be_bytes(be_value(t)) + seq![s.last()]);
        assert(min_be_bytes(v) =~= t + seq![s.last()]);
        assert(t + seq![s.last()] =~= s);
    }
}

/// The length prefix of a payload of length `l`, with base offset `offset`
/// (`0x80` for strings, `0xc0` for lists).
pub open spec fn length_prefix(l: nat, offset: int) -> Seq<u8> {
    if l <= 55 {
        seq![(offset + l) as u8]
    } else {
        seq![(offset + 55 + min_be_bytes(l).len()) as u8] + min_be_bytes(l)
    }
}

/// The canonical encoding of an RLP value.
pub open spec fn rlp_bytes(v: RlpVal) -> Seq<u8>
    decreases v,
{
    match v {
        RlpVal::Bytes(b) => {
            if b.len() == 1 && b[0] < 0x80 {
                b
            } else {
                length_prefix(b.len(), 0x80) + b
            }
        },
        RlpVal::Items(items) => {
            let payload = rlp_items_bytes(items);
            length_prefix(payload.len(), 0xc0) + payload
        },
    }
}

/// The concatenated encodings of a sequence of RLP values.
pub open spec fn rlp_items_bytes(items: Seq<RlpVal>) -> Seq<u8>
    decreases items,
{
    if items.len() == 0 {
        Seq::empty()
    } else {
        rlp_bytes(items[0]) + rlp_items_bytes(items.skip(1))
    }
}

/// Appending one item appends its encoding to the payload.
pub proof fn lemma_rlp_items_bytes_push(items: Seq<RlpVal>, x: RlpVal)
    ensures
        rlp_items_bytes(items.push(x)) == rlp_items_bytes(items) + rlp_bytes(x),
    decreases items.len(),
{
    if items.len() == 0 {
        assert(items.push(x)[0] == x);
        assert(items.push(x).skip(1) =~= Seq::<RlpVal>::empty());
        assert(rlp_items_bytes(Seq::<RlpVal>::empty()) == Seq::<u8>::empty());
        assert(rlp_items_bytes(items.push(x)) =~= rlp_bytes(x));
        assert(rlp_items_bytes(items) + rlp_bytes(x) =~= rlp_bytes(x));
    } else {
        assert(items.push(x).skip(1) =~= items.skip(1).push(x));
        lemma_rlp_items_bytes_push(items.skip(1), x);
        assert(items.push(x)[0] == items[0]);
        assert(rlp_items_bytes(items.push(x)) == rlp_bytes(items[0]) + (rlp_items_bytes(items.skip(
            1,
        )) + rlp_bytes(x)));
        assert(rlp_bytes(items[0]) + (rlp_items_bytes(items.skip(1)) + rlp_bytes(x)) =~= (rlp_bytes(
            items[0],
        ) + rlp_items_bytes(items.skip(1))) + rlp_bytes(x));
    }
}

/// Convert a length to its minimal big-endian byte representation.  A zero
/// length yields the single byte `0`.
pub fn length_to_minimal_bytes(len: usize) -> (r: Vec<u8>)
    ensures
        len > 0 ==> r@ == min_be_bytes(len as nat),
        len == 0 ==> r@ == seq![0u8],
        r@.len() >= 1,
{
    if len == 0 {
        return vec![0u8];
    }
    let mut rev: Vec<u8> = Vec::new();
    let mut n: usize = len;
    while n > 0
        invariant
            min_be_bytes(len as nat) == min_be_bytes(n as nat) + rev@.reverse(),
        decreases n,
    {
        proof {
            assert(min_be_bytes(n as nat) == min_be_bytes((n as nat) / 256) + seq![
                ((n as nat) % 256) as u8,
            ]);
            assert((rev@.push((n % 256) as u8)).reverse() =~= seq![(n % 256) as u8]
                + rev@.reverse());
            assert(min_be_bytes((n as nat) / 256) + (seq![((n as nat) % 256) as u8]
                + rev@.reverse()) =~= (min_be_bytes((n as nat) / 256) + seq![
                ((n as nat) % 256) as u8,
            ]) + rev@.reverse());
        }
        rev.push((n % 256) as u8);
        n = n / 256;
    }
    assert(min_be_bytes(len as nat) =~= rev@.reverse());
    let mut r: Vec<u8> = Vec::new();
    let mut i: usize = rev.len();
    while i > 0
        invariant
            i <= rev@.len(),
            r@ =~= rev@.subrange(i as int, rev@.len() as int).reverse(),
        decreases i,
    {
        i = i - 1;
        r.push(rev[i]);
        proof {
            assert(rev@.subrange(i as int, rev@.len() as int).reverse() =~= rev@.subrange(
                i + 1,
                rev@.len() as int,
            ).reverse().push(rev@[i as int]));
        }
    }
    assert(rev@.subrange(0, rev@.len() as int) =~= rev@);
    assert(r@ =~= min_be_bytes(len as nat));
    r
}

/// The big-endian value of a byte slice.  The value must fit in `usize`.
pub fn to_integer(data: &[u8]) -> (r: usize)
    requires
        be_value(data@) <= usize::MAX,
    ensures
        r == be_value(data@),
{
    let n = data.len();
    let mut result: usize = 0;
    let mut i: usize = 0;
    while i < n
        invariant
            n == data@.len(),
            i <= n,
            result == be_value(data@.take(i as int)),
            be_value(data@) <= usize::MAX,
        decreases n - i,
    {
        proof {
            lemma_be_value_take_bound(data@, i as int);
            assert(data@.take(i + 1).drop_last() =~= data@.take(i as int));
            assert(data@.take(i + 1).last() == data@[i as int]);
        }
        let b = *slice_index_get(data, i);
        result = result * 256 + (b as usize);
        i += 1;
    }
    assert(data@.take(n as int) =~= data@);
    result
}

/// `be_value` of a prefix never exceeds `be_value` of the whole string.
pub proof fn lemma_be_value_take_bound(s: Seq<u8>, i: int)
    requires
        0 <= i <= s.len(),
    ensures
        i < s.len() ==> be_value(s.take(i)) * 256 + s[i] <= be_value(s),
        be_value(s.take(i)) <= be_value(s),
    decreases s.len() - i,
{
    if i < s.len() {
        lemma_be_value_take_bound(s, i + 1);
        assert(s.take(i + 1).drop_last() =~= s.take(i));
        assert(s.take(i + 1).last() == s[i]);
        assert(be_value(s.take(i + 1)) == be_value(s.take(i)) * 256 + s[i]);
    } else {
        assert(s.take(i) =~= s);
    }
}

/// The length prefix for a payload of length `l`: one byte for short
/// payloads, a long-form header otherwise.
pub fn encode_length(l: usize, offset: u8) -> (r: Vec<u8>)
    requires
        offset == 0x80 || offset == 0xc0,
    ensures
        r@ == length_prefix(l as nat, offset as int),
{
    if l <= 55 {
        vec![(l as u8) + offset]
    } else {
        let len_bytes = length_to_minimal_bytes(l);
        proof {
            reveal_with_fuel(pow256, 9);
            assert(usize::MAX < pow256(8));
            lemma_min_be_bytes_len(l as nat, 8);
        }
        let len_of_len = len_bytes.len();
        let mut result: Vec<u8> = vec![(len_of_len as u8) + offset + 55];
        result.extend_from_slice(len_bytes.as_slice());
        assert(result@ =~= seq![((offset as int) + 55 + min_be_bytes(l as nat).len()) as u8]
            + min_be_bytes(l as nat));
        result
    }
}

/// Encode an RLP value canonically.
pub fn encode_rlp(data: RlpData) -> (r: Vec<u8>)
    ensures
        r@ == rlp_bytes(data@),
{
    encode_rlp_ref(&data)
}

/// Encode an RLP value canonically, by reference.
pub fn encode_rlp_ref(data: &RlpData) -> (r: Vec<u8>)
    ensures
        r@ == rlp_bytes(data@),
    decreases data,
{
    match data {
        RlpData::String(bytes) => {
            if bytes.len() == 1 && bytes[0] < 0x80 {
                return slice_to_vec(bytes.as_slice());
            }
            let mut encoded = encode_length(bytes.len(), 0x80);
            encoded.extend_from_slice(bytes.as_slice());
            assert(encoded@ =~= length_prefix(bytes@.len(), 0x80) + bytes@);
            encoded
        },
        RlpData::List(items) => {
            let mut combined: Vec<u8> = Vec::new();
            let n = items.len();
            let ghost models = views_of(items@);
            for i in 0..n
                invariant
                    n == items@.len(),
                    data is List && (*data)->List_0 == *items,
                    models == views_of(items@),
                    combined@ == rlp_items_bytes(models.take(i as int)),
            {
                proof {
                    assert(decreases_to!(*data => (*data)->List_0));
                    assert(decreases_to!((*data)->List_0 => (*data)->List_0@));
                    assert(decreases_to!((*data)->List_0@ => (*data)->List_0@[i as int]));
                    assert((*data)->List_0@[i as int] == items@[i as int]);
                }
                let enc = encode_rlp_ref(&items[i]);
                combined.extend_from_slice(enc.as_slice());
                proof {
                    lemma_rlp_items_bytes_push(models.take(i as int), items@[i as int]@);
                    assert(models.take(i + 1) =~= models.take(i as int).push(items@[i as int]@));
                    assert(combined@ =~= rlp_items_bytes(models.take(i as int)) + rlp_bytes(
                        items@[i as int]@,
                    ));
                }
            }
            assert(models.take(n as int) =~= models);
            let mut encoded = encode_length(combined.len(), 0xc0);
            encoded.extend_from_slice(combined.as_slice());
            assert(encoded@ =~= length_prefix(rlp_items_bytes(models).len(), 0xc0)
                + rlp_items_bytes(models));
            encoded
        },
    }
}

/// The first byte of an encoding classifies the value; this lemma derives the
/// shape of a value's encoding, case by case.
pub proof fn lemma_rlp_bytes_shape(v: RlpVal)
    requires
        rlp_bytes(v).len() < pow256(8),
    ensures
        rlp_bytes(v).len() >= 1,
        (match v {
            RlpVal::Bytes(b) => {
                if b.len() == 1 && b[0] < 0x80 {
                    rlp_bytes(v) == b
                } else if b.len() <= 55 {
                    let e = rlp_bytes(v);
                    &&& e.len() == 1 + b.len()
                    &&& e[0] == 0x80 + b.len()
                    &&& e.skip(1) == b
                } else {
                    let e = rlp_bytes(v);
                    let lb = min_be_bytes(b.len());
                    &&& 1 <= lb.len() <= 8
                    &&& e.len() == 1 + lb.len() + b.len()
                    &&& e[0] == 0xb7 + lb.len()
                    &&& e.subrange(1, 1 + lb.len() as int) == lb
                    &&& lb[0] != 0
                    &&& be_value(lb) == b.len()
                    &&& e.skip(1 + lb.len() as int) == b
                }
            },
            RlpVal::Items(items) => {
                let p = rlp_items_bytes(items);
                if p.len() <= 55 {
                    let e = rlp_bytes(v);
                    &&& e.len() == 1 + p.len()
                    &&& e[0] == 0xc0 + p.len()
                    &&& e.skip(1) == p
                } else {
                    let e = rlp_bytes(v);
                    let lb = min_be_bytes(p.len());
                    &&& 1 <= lb.len() <= 8
                    &&& e.len() == 1 + lb.len() + p.len()
                    &&& e[0] == 0xf7 + lb.len()
                    &&& e.subrange(1, 1 + lb.len() as int) == lb
                    &&& lb[0] != 0
                    &&& be_value(lb) == p.len()
                    &&& e.skip(1 + lb.len() as int) == p
                }
            },
        }),
{
    reveal_with_fuel(pow256, 9);
    match v {
        RlpVal::Bytes(b) => {
            if b.len() == 1 && b[0] < 0x80 {
            } else if b.len() <= 55 {
                let e = rlp_bytes(v);
                assert(e == length_prefix(b.len(), 0x80) + b);
                assert(e.skip(1) =~= b);
            } else {
                let e = rlp_bytes(v);
                let lb = min_be_bytes(b.len());
                lemma_min_be_bytes_value(b.len());
                assert(e == (seq![(0x80 + 55 + lb.len()) as u8] + lb) + b);
                assert(e.len() == 1 + lb.len() + b.len());
                assert(b.len() < pow256(8));
                lemma_min_be_bytes_len(b.len(), 8);
                assert((0x80 + 55 + lb.len()) as int <= 0xbf);
                assert(e[0] == 0xb7 + lb.len());
                assert(e.subrange(1, 1 + lb.len() as int) =~= lb);
                assert(e.skip(1 + lb.len() as int) =~= b);
            }
        },
        RlpVal::Items(items) => {
            let e = rlp_bytes(v);
            let p = rlp_items_bytes(items);
            if p.len() <= 55 {
                assert(e == length_prefix(p.len(), 0xc0) + p);
                assert(e.skip(1) =~= p);
            } else {
                let lb = min_be_bytes(p.len());
                lemma_min_be_bytes_value(p.len());
                assert(e == (seq![(0xc0 + 55 + lb.len()) as u8] + lb) + p);
                assert(e.len() == 1 + lb.len() + p.len());
                assert(p.len() < pow256(8));
                lemma_min_be_bytes_len(p.len(), 8);
                assert((0xc0 + 55 + lb.len()) as int <= 0xff);
                assert(e[0] == 0xf7 + lb.len());
                assert(e.subrange(1, 1 + lb.len() as int) =~= lb);
                assert(e.skip(1 + lb.len() as int) =~= p);
            }
        },
    }
}

/// A concatenation of encodings is empty only for the empty item sequence.
pub proof fn lemma_rlp_items_bytes_empty(items: Seq<RlpVal>)
    requires
        rlp_items_bytes(items).len() == 0,
    ensures
        items.len() == 0,
{
    if items.len() > 0 {
        if rlp_bytes(items[0]).len() < pow256(8) {
            lemma_rlp_bytes_shape(items[0]);
        } else {
            reveal_with_fuel(pow256, 9);
        }
    }
}

/// Canonical encodings are prefix-free: two values whose encodings are both
/// prefixes of one sequence are the same value with the same encoding.
pub proof fn lemma_rlp_prefix_free(a: RlpVal, b: RlpVal, s: Seq<u8>, na: int, nb: int)
    requires
        0 <= na <= s.len(),
        0 <= nb <= s.len(),
        s.len() < pow256(8),
        rlp_bytes(a) == s.take(na),
        rlp_bytes(b) == s.take(nb),
    ensures
        na == nb,
        a == b,
    decreases a,
{
    lemma_rlp_bytes_shape(a);
    lemma_rlp_bytes_shape(b);
    assert(na >= 1 && nb >= 1);
    let c = s[0];
    assert(rlp_bytes(a)[0] == c && rlp_bytes(b)[0] == c);
    match (a, b) {
        (RlpVal::Bytes(ba), RlpVal::Bytes(bb)) => {
            if ba.len() == 1 && ba[0] < 0x80 {
                assert(c < 0x80);
                assert(bb.len() == 1 && bb[0] < 0x80);
                assert(na == 1 && nb == 1);
                assert(ba =~= bb);
            } else if ba.len() <= 55 {
                assert(0x80 <= c <= 0xb7);
                assert(!(bb.len() == 1 && bb[0] < 0x80) && bb.len() <= 55);
                assert(ba.len() == c - 0x80 && bb.len() == c - 0x80);
                assert(na == nb);
                assert(rlp_bytes(a).skip(1) =~= rlp_bytes(b).skip(1));
                assert(ba == bb);
            } else {
                assert(0xb8 <= c <= 0xbf);
                assert(bb.len() > 55);
                let la = min_be_bytes(ba.len());
                let lb = min_be_bytes(bb.len());
                assert(la.len() == c - 0xb7 && lb.len() == c - 0xb7);
                assert(rlp_bytes(a).subrange(1, 1 + la.len() as int) =~= rlp_bytes(b).subrange(
                    1,
                    1 + lb.len() as int,
                ));
                assert(la == lb);
                assert(ba.len() == be_value(la) && bb.len() == be_value(lb));
                assert(na == nb);
                assert(rlp_bytes(a).skip(1 + la.len() as int) =~= rlp_bytes(b).skip(
                    1 + lb.len() as int,
                ));
                assert(ba == bb);
            }
        },
        (RlpVal::Items(ia), RlpVal::Items(ib)) => {
            let pa = rlp_items_bytes(ia);
            let pb = rlp_items_bytes(ib);
            if pa.len() <= 55 {
                assert(0xc0 <= c <= 0xf7);
                assert(pb.len() <= 55);
                assert(pa.len() == c - 0xc0 && pb.len() == c - 0xc0);
                assert(na == nb);
                assert(rlp_bytes(a).skip(1) =~= rlp_bytes(b).skip(1));
                assert(pa == pb);
            } else {
                assert(0xf8 <= c <= 0xff);
                assert(pb.len() > 55);
                let la = min_be_bytes(pa.len());
                let lb = min_be_bytes(pb.len());
                assert(la.len() == c - 0xf7 && lb.len() == c - 0xf7);
                assert(rlp_bytes(a).subrange(1, 1 + la.len() as int) =~= rlp_bytes(b).subrange(
                    1,
                    1 + lb.len() as int,
                ));
                assert(la == lb);
                assert(pa.len() == be_value(la) && pb.len() == be_value(lb));
                assert(na == nb);
                assert(rlp_bytes(a).skip(1 + la.len() as int) =~= rlp_bytes(b).skip(
                    1 + lb.len() as int,
                ));
                assert(pa == pb);
            }
            lemma_rlp_items_bytes_unique(ia, ib, pa);
            assert(ia == ib);
        },
        (RlpVal::Bytes(ba), RlpVal::Items(ib)) => {
            if ba.len() == 1 && ba[0] < 0x80 {
                assert(c < 0x80);
            } else if ba.len() <= 55 {
                assert(0x80 <= c <= 0xb7);
            } else {
                assert(0xb8 <= c <= 0xbf);
            }
            if rlp_items_bytes(ib).len() <= 55 {
                assert(0xc0 <= c <= 0xf7);
            } else {
                assert(0xf8 <= c <= 0xff);
            }
            assert(false);
        },
        (RlpVal::Items(ia), RlpVal::Bytes(bb)) => {
            if bb.len() == 1 && bb[0] < 0x80 {
                assert(c < 0x80);
            } else if bb.len() <= 55 {
                assert(0x80 <= c <= 0xb7);
            } else {
                assert(0xb8 <= c <= 0xbf);
            }
            if rlp_items_bytes(ia).len() <= 55 {
                assert(0xc0 <= c <= 0xf7);
            } else {
                assert(0xf8 <= c <= 0xff);
            }
            assert(false);
        },
    }
}

/// Two item sequences with the same concatenated encoding are equal.
pub proof fn lemma_rlp_items_bytes_unique(xs: Seq<RlpVal>, ys: Seq<RlpVal>, p: Seq<u8>)
    requires
        p.len() < pow256(8),
        rlp_items_bytes(xs) == p,
        rlp_items_bytes(ys) == p,
    ensures
        xs == ys,
    decreases xs,
{
    if p.len() == 0 {
        lemma_rlp_items_bytes_empty(xs);
        lemma_rlp_items_bytes_empty(ys);
        assert(xs =~= ys);
    } else {
        assert(xs.len() > 0 && ys.len() > 0);
        let ex = rlp_bytes(xs[0]);
        let ey = rlp_bytes(ys[0]);
        assert(ex + rlp_items_bytes(xs.skip(1)) == p);
        assert(ey + rlp_items_bytes(ys.skip(1)) == p);
        assert(ex.len() <= p.len() && ey.len() <= p.len());
        assert(ex =~= p.take(ex.len() as int));
        assert(ey =~= p.take(ey.len() as int));
        lemma_rlp_prefix_free(xs[0], ys[0], p, ex.len() as int, ey.len() as int);
        assert(rlp_items_bytes(xs.skip(1)) =~= p.skip(ex.len() as int));
        assert(rlp_items_bytes(ys.skip(1)) =~= p.skip(ey.len() as int));
        lemma_rlp_items_bytes_unique(xs.skip(1), ys.skip(1), p.skip(ex.len() as int));
        assert forall|i: int| 1 <= i < xs.len() implies xs[i] == ys[i] by {
            assert(xs.skip(1)[i - 1] == xs[i]);
            assert(ys.skip(1)[i - 1] == ys[i]);
        }
        assert(xs =~= ys);
    }
}

/// `usize::MAX` is below `pow256(8)`.
pub proof fn lemma_usize_max_bound()
    ensures
        usize::MAX < pow256(8),
{
    reveal_with_fuel(pow256, 9);
}

/// The big-endian value of a byte slice, or `None` if it does not fit in
/// `usize`.
pub fn checked_be_value(data: &[u8]) -> (r: Option<usize>)
    ensures
        match r {
            Some(l) => l == be_value(data@),
            None => be_value(data@) > usize::MAX,
        },
{
    let n = data.len();
    let mut result: usize = 0;
    let mut i: usize = 0;
    while i < n
        invariant
            n == data@.len(),
            i <= n,
            result == be_value(data@.take(i as int)),
        decreases n - i,
    {
        let b = *slice_index_get(data, i);
        proof {
            assert(data@.take(i + 1).drop_last() =~= data@.take(i as int));
            assert(data@.take(i + 1).last() == data@[i as int]);
        }
        if result > (usize::MAX - b as usize) / 256 {
            proof {
                assert(result * 256 + b > usize::MAX) by (nonlinear_arith)
                    requires
                        result > (usize::MAX - b as usize) / 256,
                        0 <= b < 256,
                ;
                lemma_be_value_take_bound(data@, i + 1);
                assert(data@.take(n as int) =~= data@);
            }
            return None;
        }
        proof {
            assert(result * 256 + b <= usize::MAX) by (nonlinear_arith)
                requires
                    result <= (usize::MAX - b as usize) / 256,
                    0 <= b < 256,
            ;
        }
        result = result * 256 + (b as usize);
        i += 1;
    }
    assert(data@.take(n as int) =~= data@);
    Some(result)
}

/// Decode one RLP value from the front of `data`, returning the value and the
/// number of bytes consumed.  Succeeds exactly when a prefix of `data` is the
/// canonical encoding of some value, and then returns that value.
///
/// Errors: `EmptyInput` on an empty slice; `InsufficientData` when a declared
/// payload runs past the end (`expected` bytes declared, `actual` available);
/// `InvalidLengthEncoding` on a non-minimal length form; `LengthTooLarge`
/// when a declared length exceeds the platform length type.
pub fn decode_length(data: &[u8]) -> (r: Result<(RlpData, usize), RlpDecodeError>)
    ensures
        (match r {
            Ok((v, n)) => 1 <= n <= data@.len() && rlp_bytes(v@) == data@.take(n as int),
            Err(_) => forall|v: RlpVal, n: int|
                #![trigger rlp_bytes(v), data@.take(n)]
                1 <= n <= data@.len() ==> rlp_bytes(v) != data@.take(n),
        }),
        r matches Err(e) ==> (e is EmptyInput <==> data@.len() == 0),
        r matches Err(e) ==> !(e is TrailingBytes),
    decreases data@.len(), 2int,
{
    let full_len = data.len();
    if full_len == 0 {
        return Err(RlpDecodeError::EmptyInput);
    }
    proof {
        lemma_usize_max_bound();
    }
    let prefix = *slice_index_get(data, 0);
    if prefix <= 0x7f {
        let v = RlpData::String(vec![prefix]);
        proof {
            assert(v@ matches RlpVal::Bytes(b) && b =~= seq![prefix]);
            assert(rlp_bytes(v@) =~= data@.take(1));
        }
        Ok((v, 1))
    } else if prefix <= 0xb7 {
        let payload_len = (prefix - 0x80) as usize;
        if full_len - 1 < payload_len {
            proof {
                assert forall|v: RlpVal, n: int|
                    #![trigger rlp_bytes(v), data@.take(n)]
                    1 <= n <= data@.len() implies rlp_bytes(v) != data@.take(n) by {
                    if rlp_bytes(v) == data@.take(n) {
                        lemma_rlp_bytes_shape(v);
                        assert(rlp_bytes(v)[0] == data@[0]);
                        assert(false);
                    }
                }
            }
            return Err(
                RlpDecodeError::InsufficientData { expected: payload_len, actual: full_len - 1 },
            );
        }
        let bytes = slice_to_vec(slice_subrange(data, 1, 1 + payload_len));
        if payload_len == 1 && bytes[0] < 0x80 {
            proof {
                assert forall|v: RlpVal, n: int|
                    #![trigger rlp_bytes(v), data@.take(n)]
                    1 <= n <= data@.len() implies rlp_bytes(v) != data@.take(n) by {
                    if rlp_bytes(v) == data@.take(n) {
                        lemma_rlp_bytes_shape(v);
                        assert(rlp_bytes(v)[0] == data@[0]);
                        match v {
                            RlpVal::Bytes(b) => {
                                if !(b.len() == 1 && b[0] < 0x80) && b.len() <= 55 {
                                    assert(b.len() == 1);
                                    assert(b[0] == rlp_bytes(v).skip(1)[0]);
                                    assert(b[0] == data@[1]);
                                }
                            },
                            RlpVal::Items(_) => {},
                        }
                        assert(false);
                    }
                }
            }
            return Err(RlpDecodeError::InvalidLengthEncoding);
        }
        let n = 1 + payload_len;
        let v = RlpData::String(bytes);
        proof {
            let b = v@->Bytes_0;
            assert(b =~= data@.subrange(1, n as int));
            assert(rlp_bytes(v@) =~= data@.take(n as int));
        }
        Ok((v, n))
    } else if prefix <= 0xbf {
        let len_of_len = (prefix - 0xb7) as usize;
        decode_long_header_and_string(data, len_of_len)
    } else if prefix <= 0xf7 {
        let list_len = (prefix - 0xc0) as usize;
        if full_len - 1 < list_len {
            proof {
                assert forall|v: RlpVal, n: int|
                    #![trigger rlp_bytes(v), data@.take(n)]
                    1 <= n <= data@.len() implies rlp_bytes(v) != data@.take(n) by {
                    if rlp_bytes(v) == data@.take(n) {
                        lemma_rlp_bytes_shape(v);
                        assert(rlp_bytes(v)[0] == data@[0]);
                        assert(false);
                    }
                }
            }
            return Err(
                RlpDecodeError::InsufficientData { expected: list_len, actual: full_len - 1 },
            );
        }
        let list_data = slice_subrange(data, 1, 1 + list_len);
        match decode_items(list_data) {
            Ok(items) => {
                let n = 1 + list_len;
                let v = RlpData::List(items);
                proof {
                    let p = rlp_items_bytes(v@->Items_0);
                    assert(p == list_data@);
                    assert(p.len() == list_len <= 55);
                    assert(rlp_bytes(v@) =~= data@.take(n as int));
                }
                Ok((v, n))
            },
            Err(e) => {
                proof {
                    assert forall|v: RlpVal, n: int|
                        #![trigger rlp_bytes(v), data@.take(n)]
                        1 <= n <= data@.len() implies rlp_bytes(v) != data@.take(n) by {
                        if rlp_bytes(v) == data@.take(n) {
                            lemma_rlp_bytes_shape(v);
                            assert(rlp_bytes(v)[0] == data@[0]);
                            match v {
                                RlpVal::Items(its) => {
                                    assert(rlp_items_bytes(its).len() == list_len);
                                    assert(rlp_items_bytes(its) =~= rlp_bytes(v).skip(1));
                                    assert(rlp_items_bytes(its) =~= list_data@);
                                },
                                RlpVal::Bytes(_) => {},
                            }
                            assert(false);
                        }
                    }
                }
                Err(e)
            },
        }
    } else {
        let len_of_len = (prefix - 0xf7) as usize;
        decode_long_header_and_list(data, len_of_len)
    }
}

/// Decode the long-string form: `data[0] == 0xb7 + len_of_len`.
fn decode_long_header_and_string(data: &[u8], len_of_len: usize) -> (r: Result<
    (RlpData, usize),
    RlpDecodeError,
>)
    requires
        data@.len() >= 1,
        1 <= len_of_len <= 8,
        data@[0] == 0xb7 + len_of_len,
    ensures
        (match r {
            Ok((v, n)) => 1 <= n <= data@.len() && rlp_bytes(v@) == data@.take(n as int),
            Err(_) => forall|v: RlpVal, n: int|
                #![trigger rlp_bytes(v), data@.take(n)]
                1 <= n <= data@.len() ==> rlp_bytes(v) != data@.take(n),
        }),
        r matches Err(e) ==> !(e is EmptyInput) && !(e is TrailingBytes),
{
    proof {
        lemma_usize_max_bound();
    }
    let full_len = data.len();
    match decode_long_length(data, len_of_len) {
        Ok(payload_len) => {
            let start = 1 + len_of_len;
            if full_len - start < payload_len {
                proof {
                    long_err_forall(data@, len_of_len as int, payload_len as int);
                }
                return Err(
                    RlpDecodeError::InsufficientData {
                        expected: payload_len,
                        actual: full_len - start,
                    },
                );
            }
            let n = start + payload_len;
            let bytes = slice_to_vec(slice_subrange(data, start, n));
            let v = RlpData::String(bytes);
            proof {
                let lb = data@.subrange(1, start as int);
                lemma_be_value_canonical(lb);
                assert(min_be_bytes(payload_len as nat) == lb);
                let b = v@->Bytes_0;
                assert(b =~= data@.subrange(start as int, n as int));
                assert(b.len() == payload_len > 55);
                assert(rlp_bytes(v@) == length_prefix(b.len(), 0x80) + b);
                assert(rlp_bytes(v@) =~= data@.take(n as int));
            }
            Ok((v, n))
        },
        Err(e) => Err(e),
    }
}

/// Decode the long-list form: `data[0] == 0xf7 + len_of_len`.
fn decode_long_header_and_list(data: &[u8], len_of_len: usize) -> (r: Result<
    (RlpData, usize),
    RlpDecodeError,
>)
    requires
        data@.len() >= 1,
        1 <= len_of_len <= 8,
        data@[0] == 0xf7 + len_of_len,
    ensures
        (match r {
            Ok((v, n)) => 1 <= n <= data@.len() && rlp_bytes(v@) == data@.take(n as int),
            Err(_) => forall|v: RlpVal, n: int|
                #![trigger rlp_bytes(v), data@.take(n)]
                1 <= n <= data@.len() ==> rlp_bytes(v) != data@.take(n),
        }),
        r matches Err(e) ==> !(e is EmptyInput) && !(e is TrailingBytes),
    decreases data@.len(), 1int,
{
    proof {
        lemma_usize_max_bound();
    }
    let full_len = data.len();
    match decode_long_length(data, len_of_len) {
        Ok(payload_len) => {
            let start = 1 + len_of_len;
            if full_len - start < payload_len {
                proof {
                    long_err_forall(data@, len_of_len as int, payload_len as int);
                }
                return Err(
                    RlpDecodeError::InsufficientData {
                        expected: payload_len,
                        actual: full_len - start,
                    },
                );
            }
            let n = start + payload_len;
            let list_data = slice_subrange(data, start, n);
            match decode_items(list_data) {
                Ok(items) => {
                    let v = RlpData::List(items);
                    proof {
                        let lb = data@.subrange(1, start as int);
                        lemma_be_value_canonical(lb);
                        assert(min_be_bytes(payload_len as nat) == lb);
                        let p = rlp_items_bytes(v@->Items_0);
                        assert(p == list_data@);
                        assert(p.len() == payload_len > 55);
                        assert(rlp_bytes(v@) == length_prefix(p.len(), 0xc0) + p);
                        assert(rlp_bytes(v@) =~= data@.take(n as int));
                    }
                    Ok((v, n))
                },
                Err(e) => {
                    proof {
                        assert forall|v: RlpVal, n0: int|
                            #![trigger rlp_bytes(v), data@.take(n0)]
                            1 <= n0 <= data@.len() implies rlp_bytes(v) != data@.take(n0) by {
                            if rlp_bytes(v) == data@.take(n0) {
                                lemma_rlp_bytes_shape(v);
                                assert(rlp_bytes(v)[0] == data@[0]);
                                match v {
                                    RlpVal::Items(its) => {
                                        let p = rlp_items_bytes(its);
                                        if p.len() > 55 {
                                            let lb = min_be_bytes(p.len());
                                            assert(lb.len() == len_of_len);
                                            assert(lb =~= data@.subrange(1, start as int));
                                            assert(be_value(lb) == p.len());
                                            assert(p.len() == payload_len);
                                            assert(p =~= rlp_bytes(v).skip(start as int));
                                            assert(p =~= list_data@);
                                        }
                                    },
                                    RlpVal::Bytes(_) => {},
                                }
                                assert(false);
                            }
                        }
                    }
                    Err(e)
                },
            }
        },
        Err(e) => Err(e),
    }
}

/// Read and validate the long-form length field: `len_of_len` big-endian
/// bytes after the prefix, minimal and at least 56.
fn decode_long_length(data: &[u8], len_of_len: usize) -> (r: Result<usize, RlpDecodeError>)
    requires
        data@.len() >= 1,
        1 <= len_of_len <= 8,
        data@[0] == 0xb7 + len_of_len || data@[0] == 0xf7 + len_of_len,
    ensures
        (match r {
            Ok(l) => {
                &&& data@.len() >= 1 + len_of_len
                &&& data@[1] != 0
                &&& l == be_value(data@.subrange(1, 1 + len_of_len as int))
                &&& l > 55
            },
            Err(_) => forall|v: RlpVal, n: int|
                #![trigger rlp_bytes(v), data@.take(n)]
                1 <= n <= data@.len() ==> rlp_bytes(v) != data@.take(n),
        }),
        r matches Err(e) ==> !(e is EmptyInput) && !(e is TrailingBytes),
{
    proof {
        lemma_usize_max_bound();
    }
    let full_len = data.len();
    if full_len - 1 < len_of_len {
        proof {
            assert forall|v: RlpVal, n: int|
                #![trigger rlp_bytes(v), data@.take(n)]
                1 <= n <= data@.len() implies rlp_bytes(v) != data@.take(n) by {
                if rlp_bytes(v) == data@.take(n) {
                    lemma_rlp_bytes_shape(v);
                    assert(rlp_bytes(v)[0] == data@[0]);
                    assert(false);
                }
            }
        }
        return Err(RlpDecodeError::InsufficientData { expected: len_of_len, actual: full_len - 1 });
    }
    if *slice_index_get(data, 1) == 0 {
        proof {
            assert forall|v: RlpVal, n: int|
                #![trigger rlp_bytes(v), data@.take(n)]
                1 <= n <= data@.len() implies rlp_bytes(v) != data@.take(n) by {
                if rlp_bytes(v) == data@.take(n) {
                    lemma_rlp_bytes_shape(v);
                    assert(rlp_bytes(v)[0] == data@[0]);
                    long_header_bytes(v, data@, n, len_of_len as int);
                    assert(false);
                }
            }
        }
        return Err(RlpDecodeError::InvalidLengthEncoding);
    }
    let len_slice = slice_subrange(data, 1, 1 + len_of_len);
    match checked_be_value(len_slice) {
        None => {
            proof {
                assert forall|v: RlpVal, n: int|
                    #![trigger rlp_bytes(v), data@.take(n)]
                    1 <= n <= data@.len() implies rlp_bytes(v) != data@.take(n) by {
                    if rlp_bytes(v) == data@.take(n) {
                        lemma_rlp_bytes_shape(v);
                        assert(rlp_bytes(v)[0] == data@[0]);
                        long_header_bytes(v, data@, n, len_of_len as int);
                        assert(false);
                    }
                }
            }
            Err(RlpDecodeError::LengthTooLarge)
        },
        Some(payload_len) => {
            if payload_len < 56 {
                proof {
                    assert forall|v: RlpVal, n: int|
                        #![trigger rlp_bytes(v), data@.take(n)]
                        1 <= n <= data@.len() implies rlp_bytes(v) != data@.take(n) by {
                        if rlp_bytes(v) == data@.take(n) {
                            lemma_rlp_bytes_shape(v);
                            assert(rlp_bytes(v)[0] == data@[0]);
                            long_header_bytes(v, data@, n, len_of_len as int);
                            assert(false);
                        }
                    }
                }
                return Err(RlpDecodeError::InvalidLengthEncoding);
            }
            Ok(payload_len)
        },
    }
}

/// For a value whose encoding is a prefix of `s` and starts with a long-form
/// prefix byte, relate the header bytes of `s` to the payload length.
proof fn long_header_bytes(v: RlpVal, s: Seq<u8>, n: int, len_of_len: int)
    requires
        1 <= n <= s.len(),
        s.len() <= usize::MAX,
        1 <= len_of_len <= 8,
        s[0] == 0xb7 + len_of_len || s[0] == 0xf7 + len_of_len,
        rlp_bytes(v) == s.take(n),
    ensures
        n >= 1 + len_of_len,
        s[1] != 0,
        be_value(s.subrange(1, 1 + len_of_len)) > 55,
        n == 1 + len_of_len + be_value(s.subrange(1, 1 + len_of_len)),
{
    lemma_usize_max_bound();
    lemma_rlp_bytes_shape(v);
    assert(rlp_bytes(v)[0] == s[0]);
    match v {
        RlpVal::Bytes(b) => {
            assert(b.len() > 55);
            let lb = min_be_bytes(b.len());
            assert(lb.len() == len_of_len);
            assert(lb =~= s.subrange(1, 1 + len_of_len));
            assert(s[1] == lb[0]);
            assert(be_value(lb) == b.len());
        },
        RlpVal::Items(its) => {
            let p = rlp_items_bytes(its);
            assert(p.len() > 55);
            let lb = min_be_bytes(p.len());
            assert(lb.len() == len_of_len);
            assert(lb =~= s.subrange(1, 1 + len_of_len));
            assert(s[1] == lb[0]);
            assert(be_value(lb) == p.len());
        },
    }
}

/// For an error after a well-formed long header: no value's encoding fits as
/// a prefix when the declared payload runs past the end.
proof fn long_err_forall(s: Seq<u8>, len_of_len: int, payload_len: int)
    requires
        s.len() >= 1,
        s.len() <= usize::MAX,
        1 <= len_of_len <= 8,
        s[0] == 0xb7 + len_of_len || s[0] == 0xf7 + len_of_len,
        s.len() >= 1 + len_of_len,
        payload_len == be_value(s.subrange(1, 1 + len_of_len)),
        s.len() - 1 - len_of_len < payload_len,
    ensures
        forall|v: RlpVal, n: int|
            #![trigger rlp_bytes(v), s.take(n)]
            1 <= n <= s.len() ==> rlp_bytes(v) != s.take(n),
{
    assert forall|v: RlpVal, n: int|
        #![trigger rlp_bytes(v), s.take(n)]
        1 <= n <= s.len() implies rlp_bytes(v) != s.take(n) by {
        if rlp_bytes(v) == s.take(n) {
            long_header_bytes(v, s, n, len_of_len);
            assert(false);
        }
    }
}

/// Decode a list payload: a sequence of RLP values that exactly fills
/// `payload`.  Succeeds exactly when `payload` is a concatenation of
/// canonical encodings.
fn decode_items(payload: &[u8]) -> (r: Result<Vec<RlpData>, RlpDecodeError>)
    ensures
        (match r {
            Ok(items) => rlp_items_bytes(views_of(items@)) == payload@,
            Err(_) => forall|its: Seq<RlpVal>| #[trigger]
                rlp_items_bytes(its) != payload@,
        }),
        r matches Err(e) ==> !(e is EmptyInput) && !(e is TrailingBytes),
    decreases payload@.len(), 3int,
{
    let total = payload.len();
    let mut items: Vec<RlpData> = Vec::new();
    let mut offset: usize = 0;
    proof {
        assert(views_of(items@) =~= Seq::<RlpVal>::empty());
        assert(rlp_items_bytes(views_of(items@)) =~= payload@.take(0));
        assert forall|its: Seq<RlpVal>| #[trigger]
            rlp_items_bytes(its) == payload@ implies exists|j: int|
            0 <= j <= its.len() && #[trigger] rlp_items_bytes(its.skip(j)) == payload@.skip(
                0,
            ) by {
            assert(its.skip(0) =~= its);
            assert(payload@.skip(0) =~= payload@);
            assert(rlp_items_bytes(its.skip(0)) == payload@.skip(0));
        }
    }
    while offset < total
        invariant
            total == payload@.len(),
            offset <= total,
            rlp_items_bytes(views_of(items@)) == payload@.take(offset as int),
            forall|its: Seq<RlpVal>| #[trigger]
                rlp_items_bytes(its) == payload@ ==> exists|j: int|
                    0 <= j <= its.len() && #[trigger] rlp_items_bytes(its.skip(j)) == payload@.skip(
                        offset as int,
                    ),
        decreases total - offset,
    {
        let rest = slice_subrange(payload, offset, total);
        assert(rest@ == payload@.skip(offset as int));
        match decode_length(rest) {
            Ok((item, consumed)) => {
                proof {
                    lemma_usize_max_bound();
                    let ghost old_models = views_of(items@);
                    lemma_rlp_items_bytes_push(old_models, item@);
                    assert(views_of(items@.push(item)) =~= old_models.push(item@));
                    assert(payload@.take(offset + consumed) =~= payload@.take(offset as int)
                        + rest@.take(consumed as int));
                    // carry the boundary invariant one item forward
                    assert forall|its: Seq<RlpVal>| #[trigger]
                        rlp_items_bytes(its) == payload@ implies exists|j: int|
                        0 <= j <= its.len() && #[trigger] rlp_items_bytes(its.skip(j))
                            == payload@.skip(offset + consumed) by {
                        let j0 = choose|j: int|
                            0 <= j <= its.len() && #[trigger] rlp_items_bytes(its.skip(j))
                                == payload@.skip(offset as int);
                        let tail = its.skip(j0);
                        assert(rlp_items_bytes(tail).len() == total - offset);
                        lemma_rlp_items_bytes_empty_contra(tail);
                        assert(tail.len() > 0);
                        let head = tail[0];
                        let eh = rlp_bytes(head);
                        assert(eh + rlp_items_bytes(tail.skip(1)) == rest@);
                        assert(eh.len() <= rest@.len());
                        assert(eh =~= rest@.take(eh.len() as int));
                        lemma_rlp_prefix_free(head, item@, rest@, eh.len() as int, consumed as int);
                        assert(rlp_items_bytes(tail.skip(1)) =~= rest@.skip(consumed as int));
                        assert(tail.skip(1) =~= its.skip(j0 + 1));
                        assert(rest@.skip(consumed as int) =~= payload@.skip(offset + consumed));
                        assert(0 <= j0 + 1 <= its.len() && rlp_items_bytes(its.skip(j0 + 1))
                            == payload@.skip(offset + consumed));
                    }
                }
                items.push(item);
                offset = offset + consumed;
            },
            Err(e) => {
                proof {
                    assert forall|its: Seq<RlpVal>| #[trigger]
                        rlp_items_bytes(its) != payload@ by {
                        if rlp_items_bytes(its) == payload@ {
                            let j0 = choose|j: int|
                                0 <= j <= its.len() && #[trigger] rlp_items_bytes(its.skip(j))
                                    == payload@.skip(offset as int);
                            let tail = its.skip(j0);
                            assert(rlp_items_bytes(tail).len() == total - offset);
                            lemma_rlp_items_bytes_empty_contra(tail);
                            assert(tail.len() > 0);
                            let head = tail[0];
                            let eh = rlp_bytes(head);
                            assert(eh + rlp_items_bytes(tail.skip(1)) == rest@);
                            assert(eh.len() <= rest@.len());
                            assert(eh =~= rest@.take(eh.len() as int));
                            lemma_rlp_bytes_len_pos(head);
                            assert(false);
                        }
                    }
                }
                return Err(e);
            },
        }
    }
    proof {
        assert(payload@.take(total as int) =~= payload@);
    }
    Ok(items)
}

/// Every encoding is nonempty.
pub proof fn lemma_rlp_bytes_len_pos(v: RlpVal)
    ensures
        rlp_bytes(v).len() >= 1,
{
    match v {
        RlpVal::Bytes(b) => {},
        RlpVal::Items(items) => {},
    }
}

/// A nonempty concatenation comes from a nonempty item sequence.
proof fn lemma_rlp_items_bytes_empty_contra(items: Seq<RlpVal>)
    ensures
        rlp_items_bytes(items).len() > 0 ==> items.len() > 0,
{
    if items.len() == 0 {
        assert(rlp_items_bytes(items).len() == 0);
    }
}

/// Decode a complete RLP value: the whole input must be consumed.  Succeeds
/// exactly when `data` is the canonical encoding of some value, and then
/// returns that value.  A decodable proper prefix yields `TrailingBytes`.
pub fn decode_rlp(data: &[u8]) -> (r: Result<RlpData, RlpDecodeError>)
    ensures
        (match r {
            Ok(v) => rlp_bytes(v@) == data@,
            Err(_) => forall|v: RlpVal| #[trigger] rlp_bytes(v) != data@,
        }),
        r matches Err(e) ==> (e is EmptyInput <==> data@.len() == 0),
        r matches Err(e) ==> (e matches RlpDecodeError::TrailingBytes { decoded, total } ==> {
            &&& total == data@.len()
            &&& 1 <= decoded < total
            &&& exists|v: RlpVal| #[trigger] rlp_bytes(v) == data@.take(decoded as int)
        }),
{
    proof {
        lemma_usize_max_bound();
    }
    match decode_length(data) {
        Ok((v, n)) => {
            if n < data.len() {
                proof {
                    assert forall|w: RlpVal| #[trigger] rlp_bytes(w) != data@ by {
                        if rlp_bytes(w) == data@ {
                            assert(data@.take(data@.len() as int) =~= data@);
                            lemma_rlp_prefix_free(v@, w, data@, n as int, data@.len() as int);
                            assert(false);
                        }
                    }
                }
                proof {
                    assert(exists|w: RlpVal| #[trigger] rlp_bytes(w) == data@.take(n as int)) by {
                        assert(rlp_bytes(v@) == data@.take(n as int));
                    }
                }
                Err(RlpDecodeError::TrailingBytes { decoded: n, total: data.len() })
            } else {
                proof {
                    assert(data@.take(n as int) =~= data@);
                }
                Ok(v)
            }
        },
        Err(e) => {
            proof {
                assert forall|w: RlpVal| #[trigger] rlp_bytes(w) != data@ by {
                    if rlp_bytes(w) == data@ {
                        lemma_rlp_bytes_len_pos(w);
                        assert(data@.take(data@.len() as int) =~= data@);
                        assert(rlp_bytes(w) == data@.take(data@.len() as int));
                    }
                }
            }
            Err(e)
        },
    }
}

/// Canonical encoding is injective: equal encodings mean equal values.  This
/// is the round-trip law in spec form: a strict decoder that accepts an
/// encoding can only return the value that produced it.
pub proof fn lemma_rlp_encoding_injective(a: RlpVal, b: RlpVal)
    requires
        rlp_bytes(a) == rlp_bytes(b),
        rlp_bytes(a).len() < pow256(8),
    ensures
        a == b,
{
    let s = rlp_bytes(a);
    assert(s.take(s.len() as int) =~= s);
    lemma_rlp_prefix_free(a, b, s, s.len() as int, s.len() as int);
}

} // verus!
