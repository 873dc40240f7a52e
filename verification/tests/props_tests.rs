use merkle_patricia_trie::db::MemStore;
use merkle_patricia_trie::path::Key32;
use merkle_patricia_trie::rlp::{decode_rlp, encode_rlp, RlpData, RlpDecodeError};
use merkle_patricia_trie::storage::{compact_decode, compact_encode};
use merkle_patricia_trie::trie::Trie;
use rand::random;

#[test]
fn set_then_get_returns_value() {
    let mut trie = Trie::new();
    let key = Key32(random::<[u8; 32]>());
    trie.set(key, b"some value");
    assert_eq!(trie.get(key), Some(b"some value".to_vec()));
}

#[test]
fn second_set_wins() {
    let mut trie = Trie::new();
    let key = Key32(random::<[u8; 32]>());
    trie.set(key, b"v1");
    trie.set(key, b"v2");
    assert_eq!(trie.get(key), Some(b"v2".to_vec()));
}

#[test]
fn absent_key_misses_and_delete_reports_false() {
    let mut trie = Trie::new();
    trie.set(Key32(*b"present1111111111111111111111111"), b"v");
    let absent = Key32(*b"absent11111111111111111111111111");
    assert_eq!(trie.get(absent), None);
    assert_eq!(trie.delete(absent), false);
}

#[test]
fn set_delete_get_misses() {
    let mut trie = Trie::new();
    let key = Key32(random::<[u8; 32]>());
    trie.set(key, b"v");
    assert_eq!(trie.delete(key), true);
    assert_eq!(trie.get(key), None);
}

#[test]
fn rlp_round_trip_values() {
    let values = [
        RlpData::String(vec![]),
        RlpData::String(vec![0x00]),
        RlpData::String(vec![0x7f]),
        RlpData::String(vec![0x80]),
        RlpData::String(vec![0xaa; 55]),
        RlpData::String(vec![0xbb; 56]),
        RlpData::String(vec![0xcc; 300]),
        RlpData::List(vec![]),
        RlpData::List(vec![RlpData::String(b"cat".to_vec()), RlpData::List(vec![])]),
    ];
    for v in values {
        let copy = match &v {
            RlpData::String(b) => RlpData::String(b.clone()),
            RlpData::List(_) => encode_then_rebuild(&v),
        };
        let encoded = encode_rlp(copy);
        assert_eq!(decode_rlp(&encoded).unwrap(), v);
    }
}

// rebuild a list value by decoding its own encoding, for reuse in the
// round-trip check above
fn encode_then_rebuild(v: &RlpData) -> RlpData {
    let bytes = match v {
        RlpData::String(b) => encode_rlp(RlpData::String(b.clone())),
        RlpData::List(items) => {
            let mut rebuilt = Vec::new();
            for item in items {
                rebuilt.push(encode_then_rebuild(item));
            }
            return RlpData::List(rebuilt);
        },
    };
    decode_rlp(&bytes).unwrap()
}

#[test]
fn rlp_decode_error_variants() {
    // no bytes at all
    assert_eq!(decode_rlp(&[]), Err(RlpDecodeError::EmptyInput));
    // declared three payload bytes, only two present
    assert_eq!(
        decode_rlp(&[0x83, 0x01, 0x02]),
        Err(RlpDecodeError::InsufficientData {
            expected: 3,
            actual: 2
        })
    );
    // a single small byte wrapped in a string prefix is not canonical
    assert_eq!(
        decode_rlp(&[0x81, 0x05]),
        Err(RlpDecodeError::InvalidLengthEncoding)
    );
    // a long form used for a short value is not canonical
    assert_eq!(
        decode_rlp(&[0xb8, 0x05, 0x01, 0x02, 0x03, 0x04, 0x05]),
        Err(RlpDecodeError::InvalidLengthEncoding)
    );
    // a length field with a leading zero byte is not canonical
    assert_eq!(
        decode_rlp(&[0xb9, 0x00, 0x38]),
        Err(RlpDecodeError::InvalidLengthEncoding)
    );
    // bytes after the first complete value
    assert_eq!(
        decode_rlp(&[0x80, 0x00]),
        Err(RlpDecodeError::TrailingBytes {
            decoded: 1,
            total: 2
        })
    );
}

#[test]
fn hp_round_trip_all_kinds() {
    let cases: [(bool, Vec<u8>); 4] = [
        (false, vec![1, 2, 3, 4, 5]),
        (false, vec![0, 1, 2, 3, 4, 5]),
        (true, vec![0, 0xf, 1, 0xc, 0xb, 8]),
        (true, vec![0xf, 1, 0xc, 0xb, 8]),
    ];
    for (is_leaf, nibbles) in cases {
        let node = if is_leaf {
            merkle_patricia_trie::node::Node::new_leaf(
                merkle_patricia_trie::path::NibblePath::new(nibbles.clone()),
                b"v".to_vec(),
            )
        } else {
            merkle_patricia_trie::node::Node::Extension(
                merkle_patricia_trie::node::ExtensionNode::new(
                    merkle_patricia_trie::path::NibblePath::new(nibbles.clone()),
                    Box::new(merkle_patricia_trie::node::Node::dummy()),
                ),
            )
        };
        let encoded = compact_encode(&node).unwrap();
        let decoded = compact_decode(&encoded).unwrap();
        assert_eq!(decoded.nibbles, nibbles);
        // the flag nibble keeps the kind apart
        let flag = encoded[0] >> 4;
        assert_eq!(flag >= 2, is_leaf);
    }
}

#[test]
fn commit_root_independent_of_insertion_order() {
    let pairs: [(Key32, &[u8]); 4] = [
        (Key32(*b"common11111111111111111111111111"), b"v1"),
        (Key32(*b"common22222222222222222222222222"), b"v2"),
        (Key32(*b"common23333333333333333333333333"), b"v3"),
        (Key32(*b"x2345678901234567890123456789012"), b"v4"),
    ];

    let mut t1 = Trie::new();
    for (k, v) in pairs.iter() {
        t1.set(*k, v);
    }

    let mut t2 = Trie::new();
    for (k, v) in pairs.iter().rev() {
        t2.set(*k, v);
    }

    let mut s1 = MemStore::new();
    let mut s2 = MemStore::new();
    let r1 = t1.commit(&mut s1).unwrap();
    let r2 = t2.commit(&mut s2).unwrap();
    assert_eq!(r1, r2);
    assert_eq!(r1.canonicalize_root(), r2.canonicalize_root());
}

#[test]
fn invariants_hold_after_every_operation() {
    let mut trie = Trie::new();
    assert!(trie.check_invariants());

    let keys = [
        Key32(*b"j23456abcdefghijklmnopqrstuvwxyz"),
        Key32(*b"523456abcdefghijklmnopqrstuvwxyz"),
        Key32(*b"523456zyxwvutsrqponmlkjihgfedcba"),
        Key32(*b"523abcdefghijklmnopqrstuvwxyz123"),
        Key32(*b"523456q1111111111111111111111111"),
    ];
    for (i, key) in keys.iter().enumerate() {
        trie.set(*key, format!("val{}", i).as_bytes());
        assert!(trie.check_invariants());
    }
    for key in keys.iter() {
        assert!(trie.delete(*key));
        assert!(trie.check_invariants());
    }
    assert_eq!(trie.root(), None);
}

#[test]
fn extension_merge_leaves_no_single_child_branch() {
    let mut trie = Trie::new();
    trie.set(Key32(*b"common11111111111111111111111111"), b"val1");
    trie.set(Key32(*b"common22222222222222222222222222"), b"val2");
    trie.set(Key32(*b"common23333333333333333333333333"), b"val3");

    assert!(trie.delete(Key32(*b"common23333333333333333333333333")));
    // the checker walks the whole tree: a branch with one child would fail it
    assert!(trie.check_invariants());
}

#[test]
fn delete_in_reverse_restores_each_root() {
    let mut trie = Trie::new();
    let keys = [
        Key32(*b"abc11111111111111111111111111111"),
        Key32(*b"abc22222222222222222222222222222"),
        Key32(*b"xyz11111111111111111111111111111"),
    ];
    let mut snapshots = vec![trie.root().map(|n| n.duplicate())];
    for (i, key) in keys.iter().enumerate() {
        trie.set(*key, format!("v{}", i).as_bytes());
        snapshots.push(trie.root().map(|n| n.duplicate()));
    }
    for i in (0..keys.len()).rev() {
        assert!(trie.delete(keys[i]));
        assert_eq!(trie.root(), snapshots[i].as_ref());
    }
}
