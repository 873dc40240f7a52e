use merkle_patricia_trie::db::{HashDB, MemStore};
use merkle_patricia_trie::node::{ExtensionNode, LeafNode, Node};
use merkle_patricia_trie::path::{Key32, NibblePath};
use merkle_patricia_trie::rlp::RlpData;
use merkle_patricia_trie::storage::{
    commit_node, compact_decode, compact_encode, get_value, hp_flag, keccak256, load_child,
    parse_node, CompactDecodeError, NodeRef,
};
use merkle_patricia_trie::trie::Trie;

#[test]
fn compact_encode_leaf() {
    let test_cases: [(Node, Vec<u8>, Vec<u8>); 4] = [
        (
            Node::Extension(ExtensionNode::new(
                NibblePath::new(vec![0x1, 0x2, 0x3, 0x4, 0x5]),
                Box::new(Node::dummy()),
            )),
            vec![0x11, 0x23, 0x45],
            vec![0x1, 0x2, 0x3, 0x4, 0x5],
        ),
        (
            Node::Extension(ExtensionNode::new(
                NibblePath::new(vec![0x0, 0x1, 0x2, 0x3, 0x4, 0x5]),
                Box::new(Node::dummy()),
            )),
            vec![0x00, 0x01, 0x23, 0x45],
            vec![0x0, 0x1, 0x2, 0x3, 0x4, 0x5],
        ),
        (
            Node::Leaf(LeafNode::new(
                NibblePath::new(vec![0x0, 0xf, 0x1, 0xc, 0xb, 0x8]),
                b"world".to_vec(),
            )),
            vec![0x20, 0x0f, 0x1c, 0xb8],
            vec![0x0, 0xf, 0x1, 0xc, 0xb, 0x8],
        ),
        (
            Node::Leaf(LeafNode::new(
                NibblePath::new(vec![0xf, 0x1, 0xc, 0xb, 0x8]),
                b"world".to_vec(),
            )),
            vec![0x3f, 0x1c, 0xb8],
            vec![0xf, 0x1, 0xc, 0xb, 0x8],
        ),
    ];

    for test in test_cases {
        let expected_encoding = &test.1;
        let original_path = NibblePath::new(test.2.clone());
        let encoded = compact_encode(&test.0).unwrap();
        let decoded = compact_decode(&encoded).unwrap();

        assert_eq!(encoded, *expected_encoding);
        assert_eq!(decoded, original_path);
    }
}

#[test]
fn hp_flag_identifies_kind() {
    let leaf = Node::Leaf(LeafNode::new(NibblePath::new(vec![0xf, 0x1]), b"v".to_vec()));
    let encoded = compact_encode(&leaf).unwrap();
    assert_eq!(hp_flag(&encoded), Some(2)); // leaf, even length

    let ext = Node::Extension(ExtensionNode::new(
        NibblePath::new(vec![0x1, 0x2, 0x3]),
        Box::new(Node::dummy()),
    ));
    let encoded = compact_encode(&ext).unwrap();
    assert_eq!(hp_flag(&encoded), Some(1)); // extension, odd length

    assert_eq!(hp_flag(&[]), None);
}

#[test]
fn compact_encode_rejects_branch() {
    assert!(compact_encode(&Node::dummy()).is_err());
}

#[test]
fn compact_decode_errors() {
    assert_eq!(compact_decode(&[]), Err(CompactDecodeError::EmptyPath));
    assert_eq!(
        compact_decode(&[0x45, 0x00]),
        Err(CompactDecodeError::InvalidFlag { flag: 4 })
    );
}

#[test]
fn keccak256_empty_vector() {
    // the Keccak-256 digest of the empty byte string
    let expected: [u8; 32] = [
        0xc5, 0xd2, 0x46, 0x01, 0x86, 0xf7, 0x23, 0x3c, 0x92, 0x7e, 0x7d, 0xb2, 0xdc, 0xc7, 0x03,
        0xc0, 0xe5, 0x00, 0xb6, 0x53, 0xca, 0x82, 0x27, 0x3b, 0x7b, 0xfa, 0xd8, 0x04, 0x5d, 0x85,
        0xa4, 0x70,
    ];
    assert_eq!(keccak256(&[]), expected);
}

#[test]
fn node_ref_hex_string() {
    let r = NodeRef::Inline(vec![0x00, 0x01, 0x02, 0x0f, 0xb8]);
    assert_eq!(r.hex_string(), "0001020fb8");
    let h = NodeRef::Hash([0xab; 32]);
    assert_eq!(h.hex_string(), "ab".repeat(32));
}

#[test]
fn commit_and_load_round_trip() {
    let mut trie = Trie::new();
    let keys = [
        Key32(*b"j23456abcdefghijklmnopqrstuvwxyz"),
        Key32(*b"523456abcdefghijklmnopqrstuvwxyz"),
        Key32(*b"523456zyxwvutsrqponmlkjihgfedcba"),
    ];
    let values: [&[u8]; 3] = [b"val1", b"val2", b"val3"];
    for (key, value) in keys.iter().zip(values.iter()) {
        trie.set(*key, value);
    }

    let mut store = MemStore::new();
    let root_ref = trie.commit(&mut store).unwrap();
    let root_hash = match root_ref {
        NodeRef::Hash(h) => h,
        NodeRef::Inline(_) => panic!("a trie of 32-byte keys never inlines its root"),
    };

    for (key, value) in keys.iter().zip(values.iter()) {
        let loaded = get_value(&store, &key.0, &root_hash).unwrap();
        assert_eq!(loaded, Some(value.to_vec()));
    }
    let absent = Key32(*b"999999abcdefghijklmnopqrstuvwxyz");
    assert_eq!(get_value(&store, &absent.0, &root_hash).unwrap(), None);
}

#[test]
fn commit_writes_root_sentinel() {
    let mut trie = Trie::new();
    trie.set(Key32(*b"hello111111111111111111111111111"), b"world");

    let mut store = MemStore::new();
    let root_ref = trie.commit(&mut store).unwrap();
    let digest = root_ref.canonicalize_root();

    let root_key = keccak256(b"__ROOT__");
    let stored = store.get(&root_key).unwrap();
    assert_eq!(stored, Some(digest.to_vec()));
}

#[test]
fn commit_is_idempotent() {
    let mut trie = Trie::new();
    trie.set(Key32(*b"hello111111111111111111111111111"), b"world");
    trie.set(Key32(*b"hellz111111111111111111111111111"), b"again");

    let mut store = MemStore::new();
    let first = trie.commit(&mut store).unwrap();
    let second = trie.commit(&mut store).unwrap();
    assert_eq!(first, second);
    assert_eq!(first.canonicalize_root(), second.canonicalize_root());
}

#[test]
fn empty_trie_commits_inline_empty() {
    let trie = Trie::new();
    let mut store = MemStore::new();
    let root_ref = trie.commit(&mut store).unwrap();
    assert_eq!(root_ref, NodeRef::Inline(vec![]));
}

#[test]
fn commit_small_leaf_inlines_without_store_writes() {
    // a leaf whose serialization stays below 32 bytes is embedded, never stored
    let leaf = Node::new_leaf(NibblePath::new(vec![0x1, 0x2]), b"v".to_vec());
    let mut store = MemStore::new();
    let r = commit_node(&mut store, &leaf).unwrap();
    match r {
        NodeRef::Inline(bytes) => assert!(bytes.len() < 32),
        NodeRef::Hash(_) => panic!("a three-byte leaf never reaches 32 bytes"),
    }
}

#[test]
fn parse_node_rejects_malformed_input() {
    let store = MemStore::new();
    // not a list
    assert!(matches!(
        parse_node(&store, &RlpData::String(b"xx".to_vec()), 8),
        Ok(None)
    ));
    // wrong arity
    assert!(matches!(
        parse_node(&store, &RlpData::List(vec![RlpData::String(vec![0x20])]), 8),
        Ok(None)
    ));
    // flag nibble above 3
    assert!(matches!(
        parse_node(
            &store,
            &RlpData::List(vec![
                RlpData::String(vec![0x45]),
                RlpData::String(b"v".to_vec()),
            ]),
            8
        ),
        Ok(None)
    ));
    // leaf whose value field is a list
    assert!(matches!(
        parse_node(
            &store,
            &RlpData::List(vec![RlpData::String(vec![0x20]), RlpData::List(vec![])]),
            8
        ),
        Ok(None)
    ));
}

#[test]
fn load_child_rejects_malformed_fields() {
    let store = MemStore::new();
    // a nested list is no child reference
    assert!(matches!(load_child(&store, &RlpData::List(vec![]), 8), Ok(None)));
    // an empty field marks an absent child
    assert!(matches!(
        load_child(&store, &RlpData::String(vec![]), 8),
        Ok(None)
    ));
    // longer than a digest: malformed
    assert!(matches!(
        load_child(&store, &RlpData::String(vec![0xaa; 33]), 8),
        Ok(None)
    ));
}
