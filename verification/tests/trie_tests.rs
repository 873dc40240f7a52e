use merkle_patricia_trie::node::Node;
use merkle_patricia_trie::path::{Key32, NibblePath};
use merkle_patricia_trie::trie::Trie;
use rand::random;

#[test]
fn api_empty_trie_returns_none() {
    let trie = Trie::new();
    let key = Key32(random::<[u8; 32]>());
    assert_eq!(trie.get(key), None);
}

#[test]
fn main_empty_trie_returns_none() {
    let trie = Trie::new();
    let key = Key32(random::<[u8; 32]>());
    assert_eq!(trie.get(key), None);
}

#[test]
fn api_single_key_insert_and_get() {
    let mut trie = Trie::new();
    let key = Key32(random::<[u8; 32]>());

    trie.set(key, b"hello");
    assert_eq!(trie.get(key), Some(b"hello".to_vec()));
}

#[test]
fn main_single_key_insert_and_get() {
    let mut trie = Trie::new();
    let key = Key32(random::<[u8; 32]>());

    trie.set(key, b"hello");
    assert_eq!(trie.get(key), Some(b"hello".to_vec()));
}

#[test]
fn api_single_key_insert_and_delete() {
    let mut trie = Trie::new();
    let key = Key32(random::<[u8; 32]>());

    trie.set(key, b"hello");
    assert_eq!(trie.delete(key), true);
    assert_eq!(trie.get(key), None);
}

#[test]
fn main_single_key_insert_and_delete() {
    let mut trie = Trie::new();
    let key = Key32(random::<[u8; 32]>());

    trie.set(key, b"hello");
    assert_eq!(trie.delete(key), true);
    assert_eq!(trie.get(key), None);
}

#[test]
fn api_overwrite_existing_key() {
    let mut trie = Trie::new();
    let key = Key32(random::<[u8; 32]>());

    trie.set(key, b"hello");
    trie.set(key, b"world");

    assert_eq!(trie.get(key), Some(b"world".to_vec()));
}

#[test]
fn main_overwrite_existing_key() {
    let mut trie = Trie::new();
    let key = Key32(random::<[u8; 32]>());

    trie.set(key, b"hello");
    trie.set(key, b"world");

    assert_eq!(trie.get(key), Some(b"world".to_vec()));
}

#[test]
fn api_multiple_keys_no_common_prefix() {
    let mut trie = Trie::new();

    let key1 = Key32(random::<[u8; 32]>());
    let mut key2 = Key32(random::<[u8; 32]>());

    // Ensure keys have different first nibbles
    while key1.0[0] >> 4 == key2.0[0] >> 4 {
        key2 = Key32(random::<[u8; 32]>());
    }

    trie.set(key1, b"value1");
    trie.set(key2, b"value2");

    assert_eq!(trie.get(key1), Some(b"value1".to_vec()));
    assert_eq!(trie.get(key2), Some(b"value2".to_vec()));
}

#[test]
fn main_multiple_keys_no_common_prefix() {
    let mut trie = Trie::new();

    let key1 = Key32(random::<[u8; 32]>());
    let mut key2 = Key32(random::<[u8; 32]>());

    while key1.0[0] >> 4 == key2.0[0] >> 4 {
        key2 = Key32(random::<[u8; 32]>());
    }

    trie.set(key1, b"value1");
    trie.set(key2, b"value2");

    assert_eq!(trie.get(key1), Some(b"value1".to_vec()));
    assert_eq!(trie.get(key2), Some(b"value2".to_vec()));
}

#[test]
fn api_multiple_keys_with_common_prefix() {
    let mut trie = Trie::new();

    let key1 = Key32(*b"123456abcdefghijklmnopqrstuvwxyz");
    let key2 = Key32(*b"123456zyxwvutsrqponmlkjihgfedcba");

    trie.set(key1, b"value1");
    trie.set(key2, b"value2");

    assert_eq!(trie.get(key1), Some(b"value1".to_vec()));
    assert_eq!(trie.get(key2), Some(b"value2".to_vec()));
}

#[test]
fn main_multiple_keys_with_common_prefix() {
    let mut trie = Trie::new();

    let key1 = Key32(*b"123456abcdefghijklmnopqrstuvwxyz");
    let key2 = Key32(*b"123456zyxwvutsrqponmlkjihgfedcba");

    trie.set(key1, b"value1");
    trie.set(key2, b"value2");

    assert_eq!(trie.get(key1), Some(b"value1".to_vec()));
    assert_eq!(trie.get(key2), Some(b"value2".to_vec()));
}

#[test]
fn api_delete_with_branch_collapse() {
    let mut trie = Trie::new();
    let key1 = Key32(*b"123456abcdefghijklmnopqrstuvwxyz");
    let key2 = Key32(*b"k23456zyxwvutsrqponmlkjihgfedcba");

    trie.set(key1, b"value1");
    trie.set(key2, b"value2");

    println!("\nDeleting key1\n");

    trie.delete(key1);
}

#[test]
fn main_delete_with_branch_collapse() {
    let mut trie = Trie::new();
    let key1 = Key32(*b"123456abcdefghijklmnopqrstuvwxyz");
    let key2 = Key32(*b"k23456zyxwvutsrqponmlkjihgfedcba");

    trie.set(key1, b"value1");
    trie.set(key2, b"value2");

    println!("\nDeleting key1\n");

    trie.delete(key1);
}

fn complex_keys() -> [Key32; 5] {
    [
        Key32(*b"j23456abcdefghijklmnopqrstuvwxyz"),
        Key32(*b"523456abcdefghijklmnopqrstuvwxyz"),
        Key32(*b"523456zyxwvutsrqponmlkjihgfedcba"),
        Key32(*b"523abcdefghijklmnopqrstuvwxyz123"),
        Key32(*b"523456q1111111111111111111111111"),
    ]
}

#[test]
fn api_delete_with_complex_restructuring() {
    let mut trie = Trie::new();

    let keys = complex_keys();
    let values = [b"val1", b"val2", b"val3", b"val4", b"val5"];

    // Store trie states after each insertion
    let mut trie_versions = vec![];
    trie_versions.push(trie.root().map(|n| n.duplicate())); // Empty trie

    // Insert all keys
    for (key, value) in keys.iter().zip(values.iter()) {
        trie.set(*key, *value);
        trie_versions.push(trie.root().map(|n| n.duplicate()));
    }

    // Delete in reverse order and verify trie matches previous versions
    for i in (0..keys.len()).rev() {
        trie.delete(keys[i]);
        assert_eq!(
            trie.root(),
            trie_versions[i].as_ref(),
            "Failed after deleting key {}",
            i
        );
    }
}

#[test]
fn main_delete_with_complex_restructuring() {
    let mut trie = Trie::new();

    let keys = complex_keys();
    let values = [b"val1", b"val2", b"val3", b"val4", b"val5"];

    let mut trie_versions = vec![];
    trie_versions.push(trie.root().map(|n| n.duplicate()));

    for (key, value) in keys.iter().zip(values.iter()) {
        trie.set(*key, *value);
        trie_versions.push(trie.root().map(|n| n.duplicate()));
    }

    for i in (0..keys.len()).rev() {
        trie.delete(keys[i]);
        assert_eq!(
            trie.root(),
            trie_versions[i].as_ref(),
            "Failed after deleting key {}",
            i
        );
    }
}

#[test]
fn api_delete_middle_key_branch_scenarios() {
    let mut trie = Trie::new();

    // Test deleting middle key from a sequence
    let keys = [
        Key32(*b"abc11111111111111111111111111111"),
        Key32(*b"abc22222222222222222222222222222"),
        Key32(*b"abc33333333333333333333333333333"),
    ];

    for (i, key) in keys.iter().enumerate() {
        trie.set(*key, format!("val{}", i).as_bytes());
    }

    // Delete middle key - should keep extension but modify branch
    assert!(trie.delete(keys[1]));
    assert_eq!(trie.get(keys[0]), Some(b"val0".to_vec()));
    assert_eq!(trie.get(keys[1]), None);
    assert_eq!(trie.get(keys[2]), Some(b"val2".to_vec()));
}

#[test]
fn main_delete_middle_key_branch_scenarios() {
    let mut trie = Trie::new();

    let keys = [
        Key32(*b"abc11111111111111111111111111111"),
        Key32(*b"abc22222222222222222222222222222"),
        Key32(*b"abc33333333333333333333333333333"),
    ];

    for (i, key) in keys.iter().enumerate() {
        trie.set(*key, format!("val{}", i).as_bytes());
    }

    assert!(trie.delete(keys[1]));
    assert_eq!(trie.get(keys[0]), Some(b"val0".to_vec()));
    assert_eq!(trie.get(keys[1]), None);
    assert_eq!(trie.get(keys[2]), Some(b"val2".to_vec()));
}

#[test]
fn api_delete_causes_extension_merge() {
    let mut trie = Trie::new();

    // Create: Extension -> Branch -> Extension -> Leaf structure
    let key1 = Key32(*b"common11111111111111111111111111");
    let key2 = Key32(*b"common22222222222222222222222222");
    let key3 = Key32(*b"common23333333333333333333333333");

    trie.set(key1, b"val1");
    trie.set(key2, b"val2");
    trie.set(key3, b"val3");

    // Delete key3 should cause branch to collapse and extensions to merge
    assert!(trie.delete(key3));

    assert_eq!(trie.get(key1), Some(b"val1".to_vec()));
    assert_eq!(trie.get(key2), Some(b"val2".to_vec()));
    assert_eq!(trie.get(key3), None);
}

#[test]
fn main_delete_causes_extension_merge() {
    let mut trie = Trie::new();

    let key1 = Key32(*b"common11111111111111111111111111");
    let key2 = Key32(*b"common22222222222222222222222222");
    let key3 = Key32(*b"common23333333333333333333333333");

    trie.set(key1, b"val1");
    trie.set(key2, b"val2");
    trie.set(key3, b"val3");

    assert!(trie.delete(key3));

    assert_eq!(trie.get(key1), Some(b"val1".to_vec()));
    assert_eq!(trie.get(key2), Some(b"val2".to_vec()));
    assert_eq!(trie.get(key3), None);
}

#[test]
fn api_delete_nonexistent_key() {
    let mut trie = Trie::new();

    let key1 = Key32(*b"exists11111111111111111111111111");
    let key2 = Key32(*b"nothere1111111111111111111111111");

    trie.set(key1, b"value");

    // Should return false for non-existent key
    assert!(!trie.delete(key2));
    assert_eq!(trie.get(key1), Some(b"value".to_vec()));
}

#[test]
fn main_delete_nonexistent_key() {
    let mut trie = Trie::new();

    let key1 = Key32(*b"exists11111111111111111111111111");
    let key2 = Key32(*b"nothere1111111111111111111111111");

    trie.set(key1, b"value");

    assert!(!trie.delete(key2));
    assert_eq!(trie.get(key1), Some(b"value".to_vec()));
}

#[test]
fn api_delete_from_empty_trie() {
    let mut trie = Trie::new();
    let key = Key32(*b"anykey11111111111111111111111111");

    assert!(!trie.delete(key));
}

#[test]
fn main_delete_from_empty_trie() {
    let mut trie = Trie::new();
    let key = Key32(*b"anykey11111111111111111111111111");

    assert!(!trie.delete(key));
}

#[test]
fn api_nonexistent_key_returns_none() {
    let mut trie = Trie::new();

    let key = Key32(*b"123456abcdefghijklmnopqrstuvwxyz");
    let bad_key = Key32(*b"zyxwvutsrqponmlkjihgfedcba123456");

    trie.set(key, b"hello");

    assert_eq!(trie.get(key), Some(b"hello".to_vec()));
    assert_eq!(trie.get(bad_key), None);
}

#[test]
fn main_nonexistent_key_returns_none() {
    let mut trie = Trie::new();

    let key = Key32(*b"123456abcdefghijklmnopqrstuvwxyz");
    let bad_key = Key32(*b"zyxwvutsrqponmlkjihgfedcba123456");

    trie.set(key, b"hello");

    assert_eq!(trie.get(key), Some(b"hello".to_vec()));
    assert_eq!(trie.get(bad_key), None);
}

#[test]
fn api_complex_trie_operations() {
    let mut trie = Trie::new();

    // This test builds a complex trie structure with branches and extensions
    let keys = complex_keys();
    let values = [b"val1", b"val2", b"val3", b"val4", b"val5"];

    // Insert all keys
    for (key, value) in keys.iter().zip(values.iter()) {
        trie.set(*key, *value);
    }

    // Verify all keys can be retrieved
    for (key, value) in keys.iter().zip(values.iter()) {
        assert_eq!(trie.get(*key), Some(value.to_vec()));
    }

    println!("root: {:?}", trie.root().unwrap());

    // Verify non-existent key returns None
    let bad_key = Key32(*b"999999abcdefghijklmnopqrstuvwxyz");
    assert_eq!(trie.get(bad_key), None);
}

#[test]
fn main_complex_trie_operations() {
    let mut trie = Trie::new();

    let keys = complex_keys();
    let values = [b"val1", b"val2", b"val3", b"val4", b"val5"];

    for (key, value) in keys.iter().zip(values.iter()) {
        trie.set(*key, *value);
    }

    for (key, value) in keys.iter().zip(values.iter()) {
        assert_eq!(trie.get(*key), Some(value.to_vec()));
    }

    let bad_key = Key32(*b"999999abcdefghijklmnopqrstuvwxyz");
    assert_eq!(trie.get(bad_key), None);
}

#[test]
fn api_extension_splitting_scenario() {
    let mut trie = Trie::new();

    // First two keys create an extension
    let key1 = Key32(*b"123456abcdefghijklmnopqrstuvwxyz");
    let key2 = Key32(*b"123456abcdefghijklmnopqrstuvwxya");

    trie.set(key1, b"first");
    trie.set(key2, b"second");

    // This key should split the extension
    let key3 = Key32(*b"123456abcdefghijblmnopqrstuvwxyz");
    trie.set(key3, b"third");

    // All keys should be retrievable
    assert_eq!(trie.get(key1), Some(b"first".to_vec()));
    assert_eq!(trie.get(key2), Some(b"second".to_vec()));
    assert_eq!(trie.get(key3), Some(b"third".to_vec()));
}

#[test]
fn main_extension_splitting_scenario() {
    let mut trie = Trie::new();

    let key1 = Key32(*b"123456abcdefghijklmnopqrstuvwxyz");
    let key2 = Key32(*b"123456abcdefghijklmnopqrstuvwxya");

    trie.set(key1, b"first");
    trie.set(key2, b"second");

    let key3 = Key32(*b"123456abcdefghijblmnopqrstuvwxyz");
    trie.set(key3, b"third");

    assert_eq!(trie.get(key1), Some(b"first".to_vec()));
    assert_eq!(trie.get(key2), Some(b"second".to_vec()));
    assert_eq!(trie.get(key3), Some(b"third".to_vec()));
}

#[test]
fn trie_empty_trie_has_none_root() {
    let trie = Trie::new();
    assert_eq!(trie.root(), None);
}

#[test]
fn main_empty_trie_has_none_root() {
    let trie = Trie::new();
    assert_eq!(trie.root(), None);
}

#[test]
fn trie_single_insert_creates_leaf_root() {
    let mut trie = Trie::new();
    let key = Key32(random::<[u8; 32]>());

    trie.set(key, b"hello");

    assert!(matches!(trie.root(), Some(Node::Leaf(_))));

    if let Some(Node::Leaf(leaf)) = &trie.root() {
        assert_eq!(leaf.path, NibblePath::from_key32(&key));
        assert_eq!(leaf.value, b"hello".to_vec());
    }
}

#[test]
fn main_single_insert_creates_leaf_root() {
    let mut trie = Trie::new();
    let key = Key32(random::<[u8; 32]>());

    trie.set(key, b"hello");

    assert!(matches!(trie.root(), Some(Node::Leaf(_))));

    if let Some(Node::Leaf(leaf)) = &trie.root() {
        assert_eq!(leaf.path, NibblePath::from_key32(&key));
        assert_eq!(leaf.value, b"hello".to_vec());
    }
}

#[test]
fn trie_divergent_keys_create_branch_root() {
    let mut trie = Trie::new();

    let key1 = Key32(random::<[u8; 32]>());
    let mut key2 = Key32(random::<[u8; 32]>());

    // Ensure different first nibbles
    while key1.0[0] >> 4 == key2.0[0] >> 4 {
        key2 = Key32(random::<[u8; 32]>());
    }

    trie.set(key1, b"hello");
    trie.set(key2, b"world");

    // Root should be a branch
    assert!(matches!(trie.root(), Some(Node::Branch(_))));
}

#[test]
fn main_divergent_keys_create_branch_root() {
    let mut trie = Trie::new();

    let key1 = Key32(random::<[u8; 32]>());
    let mut key2 = Key32(random::<[u8; 32]>());

    while key1.0[0] >> 4 == key2.0[0] >> 4 {
        key2 = Key32(random::<[u8; 32]>());
    }

    trie.set(key1, b"hello");
    trie.set(key2, b"world");

    assert!(matches!(trie.root(), Some(Node::Branch(_))));
}

#[test]
fn trie_common_prefix_creates_extension() {
    let mut trie = Trie::new();

    let mut key1 = random::<[u8; 32]>();
    let mut key2 = random::<[u8; 32]>();

    // Create common prefix
    key1[..6].copy_from_slice(b"common");
    key2[..6].copy_from_slice(b"common");

    // Make rest different
    key1[6..].copy_from_slice(b"abcdefghijklmnopqrstuvwxyz");
    key2[6..].copy_from_slice(b"zyxwvutsrqponmlkjihgfedcba");

    trie.set(Key32(key1), b"hello");
    trie.set(Key32(key2), b"world");

    // Root should be an extension
    assert!(matches!(trie.root(), Some(Node::Extension(_))));

    if let Some(Node::Extension(ext)) = &trie.root() {
        // Extension path should be the common prefix
        assert_eq!(ext.path, NibblePath::from_bytes(&key1[..6]));
        // Child should be a branch
        assert!(matches!(*ext.child, Node::Branch(_)));
    }
}

#[test]
fn main_common_prefix_creates_extension() {
    let mut trie = Trie::new();

    let mut key1 = random::<[u8; 32]>();
    let mut key2 = random::<[u8; 32]>();

    key1[..6].copy_from_slice(b"common");
    key2[..6].copy_from_slice(b"common");

    key1[6..].copy_from_slice(b"abcdefghijklmnopqrstuvwxyz");
    key2[6..].copy_from_slice(b"zyxwvutsrqponmlkjihgfedcba");

    trie.set(Key32(key1), b"hello");
    trie.set(Key32(key2), b"world");

    assert!(matches!(trie.root(), Some(Node::Extension(_))));

    if let Some(Node::Extension(ext)) = &trie.root() {
        assert_eq!(ext.path, NibblePath::from_bytes(&key1[..6]));
        assert!(matches!(*ext.child, Node::Branch(_)));
    }
}

#[test]
fn trie_verify_complex_structure() {
    let mut trie = Trie::new();

    // Build specific structure: Branch -> Extension -> Branch -> Leaves
    let key1 = Key32(*b"j23456abcdefghijklmnopqrstuvwxyz");
    let key2 = Key32(*b"523456abcdefghijklmnopqrstuvwxyz");
    let key3 = Key32(*b"523456zyxwvutsrqponmlkjihgfedcba");

    trie.set(key1, b"val1");
    trie.set(key2, b"val2");
    trie.set(key3, b"val3");

    // Verify root is a branch (j vs 5)
    assert!(matches!(trie.root(), Some(Node::Branch(_))));

    if let Some(Node::Branch(root_branch)) = &trie.root() {
        // Check j branch has a leaf
        let j_child = &root_branch.children[0x6a >> 4]; // 'j' nibble
        assert!(matches!(j_child, Some(b) if matches!(**b, Node::Leaf(_))));

        // Check 5 branch has an extension (common "23456")
        let five_child = &root_branch.children[0x35 >> 4]; // '5' nibble
        assert!(matches!(five_child, Some(b) if matches!(**b, Node::Extension(_))));
    }
}

#[test]
fn main_verify_complex_structure() {
    let mut trie = Trie::new();

    let key1 = Key32(*b"j23456abcdefghijklmnopqrstuvwxyz");
    let key2 = Key32(*b"523456abcdefghijklmnopqrstuvwxyz");
    let key3 = Key32(*b"523456zyxwvutsrqponmlkjihgfedcba");

    trie.set(key1, b"val1");
    trie.set(key2, b"val2");
    trie.set(key3, b"val3");

    assert!(matches!(trie.root(), Some(Node::Branch(_))));

    if let Some(Node::Branch(root_branch)) = &trie.root() {
        let j_child = &root_branch.children[0x6a >> 4];
        assert!(matches!(j_child, Some(b) if matches!(**b, Node::Leaf(_))));

        let five_child = &root_branch.children[0x35 >> 4];
        assert!(matches!(five_child, Some(b) if matches!(**b, Node::Extension(_))));
    }
}
