use merkle_patricia_trie::node::{DeleteResult, LeafNode, Node};
use merkle_patricia_trie::path::NibblePath;

#[test]
fn node_leaf_diverge_with_identical_paths() {
    let path = NibblePath {
        nibbles: vec![1, 2, 3, 4],
    };
    let path_again = NibblePath {
        nibbles: vec![1, 2, 3, 4],
    };
    let leaf = LeafNode::new(path, b"old".to_vec());

    let result = leaf.diverge_with(path_again, b"new".to_vec());

    // Should return a leaf with new value
    assert!(matches!(result, Node::Leaf(_)));
    if let Node::Leaf(new_leaf) = result {
        assert_eq!(new_leaf.path.nibbles, vec![1, 2, 3, 4]);
        assert_eq!(new_leaf.value, b"new".to_vec());
    }
}

#[test]
fn main_leaf_diverge_with_identical_paths() {
    let path = NibblePath {
        nibbles: vec![1, 2, 3, 4],
    };
    let path_again = NibblePath {
        nibbles: vec![1, 2, 3, 4],
    };
    let leaf = LeafNode::new(path, b"old".to_vec());

    let result = leaf.diverge_with(path_again, b"new".to_vec());

    assert!(matches!(result, Node::Leaf(_)));
    if let Node::Leaf(new_leaf) = result {
        assert_eq!(new_leaf.path.nibbles, vec![1, 2, 3, 4]);
        assert_eq!(new_leaf.value, b"new".to_vec());
    }
}

#[test]
fn node_leaf_diverge_with_different_paths() {
    let path1 = NibblePath {
        nibbles: vec![1, 2, 3, 4],
    };
    let path2 = NibblePath {
        nibbles: vec![1, 2, 5, 6],
    };
    let leaf = LeafNode::new(path1, b"val1".to_vec());

    let result = leaf.diverge_with(path2, b"val2".to_vec());

    // Should create an extension with branch
    assert!(matches!(result, Node::Extension(_)));
}

#[test]
fn main_leaf_diverge_with_different_paths() {
    let path1 = NibblePath {
        nibbles: vec![1, 2, 3, 4],
    };
    let path2 = NibblePath {
        nibbles: vec![1, 2, 5, 6],
    };
    let leaf = LeafNode::new(path1, b"val1".to_vec());

    let result = leaf.diverge_with(path2, b"val2".to_vec());

    assert!(matches!(result, Node::Extension(_)));
}

#[test]
fn check_invariants_on_split() {
    let path1 = NibblePath {
        nibbles: vec![1, 2, 3, 4],
    };
    let path2 = NibblePath {
        nibbles: vec![1, 2, 5, 6],
    };
    let leaf = LeafNode::new(path1, b"val1".to_vec());
    let result = leaf.diverge_with(path2, b"val2".to_vec());
    assert!(result.check_invariants(4));
    assert!(!result.check_invariants(5));
}

#[test]
fn duplicate_is_equal() {
    let path1 = NibblePath {
        nibbles: vec![1, 2, 3, 4],
    };
    let path2 = NibblePath {
        nibbles: vec![1, 2, 5, 6],
    };
    let leaf = LeafNode::new(path1, b"val1".to_vec());
    let result = leaf.diverge_with(path2, b"val2".to_vec());
    assert_eq!(result.duplicate(), result);
}

#[test]
fn node_level_insert_get_delete() {
    let mut node = Node::new_leaf(NibblePath::new(vec![1, 2, 3, 4]), b"a".to_vec());
    node.insert(NibblePath::new(vec![1, 2, 9, 9]), b"b".to_vec());

    assert_eq!(node.get(NibblePath::new(vec![1, 2, 3, 4])), Some(&b"a".to_vec()));
    assert_eq!(node.get(NibblePath::new(vec![1, 2, 9, 9])), Some(&b"b".to_vec()));
    assert_eq!(node.get(NibblePath::new(vec![1, 2, 0, 0])), None);

    match node.delete(NibblePath::new(vec![1, 2, 9, 9])) {
        DeleteResult::NotFound => panic!("the key was present"),
        DeleteResult::Deleted => {},
        DeleteResult::DeletedAndReplace(m) => {
            node = m;
        },
    }
    assert_eq!(node.get(NibblePath::new(vec![1, 2, 3, 4])), Some(&b"a".to_vec()));
    assert_eq!(node.get(NibblePath::new(vec![1, 2, 9, 9])), None);
    assert!(node.check_invariants(4));
}
