use merkle_patricia_trie::path::{Key32, NibblePath};
use rand::random;

#[test]
fn path_key32_to_nibble_path_conversion() {
    let key = Key32(random::<[u8; 32]>());
    let path = NibblePath::from_key32(&key);

    assert_eq!(path.nibbles.len(), 64);

    // Verify conversion correctness
    for (i, byte) in key.0.iter().enumerate() {
        assert_eq!(path.nibbles[i * 2], byte >> 4);
        assert_eq!(path.nibbles[i * 2 + 1], byte & 0x0f);
    }
}

#[test]
fn main_key32_to_nibble_path_conversion() {
    let key = Key32(random::<[u8; 32]>());
    let path = NibblePath::from_key32(&key);

    assert_eq!(path.nibbles.len(), 64);

    for (i, byte) in key.0.iter().enumerate() {
        assert_eq!(path.nibbles[i * 2], byte >> 4);
        assert_eq!(path.nibbles[i * 2 + 1], byte & 0x0f);
    }
}

#[test]
fn path_lcp_len_identical_slices() {
    let a = NibblePath::new(vec![1, 2, 3, 4]);
    let b = NibblePath::new(vec![1, 2, 3, 4]);
    assert_eq!(a.lcp_len(&b.nibbles), 4);
}

#[test]
fn main_lcp_len_identical_slices() {
    let a = NibblePath::new(vec![1, 2, 3, 4]);
    let b = NibblePath::new(vec![1, 2, 3, 4]);
    assert_eq!(a.lcp_len(&b.nibbles), 4);
}

#[test]
fn path_lcp_len_partial_match() {
    let a = NibblePath::new(vec![1, 2, 3, 4]);
    let b = NibblePath::new(vec![1, 2, 5, 6]);
    assert_eq!(a.lcp_len(&b.nibbles), 2);
}

#[test]
fn main_lcp_len_partial_match() {
    let a = NibblePath::new(vec![1, 2, 3, 4]);
    let b = NibblePath::new(vec![1, 2, 5, 6]);
    assert_eq!(a.lcp_len(&b.nibbles), 2);
}

#[test]
fn path_lcp_len_no_match() {
    let a = NibblePath::new(vec![1, 2, 3, 4]);
    let b = NibblePath::new(vec![5, 6, 7, 8]);
    assert_eq!(a.lcp_len(&b.nibbles), 0);
}

#[test]
fn main_lcp_len_no_match() {
    let a = NibblePath::new(vec![1, 2, 3, 4]);
    let b = NibblePath::new(vec![5, 6, 7, 8]);
    assert_eq!(a.lcp_len(&b.nibbles), 0);
}

#[test]
fn path_lcp_len_different_lengths() {
    let a = NibblePath::new(vec![1, 2, 3, 4, 5]);
    let b = NibblePath::new(vec![1, 2, 3]);
    assert_eq!(a.lcp_len(&b.nibbles), 3);
}

#[test]
fn main_lcp_len_different_lengths() {
    let a = NibblePath::new(vec![1, 2, 3, 4, 5]);
    let b = NibblePath::new(vec![1, 2, 3]);
    assert_eq!(a.lcp_len(&b.nibbles), 3);
}

#[test]
fn path_bytes_to_nibbles_conversion() {
    let bytes = b"test";
    let nibbles = NibblePath::from_bytes(bytes);

    assert_eq!(nibbles.nibbles.len(), 8);
    assert_eq!(nibbles.nibbles[0], 0x7); // 't' = 0x74
    assert_eq!(nibbles.nibbles[1], 0x4);
    assert_eq!(nibbles.nibbles[2], 0x6); // 'e' = 0x65
    assert_eq!(nibbles.nibbles[3], 0x5);
}

#[test]
fn main_bytes_to_nibbles_conversion() {
    let bytes = b"test";
    let nibbles = NibblePath::from_bytes(bytes);

    assert_eq!(nibbles.nibbles.len(), 8);
    assert_eq!(nibbles.nibbles[0], 0x7);
    assert_eq!(nibbles.nibbles[1], 0x4);
    assert_eq!(nibbles.nibbles[2], 0x6);
    assert_eq!(nibbles.nibbles[3], 0x5);
}

#[test]
fn merge_concatenates() {
    let a = NibblePath::new(vec![1, 2]);
    let b = NibblePath::new(vec![3, 4, 5]);
    assert_eq!(a.merge(&b).nibbles, vec![1, 2, 3, 4, 5]);
}
