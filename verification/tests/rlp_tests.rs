use merkle_patricia_trie::rlp::{decode_length, decode_rlp, encode_rlp, to_integer, RlpData};
use rand::random;

#[test]
fn encode_empty_string() {
    let data = vec![];
    assert_eq!(encode_rlp(RlpData::String(data)), vec![0x80]);
}

#[test]
fn encode_single_byte() {
    assert_eq!(encode_rlp(RlpData::String(vec![0x7f])), vec![0x7f]);
    assert_eq!(encode_rlp(RlpData::String(vec![0x00])), vec![0x00]);
    assert_eq!(encode_rlp(RlpData::String(vec![0x01])), vec![0x01]);
}

#[test]
fn encode_short_string() {
    // Empty string
    assert_eq!(encode_rlp(RlpData::String(vec![])), vec![0x80]);

    // Single byte >= 0x80
    assert_eq!(encode_rlp(RlpData::String(vec![0x80])), vec![0x81, 0x80]);

    // Multiple bytes (up to 55)
    let data = vec![0x01, 0x02, 0x03];
    assert_eq!(
        encode_rlp(RlpData::String(data)),
        vec![0x83, 0x01, 0x02, 0x03]
    );

    // 55 bytes exactly
    let data = vec![0x01; 55];
    let mut expected = vec![0xb7]; // 0x80 + 55
    expected.extend_from_slice(&data);
    assert_eq!(encode_rlp(RlpData::String(data)), expected);
}

#[test]
fn encode_long_string() {
    // 56 bytes (just over the threshold)
    let data = vec![0x01; 56];
    let mut expected = vec![0xb8]; // 0xb7 + 1 (length of length)
    expected.push(56); // The length itself
    expected.extend_from_slice(&data);
    assert_eq!(encode_rlp(RlpData::String(data)), expected);

    // 1024 bytes
    let data = vec![0x01; 1024];
    let mut expected = vec![0xb9]; // 0xb7 + 2 (length of length is 2 bytes)
    expected.extend_from_slice(&[0x04, 0x00]); // 1024 in big-endian
    expected.extend_from_slice(&data);
    assert_eq!(encode_rlp(RlpData::String(data)), expected);
}

#[test]
fn encode_short_list() {
    let data = vec![b"cat", b"dog"];
    println!("{:?}", data);
    let mut expected = vec![0xc8]; // 0xc0 + 8 (length of list)
    expected.extend_from_slice(&[0x83, 0x63, 0x61, 0x74, 0x83, 0x64, 0x6f, 0x67]);
    assert_eq!(
        encode_rlp(RlpData::List(
            data.into_iter()
                .map(|s| RlpData::String(s.to_vec()))
                .collect()
        )),
        expected
    );
}

#[test]
fn encode_long_list() {
    let data = vec![
        random::<[u8; 60]>(),
        random::<[u8; 60]>(),
        random::<[u8; 60]>(),
    ];
    println!("{:?}", data);
    // Each item encodes to 60 + 2 = 62 bytes; the payload is 62 * 3 = 186 bytes

    let encoded_data = encode_rlp(RlpData::List(
        data.into_iter()
            .map(|s| RlpData::String(s.to_vec()))
            .collect(),
    ));

    println!("{:x?}", encoded_data);

    assert_eq!(encoded_data[0], 0xf8);
    assert_eq!(encoded_data[1], 186);

    assert_eq!(encoded_data.len(), 188);
}

#[test]
fn encode_empty_list() {
    let data = vec![];
    assert_eq!(encode_rlp(RlpData::List(data)), vec![0xc0]);
}

#[test]
fn encode_list_of_lists() {
    let data = vec![
        RlpData::List(vec![
            RlpData::String(b"dog".to_vec()),
            RlpData::String(b"puppy".to_vec()),
        ]),
        RlpData::String(b"cat".to_vec()),
    ];
    let encoded_data = encode_rlp(RlpData::List(data));
    println!("{:x?}", encoded_data);
    assert_eq!(encoded_data[0], 0xcf);
    assert_eq!(encoded_data[1], 0xca);

    // Length of the list is 16 bytes:
    // dog: 3 + 1 = 4
    // puppy: 5 + 1 = 6
    // sublist: 1 byte
    // cat: 3 + 1 = 4
    // list: 1 byte
    // Total: 4 + 6 + 4 + 1 + 1 = 16

    assert_eq!(encoded_data.len(), 16);
}

fn long_list_of_lists() -> RlpData {
    RlpData::List(vec![
        RlpData::List(vec![
            RlpData::String(b"item1".to_vec()),
            RlpData::String(b"item2".to_vec()),
            RlpData::String(b"item3".to_vec()),
        ]),
        RlpData::List(vec![
            RlpData::String(b"subitem1".to_vec()),
            RlpData::String(b"subitem2".to_vec()),
        ]),
        RlpData::String(b"standalone".to_vec()),
        RlpData::List(vec![
            RlpData::String(b"another1".to_vec()),
            RlpData::String(b"another2".to_vec()),
            RlpData::String(b"another3".to_vec()),
            RlpData::String(b"another4".to_vec()),
        ]),
    ])
}

#[test]
fn encode_long_list_of_lists() {
    let encoded_data = encode_rlp(long_list_of_lists());
    println!("Encoded long list of lists: {:x?}", encoded_data);
    println!("Total length: {} bytes", encoded_data.len());

    // Verify it starts with the correct list prefix
    assert!(encoded_data[0] >= 0xf8); // Long list encoding starts at 0xf8

    // Verify the structure by checking for list markers (0xc0 + length)
    let has_list_markers = encoded_data.iter().any(|&b| b >= 0xc0 && b <= 0xf7);
    assert!(has_list_markers, "Should contain list encoding markers");

    // Should contain the expected strings
    let encoded_str = String::from_utf8_lossy(&encoded_data);
    assert!(encoded_str.contains("item1"));
    assert!(encoded_str.contains("subitem1"));
    assert!(encoded_str.contains("standalone"));
}

#[test]
fn slice_to_integer() {
    // Test single byte
    assert_eq!(to_integer(&[0x00]), 0);
    assert_eq!(to_integer(&[0x01]), 1);
    assert_eq!(to_integer(&[0xff]), 255);

    // Test two bytes
    assert_eq!(to_integer(&[0x01, 0x00]), 256);
    assert_eq!(to_integer(&[0xff, 0xff]), 65535);

    // Test four bytes
    assert_eq!(to_integer(&[0x01, 0x00, 0x00, 0x00]), 16777216);
    assert_eq!(to_integer(&[0xff, 0xff, 0xff, 0xff]), 4294967295);

    // Test eight bytes
    assert_eq!(
        to_integer(&[0x01, 0x00, 0x00, 0x00, 0x00, 0x00, 0x00, 0x00]),
        72057594037927936
    );

    // Edge cases
    assert_eq!(to_integer(&[]), 0);
    assert_eq!(
        to_integer(&[0x00, 0x00, 0x00, 0x00, 0x00, 0x00, 0x00, 0x00]),
        0
    );
}

#[test]
fn decode_rlp_single_byte() {
    let data = vec![0x7f];
    assert_eq!(decode_rlp(&data).unwrap(), RlpData::String(vec![0x7f]));
    let data = vec![0x00];
    assert_eq!(decode_rlp(&data).unwrap(), RlpData::String(vec![0x00]));
    let data = vec![0x01];
    assert_eq!(decode_rlp(&data).unwrap(), RlpData::String(vec![0x01]));
}

#[test]
fn decode_rlp_short_string() {
    let data = vec![0x83, 0x63, 0x61, 0x74];
    assert_eq!(
        decode_rlp(&data).unwrap(),
        RlpData::String(vec![0x63, 0x61, 0x74])
    );
    let data = vec![0x83, 0x64, 0x6f, 0x67];
    assert_eq!(
        decode_rlp(&data).unwrap(),
        RlpData::String(vec![0x64, 0x6f, 0x67])
    );
}

#[test]
fn decode_rlp_long_string() {
    // 56 byte string
    let data = vec![0x01; 56];
    let encoded_data = encode_rlp(RlpData::String(data.clone()));
    assert_eq!(decode_rlp(&encoded_data).unwrap(), RlpData::String(data));
}

#[test]
fn decode_short_list() {
    // Test empty list
    let data = vec![0xc0];
    let (decoded, consumed) = decode_length(&data).unwrap();
    assert_eq!(decoded, RlpData::List(vec![]));
    assert_eq!(consumed, 1);

    // Test list with two strings: ["cat", "dog"]
    let data = vec![0xc8, 0x83, 0x63, 0x61, 0x74, 0x83, 0x64, 0x6f, 0x67];
    let (decoded, consumed) = decode_length(&data).unwrap();
    assert_eq!(consumed, 9);
    if let RlpData::List(items) = decoded {
        assert_eq!(items.len(), 2);
        assert_eq!(items[0], RlpData::String(b"cat".to_vec()));
        assert_eq!(items[1], RlpData::String(b"dog".to_vec()));
    } else {
        panic!("Expected list");
    }
}

#[test]
fn decode_long_list() {
    // Create a list with 3 items of 60 bytes each (total 186 bytes)
    let item1 = vec![0x01; 60];
    let item2 = vec![0x02; 60];
    let item3 = vec![0x03; 60];

    // Encode the list
    let encoded = encode_rlp(RlpData::List(vec![
        RlpData::String(item1.clone()),
        RlpData::String(item2.clone()),
        RlpData::String(item3.clone()),
    ]));

    // Decode it back
    let (decoded, consumed) = decode_length(&encoded).unwrap();
    assert_eq!(consumed, encoded.len());

    if let RlpData::List(items) = decoded {
        assert_eq!(items.len(), 3);
        assert_eq!(items[0], RlpData::String(item1));
        assert_eq!(items[1], RlpData::String(item2));
        assert_eq!(items[2], RlpData::String(item3));
    } else {
        panic!("Expected list");
    }
}

#[test]
fn decode_list_of_lists() {
    // Test: [["dog", "puppy"], "cat"]
    let data = vec![
        0xcf, 0xca, 0x83, 0x64, 0x6f, 0x67, 0x85, 0x70, 0x75, 0x70, 0x70, 0x79, 0x83, 0x63,
        0x61, 0x74,
    ];

    let (decoded, consumed) = decode_length(&data).unwrap();
    assert_eq!(consumed, data.len());

    if let RlpData::List(items) = decoded {
        assert_eq!(items.len(), 2);

        // First item should be a list
        if let RlpData::List(sub_items) = &items[0] {
            assert_eq!(sub_items.len(), 2);
            assert_eq!(sub_items[0], RlpData::String(b"dog".to_vec()));
            assert_eq!(sub_items[1], RlpData::String(b"puppy".to_vec()));
        } else {
            panic!("Expected first item to be a list");
        }

        // Second item should be a string
        assert_eq!(items[1], RlpData::String(b"cat".to_vec()));
    } else {
        panic!("Expected list");
    }
}

#[test]
fn decode_long_list_of_lists() {
    // Create a complex nested structure
    let data = long_list_of_lists();

    // Encode it
    let encoded = encode_rlp(long_list_of_lists());
    println!("Encoded: {:x?}", encoded);

    // Decode it back
    let (decoded, consumed) = decode_length(&encoded).unwrap();
    assert_eq!(consumed, encoded.len());
    assert_eq!(decoded, data);
}

#[test]
fn decode_roundtrip_test() {
    // Test that encode -> decode produces the original value
    let make = || {
        RlpData::List(vec![
            RlpData::String(b"hello".to_vec()),
            RlpData::List(vec![
                RlpData::String(b"nested".to_vec()),
                RlpData::String(b"list".to_vec()),
            ]),
            RlpData::String(b"world".to_vec()),
        ])
    };

    let encoded = encode_rlp(make());
    let (decoded, _) = decode_length(&encoded).unwrap();

    assert_eq!(decoded, make());
}
