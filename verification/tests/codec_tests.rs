use paged_idset::codec::{
    decode_header, decode_internal, decode_leaf, encode_header, encode_internal, encode_leaf,
};
use paged_idset::internal::InternalNode;
use paged_idset::leaf::LeafNode;
use paged_idset::page::{Header, PageOffset};

#[test]
fn header_encodes_to_one_page() {
    let h = Header::new(PageOffset::new(0x01020304));
    let bytes = encode_header(&h);
    assert_eq!(bytes.len(), 4096);
    // root offset, little endian, at the start
    assert_eq!(&bytes[0..4], &[0x04, 0x03, 0x02, 0x01]);
    assert!(bytes[4..].iter().all(|&b| b == 0));
}

#[test]
fn leaf_encodes_to_one_page() {
    let leaf = LeafNode::new_from_ids(vec![1u128, 0x0102030405060708090a0b0c0d0e0f10]);
    let bytes = encode_leaf(&leaf);
    assert_eq!(bytes.len(), 4096);
    // type tag 1, then padding
    assert_eq!(bytes[0], 1);
    assert!(bytes[1..8].iter().all(|&b| b == 0));
    // count 2, little endian, at offset 8
    assert_eq!(bytes[8], 2);
    assert_eq!(bytes[9], 0);
    assert!(bytes[10..16].iter().all(|&b| b == 0));
    // first key at offset 16, little endian
    assert_eq!(&bytes[16..32], &[1, 0, 0, 0, 0, 0, 0, 0, 0, 0, 0, 0, 0, 0, 0, 0]);
    // second key at offset 32
    assert_eq!(
        &bytes[32..48],
        &[
            0x10, 0x0f, 0x0e, 0x0d, 0x0c, 0x0b, 0x0a, 0x09, 0x08, 0x07, 0x06, 0x05, 0x04, 0x03,
            0x02, 0x01
        ]
    );
    // the rest of the key array is zeroed
    assert!(bytes[48..].iter().all(|&b| b == 0));
}

#[test]
fn empty_leaf_encodes_to_one_zero_padded_page() {
    let leaf = LeafNode::new();
    let bytes = encode_leaf(&leaf);
    assert_eq!(bytes.len(), 4096);
    assert_eq!(bytes[0], 1);
    assert!(bytes[1..].iter().all(|&b| b == 0));
}

#[test]
fn header_round_trip() {
    let h = Header::new(PageOffset::new(123456789));
    let decoded = decode_header(&encode_header(&h)).expect("valid header page");
    assert_eq!(decoded.root_offset.value, 123456789);
}

#[test]
fn leaf_round_trip() {
    let leaf = LeafNode::new_from_ids(vec![0u128, 1, u128::MAX, 42]);
    let decoded = decode_leaf(&encode_leaf(&leaf)).expect("valid leaf page");
    assert_eq!(decoded.ids, vec![0u128, 1, u128::MAX, 42]);
}

#[test]
fn internal_round_trip() {
    let ids: Vec<u128> = (10..110u128).collect();
    let pages: Vec<PageOffset> = (1..102u32).map(PageOffset::new).collect();
    let node = InternalNode::new_from_ids(ids.clone(), pages.clone());
    let decoded = decode_internal(&encode_internal(&node)).expect("valid internal page");
    assert_eq!(decoded.ids, ids);
    let got: Vec<u32> = decoded.child_offsets.iter().map(|p| p.value).collect();
    let want: Vec<u32> = pages.iter().map(|p| p.value).collect();
    assert_eq!(got, want);
}

#[test]
fn decode_rejects_wrong_tag_or_size() {
    let leaf = LeafNode::new_from_ids(vec![7u128]);
    let mut bytes = encode_leaf(&leaf);
    assert!(decode_internal(&bytes).is_none());
    bytes[0] = 0;
    assert!(decode_leaf(&bytes).is_none());
    bytes.pop();
    assert!(decode_leaf(&bytes).is_none());
    assert!(decode_header(&bytes).is_none());
}

#[test]
fn internal_encodes_to_one_page() {
    let node = InternalNode::new(7, PageOffset::new(1), PageOffset::new(0x0a0b0c0d));
    let bytes = encode_internal(&node);
    assert_eq!(bytes.len(), 4096);
    // type tag 0, count 1 at offset 8
    assert_eq!(bytes[0], 0);
    assert_eq!(bytes[8], 1);
    assert_eq!(bytes[9], 0);
    // the single key at offset 16
    assert_eq!(bytes[16], 7);
    assert!(bytes[17..32].iter().all(|&b| b == 0));
    // key slots beyond the count are zeroed; the child array starts right
    // after the full 203-key array, at 16 + 203 * 16 = 3264
    assert!(bytes[32..3264].iter().all(|&b| b == 0));
    assert_eq!(&bytes[3264..3268], &[1, 0, 0, 0]);
    assert_eq!(&bytes[3268..3272], &[0x0d, 0x0c, 0x0b, 0x0a]);
    // absent child slots hold the NULL offset; the tail padding is zeroed
    assert!(bytes[3272..4080].iter().all(|&b| b == 0xFF));
    assert!(bytes[4080..].iter().all(|&b| b == 0));
}
