use paged_idset::internal::InternalNode;
use paged_idset::leaf::LeafNode;
use paged_idset::page::PageOffset;

#[test]
fn leaf_insert_keeps_sorted_order() {
    let mut leaf = LeafNode::new();
    leaf.insert(5);
    leaf.insert(3);
    leaf.insert(7);
    leaf.insert(5);
    assert_eq!(leaf.ids, vec![3u128, 5, 5, 7]);
}

#[test]
fn leaf_index_to_insert_is_first_strictly_greater() {
    let leaf = LeafNode::new_from_ids(vec![2u128, 5, 5, 7]);
    assert_eq!(leaf.index_to_insert(1), 0);
    assert_eq!(leaf.index_to_insert(2), 1);
    // equal values land after all existing occurrences
    assert_eq!(leaf.index_to_insert(5), 3);
    assert_eq!(leaf.index_to_insert(6), 3);
    assert_eq!(leaf.index_to_insert(9), 4);
}

#[test]
fn leaf_is_full_only_at_capacity() {
    let ids: Vec<u128> = (0..254u128).collect();
    let leaf = LeafNode::new_from_ids(ids);
    assert!(!leaf.is_full());
    let ids: Vec<u128> = (0..255u128).collect();
    let leaf = LeafNode::new_from_ids(ids);
    assert!(leaf.is_full());
}

#[test]
fn leaf_split_halves_and_promotes_first_of_right() {
    // 255 identifiers 0..=254, then insert 255: the 256-element sequence is
    // cut at 128; the median 128 stays in the right leaf and is promoted.
    let ids: Vec<u128> = (0..255u128).collect();
    let mut leaf = LeafNode::new_from_ids(ids);
    let (right, promoted) = leaf.insert_and_split(255);
    assert_eq!(leaf.ids.len(), 128);
    assert_eq!(right.ids.len(), 128);
    assert_eq!(promoted, 128);
    assert_eq!(leaf.ids, (0..128u128).collect::<Vec<u128>>());
    assert_eq!(right.ids, (128..256u128).collect::<Vec<u128>>());
    assert_eq!(right.ids[0], promoted);
}

#[test]
fn leaf_split_of_low_insert() {
    let ids: Vec<u128> = (1..256u128).collect();
    let mut leaf = LeafNode::new_from_ids(ids);
    let (right, promoted) = leaf.insert_and_split(0);
    assert_eq!(leaf.ids, (0..128u128).collect::<Vec<u128>>());
    assert_eq!(right.ids, (128..256u128).collect::<Vec<u128>>());
    assert_eq!(promoted, 128);
}

#[test]
fn internal_new_has_one_key_two_children() {
    let node = InternalNode::new(10, PageOffset::new(1), PageOffset::new(2));
    assert_eq!(node.ids, vec![10u128]);
    assert_eq!(node.child_offsets.len(), 2);
    assert_eq!(node.child_offsets[0].value, 1);
    assert_eq!(node.child_offsets[1].value, 2);
}

#[test]
fn internal_insert_places_key_and_right_child() {
    let mut node = InternalNode::new(10, PageOffset::new(1), PageOffset::new(2));
    node.insert(5, PageOffset::new(3));
    assert_eq!(node.ids, vec![5u128, 10]);
    let offs: Vec<u32> = node.child_offsets.iter().map(|p| p.value).collect();
    assert_eq!(offs, vec![1u32, 3, 2]);
    node.insert(20, PageOffset::new(4));
    assert_eq!(node.ids, vec![5u128, 10, 20]);
    let offs: Vec<u32> = node.child_offsets.iter().map(|p| p.value).collect();
    assert_eq!(offs, vec![1u32, 3, 2, 4]);
}

#[test]
fn internal_routing_follows_separators() {
    let mut node = InternalNode::new(10, PageOffset::new(1), PageOffset::new(2));
    node.insert(20, PageOffset::new(3));
    // keys [10, 20], children [1, 2, 3]
    assert_eq!(node.find_offset_to_insert(9).value, 1);
    assert_eq!(node.find_offset_to_insert(10).value, 2);
    assert_eq!(node.find_offset_to_insert(15).value, 2);
    assert_eq!(node.find_offset_to_insert(20).value, 3);
    assert_eq!(node.find_offset_to_insert(99).value, 3);
}

#[test]
fn internal_split_follows_asymmetric_rule() {
    // Full node: keys 0..=202, children 100..=303.  Inserting key 500 makes
    // the 204-key sequence; the median at index 102 is promoted and kept in
    // neither half: 102 keys left, 101 keys right.
    let ids: Vec<u128> = (0..203u128).collect();
    let pages: Vec<PageOffset> = (100..304u32).map(PageOffset::new).collect();
    let mut node = InternalNode::new_from_ids(ids, pages);
    let (right, promoted) = node.insert_split(500, PageOffset::new(999));
    assert_eq!(promoted, 102);
    assert_eq!(node.ids.len(), 102);
    assert_eq!(right.ids.len(), 101);
    assert_eq!(node.child_offsets.len(), 103);
    assert_eq!(right.child_offsets.len(), 102);
    assert_eq!(node.ids, (0..102u128).collect::<Vec<u128>>());
    let mut expected_right: Vec<u128> = (103..203u128).collect();
    expected_right.push(500);
    assert_eq!(right.ids, expected_right);
    assert_eq!(node.child_offsets[0].value, 100);
    assert_eq!(node.child_offsets[102].value, 202);
    assert_eq!(right.child_offsets[0].value, 203);
    assert_eq!(right.child_offsets[101].value, 999);
}
