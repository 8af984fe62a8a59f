use paged_idset::idset::IdSet;
use paged_idset::page::Page;

/// Every leaf's keys, gathered page by page, in table order.
fn all_leaf_ids(set: &IdSet) -> Vec<u128> {
    let mut out = Vec::new();
    for page in &set.pages {
        if let Page::Leaf(l) = page {
            out.extend_from_slice(&l.ids);
        }
    }
    out
}

fn tree_depth(set: &IdSet, id: u128) -> usize {
    set.find_leaf_node_to_insert(id).1.len()
}

#[test]
fn contains_on_fresh_set_is_false() {
    let set = IdSet::new();
    assert!(!set.contains(0));
    assert!(!set.contains(42));
    assert!(!set.contains(u128::MAX));
}

#[test]
fn scenario_ascending_inserts() {
    let mut set = IdSet::new();
    const N: u128 = 10000;
    for i in 0..N {
        set.insert(i);
    }
    for i in 0..N {
        assert!(set.contains(i), "i: {}", i);
    }
    for i in N..2 * N {
        assert!(!set.contains(i), "i: {}", i);
    }
}

#[test]
fn scenario_leaf_split_at_256th_insert() {
    let mut set = IdSet::new();
    // 255 ascending identifiers fill the root leaf exactly; no split yet.
    for i in 0..255u128 {
        set.insert(i);
    }
    assert_eq!(set.page_count(), 2);
    assert_eq!(tree_depth(&set, 0), 0);

    // The 256th insert splits the leaf and promotes a new root.
    set.insert(255);
    assert_eq!(set.page_count(), 4);
    assert_eq!(tree_depth(&set, 0), 1);

    let root_offset = set.header().root_offset;
    let root = set.page(root_offset);
    assert!(!root.is_leaf_node());
    match root {
        Page::Internal(nd) => {
            assert_eq!(nd.ids, vec![128u128]);
            // left half kept the old leaf's page; right half is new
            let left = set.page(nd.child_offsets[0]);
            let right = set.page(nd.child_offsets[1]);
            match (left, right) {
                (Page::Leaf(l), Page::Leaf(r)) => {
                    assert_eq!(l.ids.len(), 128);
                    assert_eq!(r.ids.len(), 128);
                    // the median value stays in the right leaf
                    assert_eq!(r.ids[0], 128);
                }
                _ => panic!("children of the new root must be leaves"),
            }
        }
        _ => panic!("root must be an internal node after the split"),
    }
    for i in 0..256u128 {
        assert!(set.contains(i));
    }
}

#[test]
fn scenario_internal_split_distribution() {
    // Push ascending identifiers until an internal node splits for the
    // first time, growing the tree to depth 2.
    let mut set = IdSet::new();
    let mut i: u128 = 0;
    while tree_depth(&set, i) < 2 {
        set.insert(i);
        i += 1;
        assert!(i < 100_000, "internal split should happen well before this");
    }
    // More than 203 leaf splits were needed
    assert!(i > 203 * 128);

    let root_offset = set.header().root_offset;
    let mut internal_key_counts = Vec::new();
    for (idx, page) in set.pages.iter().enumerate() {
        if let Page::Internal(nd) = page {
            if idx as u32 != root_offset.value {
                internal_key_counts.push(nd.ids.len());
            }
        }
    }
    // The split cut the full 204-key sequence at its median: 102 keys stay
    // left, 101 go right, and the median lives in neither half.
    internal_key_counts.sort();
    assert_eq!(internal_key_counts, vec![101, 102]);
    match set.page(root_offset) {
        Page::Internal(nd) => assert_eq!(nd.ids.len(), 1),
        _ => panic!("root must be internal"),
    }
    for j in 0..i {
        assert!(set.contains(j));
    }
    // all descents reach a leaf at the same depth, wherever they route
    for probe in [0u128, 1, i / 2, i - 1, i, u128::MAX] {
        assert_eq!(tree_depth(&set, probe), 2);
    }
}

#[test]
fn scenario_duplicates_accumulate() {
    let mut set = IdSet::new();
    set.insert(42);
    set.insert(42);
    assert!(set.contains(42));
    let occurrences = all_leaf_ids(&set).iter().filter(|&&x| x == 42).count();
    assert_eq!(occurrences, 2);
    set.insert(42);
    let occurrences = all_leaf_ids(&set).iter().filter(|&&x| x == 42).count();
    assert_eq!(occurrences, 3);
}

#[test]
fn membership_with_scattered_values() {
    let mut set = IdSet::new();
    let mut expected = Vec::new();
    let mut x: u128 = 12345;
    for _ in 0..3000 {
        x = x.wrapping_mul(6364136223846793005).wrapping_add(1442695040888963407);
        set.insert(x);
        expected.push(x);
    }
    for v in &expected {
        assert!(set.contains(*v));
    }
    let mut y: u128 = 999;
    for _ in 0..3000 {
        y = y.wrapping_mul(2862933555777941757).wrapping_add(3037000493);
        if !expected.contains(&y) {
            assert!(!set.contains(y));
        }
    }
}

#[test]
fn every_leaf_stays_sorted_and_within_capacity() {
    let mut set = IdSet::new();
    let mut x: u128 = 7;
    for _ in 0..4000 {
        x = x.wrapping_mul(6364136223846793005).wrapping_add(1442695040888963407);
        set.insert(x % 1000);
    }
    for page in &set.pages {
        match page {
            Page::Leaf(l) => {
                assert!(l.ids.len() <= 255);
                assert!(l.ids.windows(2).all(|w| w[0] <= w[1]));
            }
            Page::Internal(nd) => {
                assert!(nd.ids.len() <= 203);
                assert_eq!(nd.child_offsets.len(), nd.ids.len() + 1);
                assert!(nd.ids.windows(2).all(|w| w[0] <= w[1]));
            }
            Page::Header(_) => {}
        }
    }
}

#[test]
fn root_offset_changes_exactly_with_depth() {
    let mut set = IdSet::new();
    let mut last_root = set.header().root_offset.value;
    let mut last_depth = tree_depth(&set, 0);
    assert_eq!(last_root, 1);
    assert_eq!(last_depth, 0);
    for i in 0..30000u128 {
        set.insert(i);
        let root = set.header().root_offset.value;
        let depth = tree_depth(&set, 0);
        if root == last_root {
            assert_eq!(depth, last_depth, "i: {}", i);
        } else {
            assert_eq!(depth, last_depth + 1, "i: {}", i);
        }
        last_root = root;
        last_depth = depth;
    }
    // the tree grew twice on the way to 30000 ascending inserts
    assert_eq!(last_depth, 2);
}
