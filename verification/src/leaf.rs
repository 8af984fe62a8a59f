//! Leaf nodes: the pages that hold the set's identifiers themselves, in
//! weakly ascending order, up to a fixed capacity.

use vstd::prelude::*;

use crate::order::{insert_pos, lemma_insert_pos_props, lemma_insert_pos_unique, sorted};
use crate::page::Page;

verus! {

/// The most identifiers one leaf page can hold.
pub const LEAF_NODE_MAX_LEN: usize = 255;

/// Index of the first element of the right half when an overfull leaf of
/// `LEAF_NODE_MAX_LEN + 1` identifiers is split down the middle.
pub const LEAF_SPLIT_AT: usize = 128;

/// A leaf page: a sorted array of identifiers.  The live prefix of the
/// on-disk key array is held directly; its length plays the role of the
/// stored count field.
#[derive(Debug)]
pub struct LeafNode {
    pub ids: Vec<u128>,
}

impl LeafNode {
    /// A leaf is well formed when it respects its capacity and its keys are
    /// in ascending order.
    pub open spec fn wf(self) -> bool {
        &&& self.ids@.len() <= LEAF_NODE_MAX_LEN
        &&& sorted(self.ids@)
    }

    pub fn new() -> (r: Self)
        ensures
            r.ids@ == Seq::<u128>::empty(),
            r.wf(),
    {
        LeafNode { ids: Vec::new() }
    }

    pub fn new_from_ids(sorted_ids: Vec<u128>) -> (r: Self)
        requires
            sorted_ids@.len() <= LEAF_NODE_MAX_LEN,
        ensures
            r.ids@ == sorted_ids@,
    {
        LeafNode { ids: sorted_ids }
    }

    pub fn into_page(self) -> (r: Page)
        ensures
            r == Page::Leaf(self),
    {
        Page::Leaf(self)
    }

    pub fn is_full(&self) -> (r: bool)
        ensures
            r == (self.ids@.len() == LEAF_NODE_MAX_LEN),
    {
        self.ids.len() == LEAF_NODE_MAX_LEN
    }

    /// The first position whose stored identifier is strictly greater than
    /// `id`, or the current count if there is none; equal values are placed
    /// after all existing occurrences.
    pub fn index_to_insert(&self, id: u128) -> (i: usize)
        ensures
            i == insert_pos(self.ids@, id),
    {
        let n = self.ids.len();
        let mut i: usize = 0;
        while i < n
            invariant
                0 <= i <= n == self.ids@.len(),
                forall|k: int| 0 <= k < i ==> !(id < #[trigger] self.ids@[k]),
            decreases n - i,
        {
            if id < self.ids[i] {
                proof {
                    lemma_insert_pos_unique(self.ids@, id, i as int);
                }
                return i;
            }
            i = i + 1;
        }
        proof {
            lemma_insert_pos_unique(self.ids@, id, n as int);
        }
        n
    }

    /// Insert into a leaf that still has room: later entries shift one slot
    /// right and the identifier lands at its sorted position.
    pub fn insert(&mut self, id: u128)
        requires
            old(self).ids@.len() < LEAF_NODE_MAX_LEN,
        ensures
            final(self).ids@ == old(self).ids@.insert(insert_pos(old(self).ids@, id), id),
    {
        proof {
            lemma_insert_pos_props(self.ids@, id);
        }
        let index = self.index_to_insert(id);
        self.ids.insert(index, id);
    }

    /// Insert into a full leaf by splitting it.  The 256-element sorted
    /// sequence of old and new identifiers is cut at the midpoint: the
    /// receiver is overwritten in place with the left half (so it keeps its
    /// page offset), a fresh leaf takes the right half, and the right half's
    /// first identifier is returned as the key to promote — the median stays
    /// in the right leaf.
    pub fn insert_and_split(&mut self, id: u128) -> (r: (LeafNode, u128))
        requires
            old(self).ids@.len() == LEAF_NODE_MAX_LEN,
        ensures
            ({
                let w = old(self).ids@.insert(insert_pos(old(self).ids@, id), id);
                &&& final(self).ids@ == w.subrange(0, LEAF_SPLIT_AT as int)
                &&& r.0.ids@ == w.subrange(LEAF_SPLIT_AT as int, w.len() as int)
                &&& r.1 == w[LEAF_SPLIT_AT as int]
            }),
    {
        proof {
            lemma_insert_pos_props(self.ids@, id);
        }
        let index = self.index_to_insert(id);
        self.ids.insert(index, id);
        let ghost w = self.ids@;

        let mut right_ids: Vec<u128> = Vec::new();
        let mut i: usize = LEAF_SPLIT_AT;
        while i < LEAF_NODE_MAX_LEN + 1
            invariant
                LEAF_SPLIT_AT <= i <= LEAF_NODE_MAX_LEN + 1,
                self.ids@ == w,
                w.len() == LEAF_NODE_MAX_LEN + 1,
                right_ids@ == w.subrange(LEAF_SPLIT_AT as int, i as int),
            decreases LEAF_NODE_MAX_LEN + 1 - i,
        {
            right_ids.push(self.ids[i]);
            proof {
                assert(right_ids@ =~= w.subrange(LEAF_SPLIT_AT as int, i + 1));
            }
            i = i + 1;
        }
        let promoted = self.ids[LEAF_SPLIT_AT];
        self.ids.truncate(LEAF_SPLIT_AT);
        let right_node = LeafNode::new_from_ids(right_ids);
        (right_node, promoted)
    }
}

} // verus!
