//! Internal nodes: the pages that route descent.  Each holds sorted
//! separator keys and one more child offset than key.

use vstd::prelude::*;

use crate::order::{insert_pos, lemma_insert_pos_props, lemma_insert_pos_unique, sorted};
use crate::page::{Page, PageOffset};

verus! {

/// The most separator keys one internal page can hold; it then holds
/// `INTERNAL_NODE_MAX_LEN + 1` child offsets.
pub const INTERNAL_NODE_MAX_LEN: usize = 203;

/// Index of the promoted median when an overfull internal node of
/// `INTERNAL_NODE_MAX_LEN + 1` keys is split: keys before it form the left
/// half, keys after it the right half, and the median itself moves up.
pub const INTERNAL_SPLIT_AT: usize = 102;

/// An internal page: sorted separator keys and the child offsets they
/// partition.  Child `i` leads to keys below `ids[i]`; the last child to
/// keys at or above the last separator.
#[derive(Debug)]
pub struct InternalNode {
    pub ids: Vec<u128>,
    pub child_offsets: Vec<PageOffset>,
}

impl InternalNode {
    /// Well formed: within capacity, never without a key, one more child
    /// than key, and keys in ascending order.
    pub open spec fn wf(self) -> bool {
        &&& 1 <= self.ids@.len() <= INTERNAL_NODE_MAX_LEN
        &&& self.child_offsets@.len() == self.ids@.len() + 1
        &&& sorted(self.ids@)
    }

    /// A minimal node of one separator and two children, as created when a
    /// split reaches the root.
    pub fn new(
        center_id: u128,
        left_node_offset: PageOffset,
        right_node_offset: PageOffset,
    ) -> (r: Self)
        ensures
            r.ids@ == seq![center_id],
            r.child_offsets@ == seq![left_node_offset, right_node_offset],
    {
        let mut ids: Vec<u128> = Vec::new();
        ids.push(center_id);
        let mut child_offsets: Vec<PageOffset> = Vec::new();
        child_offsets.push(left_node_offset);
        child_offsets.push(right_node_offset);
        proof {
            assert(ids@ =~= seq![center_id]);
            assert(child_offsets@ =~= seq![left_node_offset, right_node_offset]);
        }
        Self::new_from_ids(ids, child_offsets)
    }

    pub fn new_from_ids(ids: Vec<u128>, pages: Vec<PageOffset>) -> (r: Self)
        requires
            ids@.len() + 1 == pages@.len(),
            ids@.len() <= INTERNAL_NODE_MAX_LEN,
        ensures
            r.ids@ == ids@,
            r.child_offsets@ == pages@,
    {
        InternalNode { ids, child_offsets: pages }
    }

    pub fn into_page(self) -> (r: Page)
        ensures
            r == Page::Internal(self),
    {
        Page::Internal(self)
    }

    pub fn is_full(&self) -> (r: bool)
        ensures
            r == (self.ids@.len() == INTERNAL_NODE_MAX_LEN),
    {
        self.ids.len() == INTERNAL_NODE_MAX_LEN
    }

    /// The first position whose separator is strictly greater than `id`, or
    /// the key count if there is none.
    pub fn index_to_insert(&self, id: u128) -> (i: usize)
        ensures
            i == insert_pos(self.ids@, id),
    {
        let n = self.ids.len();
        let mut i: usize = 0;
        while i < n
            invariant
                0 <= i <= n == self.ids@.len(),
                forall|k: int| 0 <= k < i ==> !(id < #[trigger] self.ids@[k]),
            decreases n - i,
        {
            if id < self.ids[i] {
                proof {
                    lemma_insert_pos_unique(self.ids@, id, i as int);
                }
                return i;
            }
            i = i + 1;
        }
        proof {
            lemma_insert_pos_unique(self.ids@, id, n as int);
        }
        n
    }

    /// The child to descend into for `id`: the child just left of the first
    /// separator strictly greater than `id`, or the last child.
    pub fn find_offset_to_insert(&self, id: u128) -> (r: PageOffset)
        requires
            self.child_offsets@.len() == self.ids@.len() + 1,
        ensures
            r == self.child_offsets@[insert_pos(self.ids@, id)],
    {
        proof {
            lemma_insert_pos_props(self.ids@, id);
        }
        let index = self.index_to_insert(id);
        self.child_offsets[index]
    }

    /// Insert a promoted key and the offset of the new right sibling it
    /// separates, into a node that still has room: the key lands at its
    /// sorted position and the offset immediately to its right.
    pub fn insert(&mut self, id: u128, right_node_offset: PageOffset)
        requires
            old(self).ids@.len() < INTERNAL_NODE_MAX_LEN,
            old(self).child_offsets@.len() == old(self).ids@.len() + 1,
        ensures
            ({
                let p = insert_pos(old(self).ids@, id);
                &&& final(self).ids@ == old(self).ids@.insert(p, id)
                &&& final(self).child_offsets@ == old(self).child_offsets@.insert(
                    p + 1,
                    right_node_offset,
                )
            }),
    {
        proof {
            lemma_insert_pos_props(self.ids@, id);
        }
        let index = self.index_to_insert(id);
        self.ids.insert(index, id);
        self.child_offsets.insert(index + 1, right_node_offset);
    }

    /// Insert into a full node by splitting it.  The overfull key and child
    /// sequences are cut at the midpoint: the receiver keeps the keys below
    /// the median and the first half of the children, a fresh node takes the
    /// keys above the median and the rest of the children, and the median is
    /// returned to move up — it stays in neither half.
    pub fn insert_split(&mut self, id: u128, right_node_offset: PageOffset) -> (r: (
        InternalNode,
        u128,
    ))
        requires
            old(self).ids@.len() == INTERNAL_NODE_MAX_LEN,
            old(self).child_offsets@.len() == old(self).ids@.len() + 1,
        ensures
            ({
                let p = insert_pos(old(self).ids@, id);
                let w_ids = old(self).ids@.insert(p, id);
                let w_offs = old(self).child_offsets@.insert(p + 1, right_node_offset);
                &&& final(self).ids@ == w_ids.subrange(0, INTERNAL_SPLIT_AT as int)
                &&& final(self).child_offsets@ == w_offs.subrange(0, INTERNAL_SPLIT_AT + 1)
                &&& r.0.ids@ == w_ids.subrange(INTERNAL_SPLIT_AT + 1, w_ids.len() as int)
                &&& r.0.child_offsets@ == w_offs.subrange(
                    INTERNAL_SPLIT_AT + 1,
                    w_offs.len() as int,
                )
                &&& r.1 == w_ids[INTERNAL_SPLIT_AT as int]
            }),
    {
        proof {
            lemma_insert_pos_props(self.ids@, id);
        }
        let index = self.index_to_insert(id);
        self.ids.insert(index, id);
        self.child_offsets.insert(index + 1, right_node_offset);
        let ghost w_ids = self.ids@;
        let ghost w_offs = self.child_offsets@;

        let center_id = self.ids[INTERNAL_SPLIT_AT];

        let mut right_ids: Vec<u128> = Vec::new();
        let mut i: usize = INTERNAL_SPLIT_AT + 1;
        while i < INTERNAL_NODE_MAX_LEN + 1
            invariant
                INTERNAL_SPLIT_AT + 1 <= i <= INTERNAL_NODE_MAX_LEN + 1,
                self.ids@ == w_ids,
                self.child_offsets@ == w_offs,
                w_ids.len() == INTERNAL_NODE_MAX_LEN + 1,
                right_ids@ == w_ids.subrange(INTERNAL_SPLIT_AT + 1, i as int),
            decreases INTERNAL_NODE_MAX_LEN + 1 - i,
        {
            right_ids.push(self.ids[i]);
            proof {
                assert(right_ids@ =~= w_ids.subrange(INTERNAL_SPLIT_AT + 1, i + 1));
            }
            i = i + 1;
        }

        let mut right_offsets: Vec<PageOffset> = Vec::new();
        let mut j: usize = INTERNAL_SPLIT_AT + 1;
        while j < INTERNAL_NODE_MAX_LEN + 2
            invariant
                INTERNAL_SPLIT_AT + 1 <= j <= INTERNAL_NODE_MAX_LEN + 2,
                self.ids@ == w_ids,
                self.child_offsets@ == w_offs,
                w_offs.len() == INTERNAL_NODE_MAX_LEN + 2,
                right_offsets@ == w_offs.subrange(INTERNAL_SPLIT_AT + 1, j as int),
            decreases INTERNAL_NODE_MAX_LEN + 2 - j,
        {
            right_offsets.push(self.child_offsets[j]);
            proof {
                assert(right_offsets@ =~= w_offs.subrange(INTERNAL_SPLIT_AT + 1, j + 1));
            }
            j = j + 1;
        }

        self.ids.truncate(INTERNAL_SPLIT_AT);
        self.child_offsets.truncate(INTERNAL_SPLIT_AT + 1);
        let right_node = InternalNode::new_from_ids(right_ids, right_offsets);
        (right_node, center_id)
    }
}

} // verus!
