//! The page abstraction: a fixed-size storage unit interpreted as the header,
//! a leaf node, or an internal node, and the 32-bit offsets that address
//! pages in the table.

use vstd::prelude::*;

use crate::internal::InternalNode;
use crate::leaf::LeafNode;

verus! {

/// An index into the page table; the "address" of a page.  Offset 0 always
/// denotes the header page.
#[derive(Clone, Copy, Debug, PartialEq, Eq, Structural)]
pub struct PageOffset {
    pub value: u32,
}

impl PageOffset {
    pub fn new(value: u32) -> (r: Self)
        ensures
            r.value == value,
    {
        PageOffset { value }
    }
}

/// The page at offset 0: it never moves, and it stores the offset of the
/// current root node, so the root can always be found even after it splits.
#[derive(Clone, Copy, Debug)]
pub struct Header {
    pub root_offset: PageOffset,
}

impl Header {
    pub fn new(root_offset: PageOffset) -> (r: Self)
        ensures
            r.root_offset == root_offset,
    {
        Header { root_offset }
    }

    pub fn into_page(self) -> (r: Page)
        ensures
            r == Page::Header(self),
    {
        Page::Header(self)
    }
}

/// One page of the table, tagged by what its bytes would mean on disk.
#[derive(Debug)]
pub enum Page {
    Header(Header),
    Leaf(LeafNode),
    Internal(InternalNode),
}

impl Page {
    pub fn is_leaf_node(&self) -> (r: bool)
        ensures
            r == (self is Leaf),
    {
        match self {
            Page::Leaf(_) => true,
            _ => false,
        }
    }
}

} // verus!
