//! An in-memory ordered-set index for 128-bit identifiers, laid out as a
//! paged B+ tree: fixed-capacity leaf and internal nodes addressed by page
//! offsets in an append-only page table, with a header page holding the
//! current root offset.

pub mod codec;
pub mod idset;
pub mod internal;
pub mod leaf;
pub mod order;
pub mod page;
