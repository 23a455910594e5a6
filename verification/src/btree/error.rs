//! What an index refuses.
use crate::ids::PageId;
use crate::value::PhysicalType;
use vstd::prelude::*;

verus! {

/// A refused index operation.
#[derive(Debug, Clone, Copy, PartialEq, Eq)]
pub enum IndexError {
    /// A page reference outside the file.
    InvalidChild(PageId),
    /// A page that does not hold the node that is expected there.
    InvalidNodeType,
    InvalidHeight(u16),
    NullNotAllowed,
    TypeMismatch { expected: PhysicalType },
    InvalidRowId,
    /// A node or an entry that no page can hold.
    NodeTooLarge { size: u64, capacity: u32 },
    DuplicateEntry,
    EntryNotFound,
    LeafChainCycle { page_id: PageId },
    EmptyLeaf { page_id: PageId },
    LeafChainOrder { left_page: PageId, right_page: PageId },
    InvalidLeafLink { left_page: PageId, expected_right: PageId, actual_right: Option<PageId> },
}

} // verus!
