//! What the page buffer refuses.
use crate::allocation_transition::TransitionError;
use crate::ids::{Lsn, PageId};
use vstd::prelude::*;

verus! {

/// A refused buffer operation.
#[derive(Debug, PartialEq, Eq)]
pub enum BufferError {
    InvalidCapacity,
    /// Every frame is pinned.
    Exhausted { capacity: usize },
    PagePinned { page_id: PageId },
    PageDirty { page_id: PageId },
    PinCountOverflow { page_id: PageId },
    PageNotCached { page_id: PageId },
    /// A logged page is to be written and there is no log to flush first.
    WalUnavailable { page_id: PageId, page_lsn: Lsn },
    /// The page is another incarnation than the one that is meant.
    WrongAllocation { page_id: PageId },
    TailFramesRemain,
    MaintenanceFrameDiffers,
    TransitionCandidateChanged,
    OutsideDataFile { page_id: PageId },
    Transition(TransitionError),
    /// The log could not be flushed, with its own message.
    Wal(String),
    /// The file could not be read or written, with its own message.
    Io(String),
}

} // verus!
