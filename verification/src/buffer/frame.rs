//! Frames: cached pages with their pins.
use super::error::BufferError;
use crate::ids::{Lsn, PageId};
use crate::page::{Image, Page};
use vstd::prelude::*;

verus! {

/// A cached page.
#[derive(Debug)]
pub struct BufferFrame {
    pub page: Page,
    pub pin_count: u32,
    /// Whether the one pin is a writer's.
    pub writer: bool,
    /// Whether the page differs from the file.
    pub dirty: bool,
}

/// What a frame says.
#[verifier::ext_equal]
pub struct FrameView {
    pub page: Image,
    pub pins: u32,
    pub writer: bool,
    pub dirty: bool,
}

impl View for BufferFrame {
    type V = FrameView;

    open spec fn view(&self) -> FrameView {
        FrameView {
            page: self.page@,
            pins: self.pin_count,
            writer: self.writer,
            dirty: self.dirty,
        }
    }
}

/// What a list of frames says.
pub open spec fn frames_view(frames: Seq<BufferFrame>) -> Seq<FrameView> {
    frames.map_values(|frame: BufferFrame| frame@)
}

/// The frame of a page, from a place on.
pub open spec fn found_from(frames: Seq<FrameView>, page: PageId, i: int) -> Option<int>
    decreases frames.len() - i,
{
    if i >= frames.len() {
        None
    } else if frames[i].page.id == page {
        Some(i)
    } else {
        found_from(frames, page, i + 1)
    }
}

/// The frame of a page.
pub open spec fn found(frames: Seq<FrameView>, page: PageId) -> Option<int> {
    found_from(frames, page, 0)
}

/// What is found is the page; where nothing is found it is not cached.
pub proof fn lemma_found(frames: Seq<FrameView>, page: PageId, i: int)
    requires
        0 <= i,
    ensures
        match found_from(frames, page, i) {
            Some(index) => i <= index < frames.len() && frames[index].page.id == page,
            None => forall|j: int|
                i <= j < frames.len() ==> (#[trigger] frames[j]).page.id != page,
        },
    decreases frames.len() - i,
{
    if i < frames.len() && frames[i].page.id != page {
        lemma_found(frames, page, i + 1);
    }
}

/// What is to be done before a frame may be dropped or counts as clean.
#[derive(Debug, Clone, Copy, PartialEq, Eq, Structural)]
pub enum FlushAction {
    /// The page is as it is in the file.
    Nothing,
    /// The log is flushed through a position; the page is written after.
    FlushWal(Lsn),
    /// The page is written.
    WritePage,
}

/// What flushing a frame takes: a logged page is written only behind the log.
pub open spec fn flush_of(frame: FrameView, logged: bool) -> Result<FlushAction, BufferError> {
    if frame.writer {
        Err(BufferError::PagePinned { page_id: frame.page.id })
    } else if !frame.dirty {
        Ok(FlushAction::Nothing)
    } else {
        match frame.page.lsn {
            Some(lsn) => if frame.page.id.0 == 0 {
                Ok(FlushAction::WritePage)
            } else if logged {
                Ok(FlushAction::FlushWal(lsn))
            } else {
                Err(BufferError::WalUnavailable { page_id: frame.page.id, page_lsn: lsn })
            },
            None => Ok(FlushAction::WritePage),
        }
    }
}

impl BufferFrame {
    /// What flushing the frame takes.
    pub fn flush_action(&self, logged: bool) -> (outcome: Result<FlushAction, BufferError>)
        ensures
            outcome == flush_of(self@, logged),
    {
        if self.writer {
            return Err(BufferError::PagePinned { page_id: self.page.id });
        }
        if !self.dirty {
            return Ok(FlushAction::Nothing);
        }
        match self.page.lsn {
            Some(lsn) => {
                if self.page.id.0 == 0 {
                    Ok(FlushAction::WritePage)
                } else if logged {
                    Ok(FlushAction::FlushWal(lsn))
                } else {
                    Err(BufferError::WalUnavailable { page_id: self.page.id, page_lsn: lsn })
                }
            },
            None => Ok(FlushAction::WritePage),
        }
    }
}

} // verus!
