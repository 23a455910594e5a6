//! Snapshots, published incarnations and physical undo.
use super::error::BufferError;
use super::frame;
use super::frame::{BufferFrame, FrameView};
use super::pool;
use super::pool::{BufferPool, PoolView};
use super::suffix;
use crate::allocation_transition;
use crate::ids::{PageGeneration, PageId};
use crate::page;
use crate::page::{Image, Page};
use vstd::prelude::*;

verus! {

/// What a snapshot of a page gives: the page where it is cached without pins,
/// nothing where it has to be read from the file.
pub open spec fn snapshot(pool: PoolView, page: PageId) -> Result<Option<Image>, BufferError> {
    match frame::found(pool.frames, page) {
        None => Ok(None),
        Some(index) => if pool.frames[index].pins != 0 {
            Err(BufferError::PagePinned { page_id: page })
        } else {
            Ok(Some(pool.frames[index].page))
        },
    }
}

/// Whether the file has the current content of a page that nobody holds.
pub open spec fn reusable_now(pool: PoolView, page: PageId) -> bool {
    frame::found(pool.frames, page) matches Some(index) ==> {
        &&& pool.frames[index].pins == 0
        &&& !pool.frames[index].writer
        &&& !pool.frames[index].dirty
    }
}

/// What maintenance of a page is answered before it reads the file.
pub open spec fn maintenance_check(pool: PoolView, page: PageId) -> Result<(), BufferError> {
    match frame::found(pool.frames, page) {
        None => Ok(()),
        Some(index) => match suffix::frame_fault(pool.frames[index]) {
            Some(error) => Err(error),
            None => Ok(()),
        },
    }
}

/// A pool without the frame of a page.
pub open spec fn dropped(pool: PoolView, page: PageId) -> PoolView {
    match frame::found(pool.frames, page) {
        None => pool,
        Some(index) => pool::without(pool, index),
    }
}

/// Whether a new incarnation of a page may be published over the one that is
/// in the file.
pub open spec fn publish_check(
    pool: PoolView,
    before: Image,
    after: Image,
    current: Image,
) -> Result<(), BufferError> {
    match allocation_transition::transition_check(before, after) {
        Err(error) => Err(BufferError::Transition(error)),
        Ok(_) => if !reusable_now(pool, before.id) {
            Err(BufferError::PageDirty { page_id: before.id })
        } else if current.bytes != before.bytes {
            Err(BufferError::TransitionCandidateChanged)
        } else {
            Ok(())
        },
    }
}

/// The content of a page before a logged change.
pub enum BeforeImage {
    Existing(Page),
    /// The page did not exist.
    NewPage,
}

/// What the content before a change says.
#[verifier::ext_equal]
pub enum BeforeView {
    Existing(Image),
    NewPage,
}

impl View for BeforeImage {
    type V = BeforeView;

    open spec fn view(&self) -> BeforeView {
        match self {
            BeforeImage::Existing(page) => BeforeView::Existing(page@),
            BeforeImage::NewPage => BeforeView::NewPage,
        }
    }
}

/// What is left to do to undo a logged change.
#[derive(Debug, Clone, Copy, PartialEq, Eq, Structural)]
pub enum UndoAction {
    /// There is no physical state to restore.
    Nothing,
    /// The page is cut off the end of the file.
    RemoveTrailing,
    /// The frame at a place holds the old content and is flushed.
    Flush(usize),
    /// The old content gets a frame of its own, which is flushed.
    Install,
}

/// Whether the change to undo is one of the incarnation that is there. The
/// current content is that of the frame, or that of the file.
pub open spec fn undo_target_check(
    pool: PoolView,
    page: PageId,
    page_count: u64,
    on_file: Image,
    expected: Option<PageGeneration>,
) -> Result<(), BufferError> {
    if page.0 >= page_count {
        Ok(())
    } else {
        match snapshot(pool, page) {
            Err(error) => Err(error),
            Ok(cached) => {
                let current = match cached {
                    Some(image) => image,
                    None => on_file,
                };
                if page::any_set(current) {
                    pool::allocation_check(current, expected)
                } else {
                    Ok(())
                }
            },
        }
    }
}

/// What undoing a logged change takes, and the pool after it.
pub open spec fn undo_of(
    pool: PoolView,
    page: PageId,
    page_count: u64,
    on_file: Image,
    before: BeforeView,
    expected: Option<PageGeneration>,
) -> (Result<UndoAction, BufferError>, PoolView) {
    match undo_target_check(pool, page, page_count, on_file, expected) {
        Err(error) => (Err(error), pool),
        Ok(_) => match before {
            BeforeView::Existing(old) => if page.0 >= page_count {
                (Err(BufferError::OutsideDataFile { page_id: page }), pool)
            } else {
                match frame::found(pool.frames, page) {
                    Some(index) => (
                        Ok(UndoAction::Flush(index as usize)),
                        pool::with_frame(
                            pool,
                            index,
                            FrameView {
                                page: Image { id: page, ..old },
                                dirty: true,
                                ..pool.frames[index]
                            },
                        ),
                    ),
                    None => (Ok(UndoAction::Install), pool),
                }
            },
            BeforeView::NewPage => if page.0 > page_count {
                (Ok(UndoAction::Nothing), pool)
            } else if page.0 == page_count {
                (Ok(UndoAction::RemoveTrailing), pool)
            } else {
                (Ok(UndoAction::RemoveTrailing), dropped(pool, page))
            },
        },
    }
}

impl BufferPool {
    /// A copy of a page that is cached without pins. Nothing where it has to
    /// be read from the file.
    pub fn allocation_snapshot(&self, page: PageId) -> (outcome: Result<Option<Page>, BufferError>)
        ensures
            match snapshot(self@, page) {
                Err(error) => outcome == Err::<Option<Page>, BufferError>(error),
                Ok(None) => outcome == Ok::<Option<Page>, BufferError>(None),
                Ok(Some(image)) => outcome matches Ok(Some(content)) && content@ == image,
            },
    {
        match self.find_frame(page) {
            None => Ok(None),
            Some(index) => {
                let frame = self.frame_at(index);
                if frame.pin_count != 0 {
                    return Err(BufferError::PagePinned { page_id: page });
                }
                Ok(Some(frame.page.copy()))
            },
        }
    }

    /// Whether the file has the current content of a page that nobody holds.
    pub fn reusable_page(&self, page: PageId) -> (reusable: bool)
        ensures
            reusable == reusable_now(self@, page),
    {
        match self.find_frame(page) {
            None => true,
            Some(index) => {
                let frame = self.frame_at(index);
                frame.pin_count == 0 && !frame.writer && !frame.dirty
            },
        }
    }

    /// Refuses maintenance of a page that is pinned or dirty.
    pub fn check_maintenance(&self, page: PageId) -> (outcome: Result<(), BufferError>)
        ensures
            outcome == maintenance_check(self@, page),
    {
        match self.find_frame(page) {
            None => Ok(()),
            Some(index) => {
                let frame = self.frame_at(index);
                if frame.pin_count != 0 || frame.writer {
                    return Err(BufferError::PagePinned { page_id: page });
                }
                if frame.dirty {
                    return Err(BufferError::PageDirty { page_id: page });
                }
                Ok(())
            },
        }
    }

    /// Refuses maintenance of a page whose frame differs from the file.
    pub fn check_maintenance_image(&self, on_file: &Page) -> (outcome: Result<(), BufferError>)
        ensures
            outcome == match frame::found(self@.frames, on_file@.id) {
                None => Ok(()),
                Some(index) => if self@.frames[index].page.bytes == on_file@.bytes {
                    Ok(())
                } else {
                    Err(BufferError::MaintenanceFrameDiffers)
                },
            },
    {
        match self.find_frame(on_file.id) {
            None => Ok(()),
            Some(index) => {
                if self.frame_at(index).page.same_bytes(on_file) {
                    Ok(())
                } else {
                    Err(BufferError::MaintenanceFrameDiffers)
                }
            },
        }
    }

    /// Drops the frame of a page.
    fn drop_frame(&mut self, page: PageId)
        requires
            old(self)@.wf(),
        ensures
            final(self)@ == dropped(old(self)@, page),
            final(self)@.wf(),
    {
        match self.find_frame(page) {
            None => {},
            Some(index) => {
                self.remove_frame(index);
            },
        }
    }

    /// Makes room for a new incarnation of a page, after the transition was
    /// logged: an old incarnation never stays in a frame. The new one is then
    /// installed as any page that is to be written back.
    pub fn publish_page_transition(&mut self, before: &Page, after: &Page, current: &Page) -> (outcome:
        Result<(), BufferError>)
        requires
            old(self)@.wf(),
        ensures
            outcome == publish_check(old(self)@, before@, after@, current@),
            outcome is Ok ==> final(self)@ == dropped(old(self)@, before@.id),
            outcome is Err ==> final(self)@ == old(self)@,
            final(self)@.wf(),
    {
        match allocation_transition::validate(before, after) {
            Err(error) => {
                return Err(BufferError::Transition(error));
            },
            Ok(_) => {},
        }
        if !self.reusable_page(before.id) {
            return Err(BufferError::PageDirty { page_id: before.id });
        }
        if !current.same_bytes(before) {
            return Err(BufferError::TransitionCandidateChanged);
        }
        self.drop_frame(before.id);
        Ok(())
    }

    /// Whether the old image of a transition has to be written back. The
    /// frame of the new incarnation is dropped where it has.
    pub fn undo_page_transition(&mut self, before: &Page, after: &Page, current: &Page) -> (outcome:
        Result<bool, BufferError>)
        requires
            old(self)@.wf(),
        ensures
            outcome == match allocation_transition::undo_check(current@, before@, after@) {
                Err(error) => Err(BufferError::Transition(error)),
                Ok(restore) => Ok(restore),
            },
            final(self)@ == if outcome == Ok::<bool, BufferError>(true) {
                dropped(old(self)@, before@.id)
            } else {
                old(self)@
            },
            final(self)@.wf(),
    {
        match allocation_transition::undo(current, before, after) {
            Err(error) => Err(BufferError::Transition(error)),
            Ok(restore) => {
                if restore {
                    self.drop_frame(before.id);
                }
                Ok(restore)
            },
        }
    }

    /// Refuses to undo a change of another incarnation than the one that is
    /// there.
    fn check_undo_target(
        &self,
        page: PageId,
        page_count: u64,
        on_file: &Page,
        expected: Option<PageGeneration>,
    ) -> (outcome: Result<(), BufferError>)
        ensures
            outcome == undo_target_check(self@, page, page_count, on_file@, expected),
    {
        if page.0 >= page_count {
            return Ok(());
        }
        match self.allocation_snapshot(page)? {
            Some(cached) => {
                if cached.is_set() {
                    pool::validate_allocation(&cached, expected)
                } else {
                    Ok(())
                }
            },
            None => {
                if on_file.is_set() {
                    pool::validate_allocation(on_file, expected)
                } else {
                    Ok(())
                }
            },
        }
    }

    /// Puts the content of a page before a logged change back into the pool,
    /// and says what is left to do. `on_file` is the content of the page in
    /// the file.
    pub fn undo_page_update(
        &mut self,
        page: PageId,
        page_count: u64,
        on_file: &Page,
        before: BeforeImage,
        expected: Option<PageGeneration>,
    ) -> (outcome: Result<UndoAction, BufferError>)
        requires
            old(self)@.wf(),
        ensures
            ({
                let undone = undo_of(
                    old(self)@,
                    page,
                    page_count,
                    on_file@,
                    before@,
                    expected,
                );
                outcome == undone.0 && final(self)@ == undone.1
            }),
            final(self)@.wf(),
    {
        self.check_undo_target(page, page_count, on_file, expected)?;
        match before {
            BeforeImage::Existing(old_page) => {
                if page.0 >= page_count {
                    return Err(BufferError::OutsideDataFile { page_id: page });
                }
                match self.find_frame(page) {
                    None => Ok(UndoAction::Install),
                    Some(index) => {
                        let mut content = old_page;
                        content.id = page;
                        let held = self.frame_at(index);
                        let changed = BufferFrame {
                            page: content,
                            pin_count: held.pin_count,
                            writer: held.writer,
                            dirty: true,
                        };
                        self.set_frame(index, changed);
                        Ok(UndoAction::Flush(index))
                    },
                }
            },
            BeforeImage::NewPage => {
                if page.0 > page_count {
                    return Ok(UndoAction::Nothing);
                }
                if page.0 < page_count {
                    self.drop_frame(page);
                }
                Ok(UndoAction::RemoveTrailing)
            },
        }
    }
}

} // verus!
