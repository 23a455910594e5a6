//! Giving up the pages at the end of the file.
use super::error::BufferError;
use super::frame::FrameView;
use super::pool;
use super::pool::{BufferPool, PoolView};
use vstd::prelude::*;

verus! {

/// Why a frame keeps its page from being given up.
pub open spec fn frame_fault(frame: FrameView) -> Option<BufferError> {
    if frame.pins != 0 || frame.writer {
        Some(BufferError::PagePinned { page_id: frame.page.id })
    } else if frame.dirty {
        Some(BufferError::PageDirty { page_id: frame.page.id })
    } else {
        None
    }
}

/// The first reason, from a place on, why the pages from `start` on cannot be
/// given up.
pub open spec fn suffix_fault(frames: Seq<FrameView>, start: u64, i: int) -> Option<BufferError>
    decreases frames.len() - i,
{
    if i >= frames.len() {
        None
    } else if frames[i].page.id.0 >= start && frame_fault(frames[i]) is Some {
        frame_fault(frames[i])
    } else {
        suffix_fault(frames, start, i + 1)
    }
}

/// A pool after the frames before place `i` were asked, from the last to the
/// first, to give up the pages from `start` on.
pub open spec fn given_up(pool: PoolView, start: u64, i: int) -> PoolView
    decreases i,
{
    if i <= 0 {
        pool
    } else if pool.frames[i - 1].page.id.0 >= start {
        given_up(pool::without(pool, i - 1), start, i - 1)
    } else {
        given_up(pool, start, i - 1)
    }
}

impl BufferPool {
    /// Refuses while a page from `start` on is pinned or dirty.
    pub fn ensure_clean_suffix(&self, start: u64) -> (outcome: Result<(), BufferError>)
        ensures
            outcome == match suffix_fault(self@.frames, start, 0) {
                Some(error) => Err(error),
                None => Ok(()),
            },
    {
        let count: usize = self.frame_count();
        let mut i: usize = 0;
        while i < count
            invariant
                i <= count,
                count == self@.frames.len(),
                suffix_fault(self@.frames, start, 0) == suffix_fault(
                    self@.frames,
                    start,
                    i as int,
                ),
            decreases count - i,
        {
            let frame = self.frame_at(i);
            if frame.page.id.0 >= start {
                if frame.pin_count != 0 || frame.writer {
                    return Err(BufferError::PagePinned { page_id: frame.page.id });
                }
                if frame.dirty {
                    return Err(BufferError::PageDirty { page_id: frame.page.id });
                }
            }
            i = i + 1;
        }
        Ok(())
    }

    /// Drops the frames of the pages from `start` on, where none of them is
    /// pinned or dirty.
    pub fn invalidate_suffix(&mut self, start: u64) -> (outcome: Result<(), BufferError>)
        requires
            old(self)@.wf(),
        ensures
            match suffix_fault(old(self)@.frames, start, 0) {
                Some(error) => outcome == Err::<(), BufferError>(error) && final(self)@
                    == old(self)@,
                None => outcome is Ok && final(self)@ == given_up(
                    old(self)@,
                    start,
                    old(self)@.frames.len() as int,
                ),
            },
            final(self)@.wf(),
    {
        self.ensure_clean_suffix(start)?;
        let mut i: usize = self.frame_count();
        while i > 0
            invariant
                i <= self@.frames.len(),
                self@.wf(),
                given_up(old(self)@, start, old(self)@.frames.len() as int) == given_up(
                    self@,
                    start,
                    i as int,
                ),
            decreases i,
        {
            i = i - 1;
            if self.frame_at(i).page.id.0 >= start {
                self.remove_frame(i);
            }
        }
        Ok(())
    }

    /// Refuses to cut the file while a page behind the cut is cached.
    pub fn check_truncate(&self, count: u64) -> (outcome: Result<(), BufferError>)
        ensures
            outcome == if exists|i: int|
                0 <= i < self@.frames.len() && (#[trigger] self@.frames[i]).page.id.0 >= count {
                Err::<(), BufferError>(BufferError::TailFramesRemain)
            } else {
                Ok::<(), BufferError>(())
            },
    {
        let frames: usize = self.frame_count();
        let mut i: usize = 0;
        while i < frames
            invariant
                i <= frames,
                frames == self@.frames.len(),
                forall|j: int| 0 <= j < i ==> (#[trigger] self@.frames[j]).page.id.0 < count,
            decreases frames - i,
        {
            let frame = self.frame_at(i);
            assert(self@.frames[i as int].page.id == frame.page.id);
            if frame.page.id.0 >= count {
                return Err(BufferError::TailFramesRemain);
            }
            i = i + 1;
        }
        Ok(())
    }
}

/// Giving up pages keeps exactly the frames before them, in their order.
pub proof fn law_given_up_keeps_prefix(pool: PoolView, start: u64, i: int)
    requires
        0 <= i <= pool.frames.len(),
        forall|j: int| i <= j < pool.frames.len() ==> (#[trigger] pool.frames[j]).page.id.0 < start,
    ensures
        given_up(pool, start, i).frames == pool.frames.filter(
            |frame: FrameView| frame.page.id.0 < start,
        ),
        given_up(pool, start, i).capacity == pool.capacity,
        given_up(pool, start, i).logged == pool.logged,
    decreases i,
{
    let keeps = |frame: FrameView| frame.page.id.0 < start;
    if i == 0 {
        lemma_filter_all(pool.frames, keeps);
    } else if pool.frames[i - 1].page.id.0 >= start {
        let less = pool::without(pool, i - 1);
        assert forall|j: int| i - 1 <= j < less.frames.len() implies (
        #[trigger] less.frames[j]).page.id.0 < start by {
            assert(less.frames[j] == pool.frames[j + 1]);
        }
        law_given_up_keeps_prefix(less, start, i - 1);
        lemma_filter_without(pool.frames, keeps, i - 1);
    } else {
        law_given_up_keeps_prefix(pool, start, i - 1);
    }
}

/// A filter that everything passes changes nothing.
proof fn lemma_filter_all(frames: Seq<FrameView>, keeps: spec_fn(FrameView) -> bool)
    requires
        forall|j: int| 0 <= j < frames.len() ==> keeps(#[trigger] frames[j]),
    ensures
        frames.filter(keeps) == frames,
    decreases frames.len(),
{
    reveal(Seq::filter);
    if frames.len() > 0 {
        lemma_filter_all(frames.drop_last(), keeps);
        assert(frames =~= frames.drop_last().push(frames.last()));
    }
}

/// What a filter drops can be taken out before.
proof fn lemma_filter_without(frames: Seq<FrameView>, keeps: spec_fn(FrameView) -> bool, i: int)
    requires
        0 <= i < frames.len(),
        !keeps(frames[i]),
    ensures
        frames.remove(i).filter(keeps) == frames.filter(keeps),
    decreases frames.len(),
{
    reveal(Seq::filter);
    if i == frames.len() - 1 {
        assert(frames.remove(i) =~= frames.drop_last());
    } else {
        lemma_filter_without(frames.drop_last(), keeps, i);
        assert(frames.remove(i).drop_last() =~= frames.drop_last().remove(i));
        assert(frames.remove(i).last() == frames.last());
    }
}

} // verus!
