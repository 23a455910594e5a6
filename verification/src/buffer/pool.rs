//! Pins, victims and write-back.
use super::error::BufferError;
use super::frame;
use super::frame::{BufferFrame, FlushAction, FrameView};
use crate::ids::{PageGeneration, PageId};
use crate::page::{Image, Page};
use vstd::prelude::*;

verus! {

/// The frames of a pool that is not told otherwise.
pub const DEFAULT_BUFFER_POOL_SIZE: usize = 8;

/// A page buffer.
#[derive(Debug)]
pub struct BufferPool {
    pub(crate) frames: Vec<BufferFrame>,
    pub(crate) capacity: usize,
    pub(crate) next_victim: usize,
    pub(crate) reuse_inventory_invalid: bool,
    /// Whether a log stands behind the pages.
    pub(crate) logged: bool,
}

/// What a pool says.
#[verifier::ext_equal]
pub struct PoolView {
    pub frames: Seq<FrameView>,
    pub capacity: nat,
    pub next_victim: int,
    pub reuse_inventory_invalid: bool,
    pub logged: bool,
}

impl View for BufferPool {
    type V = PoolView;

    closed spec fn view(&self) -> PoolView {
        PoolView {
            frames: frame::frames_view(self.frames@),
            capacity: self.capacity as nat,
            next_victim: self.next_victim as int,
            reuse_inventory_invalid: self.reuse_inventory_invalid,
            logged: self.logged,
        }
    }
}

/// No page is cached twice.
pub open spec fn pages_differ(frames: Seq<FrameView>) -> bool {
    forall|i: int, j: int|
        0 <= i < j < frames.len() ==> (#[trigger] frames[i]).page.id != (#[trigger] frames[j]).page.id
}

/// A writer holds the only pin of its page.
pub open spec fn writers_alone(frames: Seq<FrameView>) -> bool {
    forall|i: int| 0 <= i < frames.len() && (#[trigger] frames[i]).writer ==> frames[i].pins == 1
}

impl PoolView {
    /// The pool has room for at least one page and holds no more than it has
    /// room for, none twice.
    pub open spec fn wf(self) -> bool {
        &&& 1 <= self.capacity <= usize::MAX
        &&& self.frames.len() <= self.capacity
        &&& pages_differ(self.frames)
        &&& writers_alone(self.frames)
        &&& 0 <= self.next_victim
        &&& self.next_victim < self.frames.len() || self.next_victim == 0
    }
}

/// A place that goes round.
pub open spec fn wrapped(place: int, count: int) -> int {
    if place >= count {
        place - count
    } else {
        place
    }
}

/// The first frame without pins, `offset` frames behind the next victim and
/// on.
pub open spec fn victim_from(pool: PoolView, offset: int) -> Option<int>
    decreases pool.frames.len() - offset,
{
    if offset >= pool.frames.len() {
        None
    } else {
        let index = wrapped(pool.next_victim + offset, pool.frames.len() as int);
        if pool.frames[index].pins == 0 {
            Some(index)
        } else {
            victim_from(pool, offset + 1)
        }
    }
}

/// The frame that a new page gets, and what must be done before.
#[derive(Debug, Clone, Copy, PartialEq, Eq, Structural)]
pub struct FramePlan {
    pub index: usize,
    pub flush: FlushAction,
}

/// The frame that a new page gets: a free one, or the next one without pins.
pub open spec fn plan_of(pool: PoolView) -> Result<FramePlan, BufferError> {
    if pool.frames.len() < pool.capacity {
        Ok(FramePlan { index: pool.frames.len() as usize, flush: FlushAction::Nothing })
    } else {
        match victim_from(pool, 0) {
            None => Err(BufferError::Exhausted { capacity: pool.capacity as usize }),
            Some(index) => match frame::flush_of(pool.frames[index], pool.logged) {
                Err(error) => Err(error),
                Ok(flush) => Ok(FramePlan { index: index as usize, flush }),
            },
        }
    }
}

/// A pool with one frame changed.
pub open spec fn with_frame(pool: PoolView, index: int, changed: FrameView) -> PoolView {
    PoolView { frames: pool.frames.update(index, changed), ..pool }
}

/// A frame that a page was just read into.
pub open spec fn installed(page: Image, writer: bool) -> FrameView {
    FrameView { page, pins: 1, writer, dirty: false }
}

/// A frame without pins that is to be written back.
pub open spec fn pending(page: Image) -> FrameView {
    FrameView { page, pins: 0, writer: false, dirty: true }
}

/// A pool with a frame put in at a place, or behind the last.
pub open spec fn put(pool: PoolView, index: int, frame: FrameView) -> PoolView {
    if index == pool.frames.len() {
        PoolView { frames: pool.frames.push(frame), ..pool }
    } else {
        with_frame(pool, index, frame)
    }
}

/// Whether a page can be put into a frame: it is cached nowhere else, and the
/// frame is free, or clean and without pins.
pub open spec fn takes(pool: PoolView, index: int, page: PageId) -> bool {
    &&& forall|i: int|
        0 <= i < pool.frames.len() && i != index ==> (#[trigger] pool.frames[i]).page.id != page
    &&& (index == pool.frames.len() && index < pool.capacity) || (0 <= index < pool.frames.len()
        && pool.frames[index].pins == 0 && !pool.frames[index].dirty)
}

/// A pool without one of its frames.
pub open spec fn without(pool: PoolView, index: int) -> PoolView {
    let frames = pool.frames.remove(index);
    PoolView {
        frames,
        next_victim: if pool.next_victim < frames.len() {
            pool.next_victim
        } else if frames.len() == 0 {
            0
        } else {
            frames.len() - 1
        },
        ..pool
    }
}

/// What pinning a page for reading gives: the page where it is cached.
pub open spec fn read_pin(pool: PoolView, page: PageId) -> (
    Result<Option<Image>, BufferError>,
    PoolView,
) {
    match frame::found(pool.frames, page) {
        None => (Ok(None), pool),
        Some(index) => {
            let held = pool.frames[index];
            if held.writer {
                (Err(BufferError::PagePinned { page_id: page }), pool)
            } else if held.pins == u32::MAX {
                (Err(BufferError::PinCountOverflow { page_id: page }), pool)
            } else {
                (
                    Ok(Some(held.page)),
                    with_frame(pool, index, FrameView { pins: (held.pins + 1) as u32, ..held }),
                )
            }
        },
    }
}

/// What pinning a page for writing gives: the page where it is cached.
pub open spec fn write_pin(pool: PoolView, page: PageId) -> (
    Result<Option<Image>, BufferError>,
    PoolView,
) {
    match frame::found(pool.frames, page) {
        None => (Ok(None), pool),
        Some(index) => {
            let held = pool.frames[index];
            if held.pins != 0 {
                (Err(BufferError::PagePinned { page_id: page }), pool)
            } else {
                (
                    Ok(Some(held.page)),
                    with_frame(pool, index, FrameView { pins: 1, writer: true, ..held }),
                )
            }
        },
    }
}

/// A pool after a reader let go of a page.
pub open spec fn read_released(pool: PoolView, page: PageId) -> PoolView {
    match frame::found(pool.frames, page) {
        None => pool,
        Some(index) => {
            let held = pool.frames[index];
            if held.pins > 0 {
                with_frame(pool, index, FrameView { pins: (held.pins - 1) as u32, ..held })
            } else {
                pool
            }
        },
    }
}

/// A pool after a writer gave a page back.
pub open spec fn write_released(
    pool: PoolView,
    page: PageId,
    content: Image,
    dirty: bool,
) -> PoolView {
    match frame::found(pool.frames, page) {
        None => pool,
        Some(index) => {
            let held = pool.frames[index];
            with_frame(
                pool,
                index,
                FrameView {
                    page: Image { id: page, ..content },
                    pins: if held.pins > 0 {
                        (held.pins - 1) as u32
                    } else {
                        0
                    },
                    writer: false,
                    dirty: held.dirty || dirty,
                },
            )
        },
    }
}

/// Whether a page is the incarnation that is meant.
pub open spec fn allocation_check(image: Image, expected: Option<PageGeneration>) -> Result<
    (),
    BufferError,
> {
    if image.generation == expected {
        Ok(())
    } else {
        Err(BufferError::WrongAllocation { page_id: image.id })
    }
}

/// Whether a page image is the incarnation that is meant.
pub fn validate_allocation(page: &Page, expected: Option<PageGeneration>) -> (outcome: Result<
    (),
    BufferError,
>)
    ensures
        outcome == allocation_check(page@, expected),
{
    let same = match (page.generation, expected) {
        (Some(known), Some(meant)) => known == meant,
        (None, None) => true,
        _ => false,
    };
    if same {
        Ok(())
    } else {
        Err(BufferError::WrongAllocation { page_id: page.id })
    }
}

/// What asking for one incarnation of a cached page gives.
pub open spec fn tree_check(
    pool: PoolView,
    page: PageId,
    generation: Option<PageGeneration>,
) -> Result<(), BufferError> {
    match frame::found(pool.frames, page) {
        None => Ok(()),
        Some(index) => if pool.frames[index].page.generation != generation
            && pool.frames[index].pins != 0 {
            Err(BufferError::PagePinned { page_id: page })
        } else {
            allocation_check(pool.frames[index].page, generation)
        },
    }
}

/// The first frame from a place on that is pinned by a writer, or by anyone.
pub open spec fn pinned_from(frames: Seq<FrameView>, writers: bool, i: int) -> Option<PageId>
    decreases frames.len() - i,
{
    if i >= frames.len() {
        None
    } else if if writers {
        frames[i].writer
    } else {
        frames[i].pins != 0
    } {
        Some(frames[i].page.id)
    } else {
        pinned_from(frames, writers, i + 1)
    }
}

/// What a pool without such a pin is answered.
pub open spec fn pin_check(pool: PoolView, writers: bool) -> Result<(), BufferError> {
    match pinned_from(pool.frames, writers, 0) {
        Some(page_id) => Err(BufferError::PagePinned { page_id }),
        None => Ok(()),
    }
}

impl BufferPool {
    /// A pool without pages.
    pub fn new(capacity: usize, logged: bool) -> (outcome: Result<BufferPool, BufferError>)
        ensures
            capacity == 0 ==> outcome == Err::<BufferPool, BufferError>(
                BufferError::InvalidCapacity,
            ),
            capacity != 0 ==> (outcome matches Ok(pool) && pool@.wf() && pool@ == (PoolView {
                frames: Seq::empty(),
                capacity: capacity as nat,
                next_victim: 0,
                reuse_inventory_invalid: true,
                logged,
            })),
    {
        if capacity == 0 {
            return Err(BufferError::InvalidCapacity);
        }
        let pool = BufferPool {
            frames: Vec::new(),
            capacity,
            next_victim: 0,
            reuse_inventory_invalid: true,
            logged,
        };
        assert(pool@.frames =~= Seq::empty());
        Ok(pool)
    }

    /// A pool of the usual size.
    pub fn with_default_capacity(logged: bool) -> (outcome: Result<BufferPool, BufferError>)
        ensures
            outcome matches Ok(pool) && pool@.wf() && pool@ == (PoolView {
                frames: Seq::empty(),
                capacity: DEFAULT_BUFFER_POOL_SIZE as nat,
                next_victim: 0,
                reuse_inventory_invalid: true,
                logged,
            }),
    {
        BufferPool::new(DEFAULT_BUFFER_POOL_SIZE, logged)
    }

    /// The number of pages that the pool has room for.
    pub fn capacity(&self) -> (capacity: usize)
        ensures
            capacity == self@.capacity,
    {
        self.capacity
    }

    /// The number of cached pages.
    pub fn frame_count(&self) -> (count: usize)
        ensures
            count == self@.frames.len(),
    {
        self.frames.len()
    }

    /// The frame of a page.
    pub fn find_frame(&self, page: PageId) -> (place: Option<usize>)
        ensures
            match frame::found(self@.frames, page) {
                None => place is None,
                Some(index) => place == Some(index as usize),
            },
            place matches Some(index) ==> index < self@.frames.len()
                && self@.frames[index as int].page.id == page && frame::found(self@.frames, page)
                == Some(index as int),
    {
        let mut i: usize = 0;
        let ghost frames = self@.frames;
        proof {
            frame::lemma_found(frames, page, 0);
        }
        while i < self.frames.len()
            invariant
                i <= self.frames@.len(),
                frames == self@.frames,
                frames.len() == self.frames@.len(),
                frame::found(frames, page) == frame::found_from(frames, page, i as int),
            decreases self.frames@.len() - i,
        {
            assert(frames[i as int] == self.frames@[i as int]@);
            if self.frames[i].page.id == page {
                return Some(i);
            }
            i = i + 1;
        }
        None
    }

    /// What flushing the frame at a place takes.
    pub fn flush_action(&self, index: usize) -> (outcome: Result<FlushAction, BufferError>)
        requires
            index < self@.frames.len(),
        ensures
            outcome == frame::flush_of(self@.frames[index as int], self@.logged),
    {
        self.frames[index].flush_action(self.logged)
    }

    /// The content of a frame: what a flush of the frame writes.
    pub fn frame_content(&self, index: usize) -> (content: Page)
        requires
            index < self@.frames.len(),
        ensures
            content@ == self@.frames[index as int].page,
    {
        assert(self@.frames[index as int] == self.frames@[index as int]@);
        self.frames[index].page.copy()
    }

    /// What a flush of the log comes to: only behind it is the page written.
    pub fn wal_flushed(result: Result<(), String>) -> (outcome: Result<FlushAction, BufferError>)
        ensures
            outcome == match result {
                Ok(_) => Ok(FlushAction::WritePage),
                Err(reason) => Err(BufferError::Wal(reason)),
            },
    {
        match result {
            Ok(_) => Ok(FlushAction::WritePage),
            Err(reason) => Err(BufferError::Wal(reason)),
        }
    }

    /// Takes what came of writing the page at a place. A page that could not
    /// be written stays dirty.
    pub fn page_written(&mut self, index: usize, result: Result<(), String>) -> (outcome: Result<
        (),
        BufferError,
    >)
        requires
            index < old(self)@.frames.len(),
        ensures
            match result {
                Ok(_) => outcome is Ok && final(self)@ == with_frame(
                    old(self)@,
                    index as int,
                    (FrameView { dirty: false, ..old(self)@.frames[index as int] }),
                ),
                Err(reason) => outcome == Err::<(), BufferError>(BufferError::Io(reason))
                    && final(self)@ == old(self)@,
            },
            old(self)@.wf() ==> final(self)@.wf(),
    {
        match result {
            Err(reason) => Err(BufferError::Io(reason)),
            Ok(_) => {
                self.frames[index].dirty = false;
                assert(self@.frames =~= old(self)@.frames.update(
                    index as int,
                    FrameView { dirty: false, ..old(self)@.frames[index as int] },
                ));
                Ok(())
            },
        }
    }

    /// The frame that a new page gets, and what must be done before.
    pub fn prepare_frame(&self) -> (outcome: Result<FramePlan, BufferError>)
        requires
            self@.wf(),
        ensures
            outcome == plan_of(self@),
            outcome matches Ok(plan) ==> plan.index <= self@.frames.len() && plan.index
                < self@.capacity && (plan.index < self@.frames.len() ==> self@.frames[plan.index as int].pins
                == 0),
    {
        let count: usize = self.frames.len();
        let ghost shown = self@;
        assert(shown.frames.len() == count);
        if count < self.capacity {
            return Ok(FramePlan { index: count, flush: FlushAction::Nothing });
        }
        let mut offset: usize = 0;
        while offset < count
            invariant
                offset <= count,
                count == self.frames@.len(),
                shown == self@,
                shown.wf(),
                shown.frames.len() == count,
                shown.capacity == self.capacity,
                count >= self.capacity,
                victim_from(shown, 0) == victim_from(shown, offset as int),
            decreases count - offset,
        {
            let rest: usize = count - self.next_victim;
            let index: usize = if offset >= rest {
                offset - rest
            } else {
                self.next_victim + offset
            };
            assert(index == wrapped(shown.next_victim + offset, count as int));
            assert(shown.frames[index as int] == self.frames@[index as int]@);
            if self.frames[index].pin_count == 0 {
                let flush = self.frames[index].flush_action(self.logged)?;
                return Ok(FramePlan { index, flush });
            }
            offset = offset + 1;
        }
        Err(BufferError::Exhausted { capacity: self.capacity })
    }

    /// Notes that a victim was taken: the search for the next one starts
    /// behind it.
    pub fn victim_taken(&mut self, index: usize)
        requires
            old(self)@.wf(),
            index <= old(self)@.frames.len(),
        ensures
            final(self)@ == (PoolView {
                next_victim: if index == old(self)@.frames.len() {
                    old(self)@.next_victim
                } else {
                    wrapped(index + 1, old(self)@.frames.len() as int)
                },
                ..old(self)@
            }),
            final(self)@.wf(),
    {
        let count: usize = self.frames.len();
        assert(self@.frames.len() == count);
        if index < count {
            self.next_victim = if index + 1 >= count {
                0
            } else {
                index + 1
            };
        }
        assert(self@.frames =~= old(self)@.frames);
    }

    /// Whether a page can be put into a frame.
    pub fn can_take(&self, index: usize, page: PageId) -> (free: bool)
        requires
            self@.wf(),
        ensures
            free == takes(self@, index as int, page),
    {
        let count: usize = self.frames.len();
        let mut i: usize = 0;
        while i < count
            invariant
                i <= count,
                count == self.frames@.len(),
                forall|j: int|
                    0 <= j < i && j != index ==> (#[trigger] self@.frames[j]).page.id != page,
            decreases count - i,
        {
            assert(self@.frames[i as int] == self.frames@[i as int]@);
            if i != index && self.frames[i].page.id == page {
                return false;
            }
            i = i + 1;
        }
        assert(self@.frames.len() == count);
        if index == count {
            index < self.capacity
        } else if index < count {
            assert(self@.frames[index as int] == self.frames@[index as int]@);
            self.frames[index].pin_count == 0 && !self.frames[index].dirty
        } else {
            false
        }
    }

    /// Puts a page into a frame, pinned once.
    pub fn install_frame(&mut self, index: usize, page: Page, writer: bool)
        requires
            old(self)@.wf(),
            takes(old(self)@, index as int, page@.id),
        ensures
            final(self)@ == put(old(self)@, index as int, installed(page@, writer)),
            final(self)@.wf(),
    {
        self.put_frame(index, BufferFrame { page, pin_count: 1, writer, dirty: false });
    }

    /// Puts a page into a frame, without pins and to be written back.
    pub fn install_pending(&mut self, index: usize, page: Page)
        requires
            old(self)@.wf(),
            takes(old(self)@, index as int, page@.id),
        ensures
            final(self)@ == put(old(self)@, index as int, pending(page@)),
            final(self)@.wf(),
    {
        self.put_frame(index, BufferFrame { page, pin_count: 0, writer: false, dirty: true });
    }

    /// Puts a frame at a place, or behind the last.
    fn put_frame(&mut self, index: usize, frame: BufferFrame)
        requires
            old(self)@.wf(),
            takes(old(self)@, index as int, frame@.page.id),
            frame@.writer ==> frame@.pins == 1,
        ensures
            final(self)@ == put(old(self)@, index as int, frame@),
            final(self)@.wf(),
    {
        let count: usize = self.frames.len();
        assert(self@.frames.len() == count);
        if index == count {
            self.frames.push(frame);
            assert(self@.frames =~= old(self)@.frames.push(frame@));
        } else {
            self.frames.set(index, frame);
            assert(self@.frames =~= old(self)@.frames.update(index as int, frame@));
        }
    }

    /// Replaces the frame at a place.
    pub(crate) fn set_frame(&mut self, index: usize, frame: BufferFrame)
        requires
            index < old(self)@.frames.len(),
            old(self)@.wf(),
            frame@.page.id == old(self)@.frames[index as int].page.id,
            frame@.writer ==> frame@.pins == 1,
        ensures
            final(self)@ == with_frame(old(self)@, index as int, frame@),
            final(self)@.wf(),
    {
        self.frames.set(index, frame);
        assert(self@.frames =~= old(self)@.frames.update(index as int, frame@));
    }

    /// The frame at a place.
    pub(crate) fn frame_at(&self, index: usize) -> (frame: &BufferFrame)
        requires
            index < self@.frames.len(),
        ensures
            frame@ == self@.frames[index as int],
    {
        &self.frames[index]
    }

    /// Drops the frame at a place.
    pub(crate) fn remove_frame(&mut self, index: usize)
        requires
            index < old(self)@.frames.len(),
            old(self)@.wf(),
        ensures
            final(self)@ == without(old(self)@, index as int),
            final(self)@.wf(),
    {
        self.frames.remove(index);
        let count: usize = self.frames.len();
        assert(self@.frames =~= old(self)@.frames.remove(index as int));
        assert(self@.frames.len() == count);
        if self.next_victim >= count {
            self.next_victim = if count == 0 {
                0
            } else {
                count - 1
            };
        }
        assert(self@.frames =~= old(self)@.frames.remove(index as int));
    }

    /// Pins a page for reading where it is cached. Where it is not, the
    /// caller reads it from the file and installs it.
    pub fn pin_read(&mut self, page: PageId) -> (outcome: Result<Option<Page>, BufferError>)
        requires
            old(self)@.wf(),
        ensures
            match read_pin(old(self)@, page).0 {
                Err(error) => outcome == Err::<Option<Page>, BufferError>(error),
                Ok(None) => outcome == Ok::<Option<Page>, BufferError>(None),
                Ok(Some(image)) => outcome matches Ok(Some(content)) && content@ == image,
            },
            final(self)@ == read_pin(old(self)@, page).1,
            final(self)@.wf(),
    {
        match self.find_frame(page) {
            None => Ok(None),
            Some(index) => {
                assert(self@.frames[index as int] == self.frames@[index as int]@);
                if self.frames[index].writer {
                    return Err(BufferError::PagePinned { page_id: page });
                }
                let pins: u32 = self.frames[index].pin_count;
                if pins == u32::MAX {
                    return Err(BufferError::PinCountOverflow { page_id: page });
                }
                let content = self.frames[index].page.copy();
                self.frames[index].pin_count = pins + 1;
                assert(self@.frames =~= read_pin(old(self)@, page).1.frames);
                Ok(Some(content))
            },
        }
    }

    /// Pins a page for writing where it is cached.
    pub fn pin_write(&mut self, page: PageId) -> (outcome: Result<Option<Page>, BufferError>)
        requires
            old(self)@.wf(),
        ensures
            match write_pin(old(self)@, page).0 {
                Err(error) => outcome == Err::<Option<Page>, BufferError>(error),
                Ok(None) => outcome == Ok::<Option<Page>, BufferError>(None),
                Ok(Some(image)) => outcome matches Ok(Some(content)) && content@ == image,
            },
            final(self)@ == write_pin(old(self)@, page).1,
            final(self)@.wf(),
    {
        match self.find_frame(page) {
            None => Ok(None),
            Some(index) => {
                assert(self@.frames[index as int] == self.frames@[index as int]@);
                if self.frames[index].pin_count != 0 {
                    return Err(BufferError::PagePinned { page_id: page });
                }
                let content = self.frames[index].page.copy();
                self.frames[index].pin_count = 1;
                self.frames[index].writer = true;
                assert(self@.frames =~= write_pin(old(self)@, page).1.frames);
                Ok(Some(content))
            },
        }
    }

    /// A reader lets go of a page.
    pub fn release_read(&mut self, page: PageId)
        requires
            old(self)@.wf(),
            frame::found(old(self)@.frames, page) matches Some(index)
                ==> !old(self)@.frames[index].writer,
        ensures
            final(self)@ == read_released(old(self)@, page),
            final(self)@.wf(),
    {
        match self.find_frame(page) {
            None => {},
            Some(index) => {
                assert(self@.frames[index as int] == self.frames@[index as int]@);
                let pins: u32 = self.frames[index].pin_count;
                if pins > 0 {
                    self.frames[index].pin_count = pins - 1;
                }
                assert(self@.frames =~= read_released(old(self)@, page).frames);
            },
        }
    }

    /// A writer gives a page back.
    pub fn release_write(&mut self, page: PageId, content: Page, dirty: bool)
        requires
            old(self)@.wf(),
        ensures
            final(self)@ == write_released(old(self)@, page, content@, dirty),
            final(self)@.wf(),
    {
        match self.find_frame(page) {
            None => {},
            Some(index) => {
                assert(self@.frames[index as int] == self.frames@[index as int]@);
                let mut content = content;
                content.id = page;
                let pins: u32 = self.frames[index].pin_count;
                let pin_count: u32 = if pins > 0 {
                    pins - 1
                } else {
                    0
                };
                let frame = BufferFrame {
                    page: content,
                    pin_count,
                    writer: false,
                    dirty: self.frames[index].dirty || dirty,
                };
                self.set_frame(index, frame);
            },
        }
    }

    /// The frame of a cached page, and what flushing it takes.
    pub fn flush_page(&self, page: PageId) -> (outcome: Result<FramePlan, BufferError>)
        ensures
            outcome == match frame::found(self@.frames, page) {
                None => Err(BufferError::PageNotCached { page_id: page }),
                Some(index) => match frame::flush_of(self@.frames[index], self@.logged) {
                    Err(error) => Err(error),
                    Ok(flush) => Ok(FramePlan { index: index as usize, flush }),
                },
            },
    {
        match self.find_frame(page) {
            None => Err(BufferError::PageNotCached { page_id: page }),
            Some(index) => {
                let flush = self.flush_action(index)?;
                Ok(FramePlan { index, flush })
            },
        }
    }

    /// Refuses while a writer, or anyone, holds a page.
    fn check_pins(&self, writers: bool) -> (outcome: Result<(), BufferError>)
        ensures
            outcome == pin_check(self@, writers),
    {
        let mut i: usize = 0;
        while i < self.frames.len()
            invariant
                i <= self.frames@.len(),
                self@.frames.len() == self.frames@.len(),
                pinned_from(self@.frames, writers, 0) == pinned_from(
                    self@.frames,
                    writers,
                    i as int,
                ),
            decreases self.frames@.len() - i,
        {
            assert(self@.frames[i as int] == self.frames@[i as int]@);
            let held = if writers {
                self.frames[i].writer
            } else {
                self.frames[i].pin_count != 0
            };
            if held {
                return Err(BufferError::PagePinned { page_id: self.frames[i].page.id });
            }
            i = i + 1;
        }
        Ok(())
    }

    /// Refuses to flush the pool while a writer holds a page. Otherwise every
    /// frame is flushed in turn.
    pub fn flush_all(&self) -> (outcome: Result<(), BufferError>)
        ensures
            outcome == pin_check(self@, true),
    {
        self.check_pins(true)
    }

    /// Refuses while anyone holds a page.
    pub fn ensure_unpinned(&self) -> (outcome: Result<(), BufferError>)
        ensures
            outcome == pin_check(self@, false),
    {
        self.check_pins(false)
    }

    /// Refuses a cached page that is another incarnation than the one that is
    /// meant: a pinned one is not looked at any further.
    pub fn validate_btree_frame(&self, page: PageId, generation: Option<PageGeneration>) -> (outcome:
        Result<(), BufferError>)
        ensures
            outcome == tree_check(self@, page, generation),
    {
        match self.find_frame(page) {
            None => Ok(()),
            Some(index) => {
                assert(self@.frames[index as int] == self.frames@[index as int]@);
                match validate_allocation(&self.frames[index].page, generation) {
                    Ok(_) => Ok(()),
                    Err(error) => {
                        if self.frames[index].pin_count != 0 {
                            return Err(BufferError::PagePinned { page_id: page });
                        }
                        Err(error)
                    },
                }
            },
        }
    }

    /// Notes that the pages for reuse have to be looked for again.
    pub fn invalidate_reuse_inventory(&mut self)
        ensures
            final(self)@ == (PoolView { reuse_inventory_invalid: true, ..old(self)@ }),
    {
        self.reuse_inventory_invalid = true;
        assert(self@.frames =~= old(self)@.frames);
    }

    /// Whether the pages for reuse have to be looked for again; asked once.
    pub fn take_reuse_invalidation(&mut self) -> (invalid: bool)
        ensures
            invalid == old(self)@.reuse_inventory_invalid,
            final(self)@ == (PoolView { reuse_inventory_invalid: false, ..old(self)@ }),
    {
        let invalid = self.reuse_inventory_invalid;
        self.reuse_inventory_invalid = false;
        assert(self@.frames =~= old(self)@.frames);
        invalid
    }
}

} // verus!
