//! What the pool does with the frame of a page, and with none of the others.
use super::error::BufferError;
use super::frame;
use super::frame::{FlushAction, FrameView};
use super::laws;
use super::pool;
use super::pool::PoolView;
use super::suffix;
use super::undo;
use super::undo_laws;
use crate::ids::{PageGeneration, PageId};
use crate::page::Image;
use vstd::prelude::*;

verus! {

/// Whether two pools are alike but for one frame.
pub open spec fn only_frame(before: PoolView, after: PoolView, index: int) -> bool {
    &&& after.capacity == before.capacity
    &&& after.next_victim == before.next_victim
    &&& after.reuse_inventory_invalid == before.reuse_inventory_invalid
    &&& after.logged == before.logged
    &&& after.frames.len() == before.frames.len()
    &&& forall|i: int|
        0 <= i < before.frames.len() && i != index ==> #[trigger] after.frames[i]
            == before.frames[i]
}

/// A page that is in no frame is not found, and nothing happens to the pool.
pub proof fn law_uncached_page(pool: PoolView, page: PageId, content: Image, dirty: bool)
    requires
        undo_laws::uncached(pool, page),
    ensures
        pool::read_pin(pool, page) == (Ok::<Option<Image>, BufferError>(None), pool),
        pool::write_pin(pool, page) == (Ok::<Option<Image>, BufferError>(None), pool),
        pool::read_released(pool, page) == pool,
        pool::write_released(pool, page, content, dirty) == pool,
        undo::snapshot(pool, page) == Ok::<Option<Image>, BufferError>(None),
        undo::reusable_now(pool, page),
        undo::maintenance_check(pool, page) is Ok,
        undo::dropped(pool, page) == pool,
        forall|generation: Option<PageGeneration>| #[trigger]
            pool::tree_check(pool, page, generation) is Ok,
{
    frame::lemma_found(pool.frames, page, 0);
}

/// A reader gets the page of a frame that no writer holds, and the frame has one
/// pin more; a writer keeps readers out. Nothing else changes.
pub proof fn law_reading_pins(pool: PoolView, index: int)
    requires
        pool.wf(),
        0 <= index < pool.frames.len(),
    ensures
        ({
            let held = pool.frames[index];
            let (answer, after) = pool::read_pin(pool, held.page.id);
            if held.writer {
                &&& answer == Err::<Option<Image>, BufferError>(
                    BufferError::PagePinned { page_id: held.page.id },
                )
                &&& after == pool
            } else if held.pins == u32::MAX {
                &&& answer == Err::<Option<Image>, BufferError>(
                    BufferError::PinCountOverflow { page_id: held.page.id },
                )
                &&& after == pool
            } else {
                &&& answer == Ok::<Option<Image>, BufferError>(Some(held.page))
                &&& only_frame(pool, after, index)
                &&& after.frames[index].page == held.page
                &&& after.frames[index].pins == held.pins + 1
                &&& !after.frames[index].writer
                &&& after.frames[index].dirty == held.dirty
            }
        }),
{
    undo_laws::lemma_found_at(pool, index);
}

/// A writer gets the page of a frame that nobody holds, and holds it alone; else it
/// is refused. Nothing else changes.
pub proof fn law_writing_pins(pool: PoolView, index: int)
    requires
        pool.wf(),
        0 <= index < pool.frames.len(),
    ensures
        ({
            let held = pool.frames[index];
            let (answer, after) = pool::write_pin(pool, held.page.id);
            if held.pins > 0 {
                &&& answer == Err::<Option<Image>, BufferError>(
                    BufferError::PagePinned { page_id: held.page.id },
                )
                &&& after == pool
            } else {
                &&& answer == Ok::<Option<Image>, BufferError>(Some(held.page))
                &&& only_frame(pool, after, index)
                &&& after.frames[index].page == held.page
                &&& after.frames[index].pins == 1
                &&& after.frames[index].writer
                &&& after.frames[index].dirty == held.dirty
            }
        }),
{
    undo_laws::lemma_found_at(pool, index);
}

/// A reader that lets go takes one pin away. A writer that lets go leaves what it
/// gives back, nobody as a writer, and a frame that is to be written back where it
/// was before or where the writer changed it. Nothing else changes.
pub proof fn law_letting_go(pool: PoolView, index: int, content: Image, dirty: bool)
    requires
        pool.wf(),
        0 <= index < pool.frames.len(),
    ensures
        ({
            let held = pool.frames[index];
            let less = if held.pins > 0 {
                held.pins - 1
            } else {
                0
            };
            let read = pool::read_released(pool, held.page.id);
            let written = pool::write_released(pool, held.page.id, content, dirty);
            &&& only_frame(pool, read, index)
            &&& read.frames[index].page == held.page
            &&& read.frames[index].pins == less
            &&& read.frames[index].writer == held.writer
            &&& read.frames[index].dirty == held.dirty
            &&& only_frame(pool, written, index)
            &&& written.frames[index].page == Image { id: held.page.id, ..content }
            &&& written.frames[index].pins == less
            &&& !written.frames[index].writer
            &&& written.frames[index].dirty == (held.dirty || dirty)
        }),
{
    undo_laws::lemma_found_at(pool, index);
}

/// What a frame needs before it can leave: nothing where it is clean; the log up to
/// its record where it has one and is not the first page; else the page itself. A
/// frame that a writer holds cannot leave, nor one whose record has no log to go to.
pub proof fn law_what_a_frame_needs(frame: FrameView, logged: bool)
    ensures
        match frame::flush_of(frame, logged) {
            Ok(FlushAction::Nothing) => !frame.writer && !frame.dirty,
            Ok(FlushAction::FlushWal(lsn)) => !frame.writer && frame.dirty && logged
                && frame.page.id.0 != 0 && frame.page.lsn == Some(lsn),
            Ok(FlushAction::WritePage) => !frame.writer && frame.dirty && (frame.page.id.0 == 0
                || frame.page.lsn is None),
            Err(BufferError::PagePinned { page_id }) => frame.writer && page_id == frame.page.id,
            Err(BufferError::WalUnavailable { page_id, page_lsn }) => !frame.writer && frame.dirty
                && !logged && frame.page.id.0 != 0 && page_id == frame.page.id
                && frame.page.lsn == Some(page_lsn),
            Err(_) => false,
        },
{
}

// ---------------------------------------------------------------------------
// Victims
// ---------------------------------------------------------------------------
/// The frame that is so many places behind the one to be looked at next.
pub open spec fn place_behind(pool: PoolView, offset: int) -> int {
    let n = pool.frames.len() as int;
    if pool.next_victim + offset < n {
        pool.next_victim + offset
    } else {
        pool.next_victim + offset - n
    }
}

proof fn lemma_victim(pool: PoolView, offset: int)
    requires
        0 <= offset <= pool.frames.len(),
    ensures
        match pool::victim_from(pool, offset) {
            Some(index) => exists|o: int|
                offset <= o < pool.frames.len() && index == #[trigger] place_behind(pool, o)
                    && pool.frames[index].pins == 0 && forall|e: int|
                    offset <= e < o ==> pool.frames[#[trigger] place_behind(pool, e)].pins != 0,
            None => forall|o: int|
                offset <= o < pool.frames.len() ==> pool.frames[#[trigger] place_behind(
                    pool,
                    o,
                )].pins != 0,
        },
    decreases pool.frames.len() - offset,
{
    if offset < pool.frames.len() {
        let index = place_behind(pool, offset);
        if pool.frames[index].pins != 0 {
            lemma_victim(pool, offset + 1);
        } else {
            assert(pool::victim_from(pool, offset) == Some(index));
        }
    }
}

/// The frame that a new page gets: a free one where the pool has room; else the
/// first one without pins, from where the last search ended on and round to there,
/// with what it needs before it can leave. Where all are pinned, there is none.
pub proof fn law_frame_for_a_new_page(pool: PoolView)
    requires
        pool.wf(),
    ensures
        match pool::plan_of(pool) {
            Ok(plan) => if pool.frames.len() < pool.capacity {
                &&& plan.index == pool.frames.len()
                &&& plan.flush == FlushAction::Nothing
            } else {
                &&& frame::flush_of(pool.frames[plan.index as int], pool.logged) == Ok::<
                    FlushAction,
                    BufferError,
                >(plan.flush)
                &&& exists|o: int|
                    0 <= o < pool.frames.len() && plan.index == #[trigger] place_behind(pool, o)
                        && pool.frames[plan.index as int].pins == 0 && forall|e: int|
                        0 <= e < o ==> pool.frames[#[trigger] place_behind(pool, e)].pins != 0
            },
            Err(BufferError::Exhausted { capacity }) => {
                &&& capacity == pool.capacity
                &&& pool.frames.len() == pool.capacity
                &&& forall|i: int|
                    0 <= i < pool.frames.len() ==> (#[trigger] pool.frames[i]).pins != 0
            },
            Err(error) => {
                &&& pool.frames.len() == pool.capacity
                &&& exists|i: int|
                    0 <= i < pool.frames.len() && (#[trigger] pool.frames[i]).pins == 0
                        && frame::flush_of(pool.frames[i], pool.logged) == Err::<
                        FlushAction,
                        BufferError,
                    >(error)
            },
        },
{
    if pool.frames.len() == pool.capacity {
        lemma_victim(pool, 0);
        laws::law_victim(pool, 0);
        if let Some(index) = pool::victim_from(pool, 0) {
            law_what_a_frame_needs(pool.frames[index], pool.logged);
        }
    }
}

/// A page can take a place exactly where no other frame has it, and the place is
/// the next free one, or a frame that nobody holds and that needs no writing.
pub proof fn law_which_place_a_page_can_take(pool: PoolView, index: int, page: PageId)
    requires
        pool.wf(),
        0 <= index,
    ensures
        pool::takes(pool, index, page) <==> {
            &&& forall|i: int|
                0 <= i < pool.frames.len() && i != index ==> (#[trigger] pool.frames[i]).page.id
                    != page
            &&& index <= pool.frames.len()
            &&& index == pool.frames.len() ==> pool.frames.len() < pool.capacity
            &&& index < pool.frames.len() ==> pool.frames[index].pins == 0
                && !pool.frames[index].dirty
        },
{
}

/// A page that is put into the pool is in its place, held by one where it is
/// installed, by nobody where it is to be written back; the other frames stay.
pub proof fn law_what_putting_a_page_does(
    pool: PoolView,
    index: int,
    page: Image,
    writer: bool,
)
    requires
        pool.wf(),
        pool::takes(pool, index, page.id),
    ensures
        ({
            let fresh = pool::put(pool, index, pool::installed(page, writer));
            let waiting = pool::put(pool, index, pool::pending(page));
            &&& fresh.frames[index] == FrameView { page, pins: 1, writer, dirty: false }
            &&& waiting.frames[index] == FrameView { page, pins: 0, writer: false, dirty: true }
            &&& forall|i: int|
                0 <= i < pool.frames.len() && i != index ==> #[trigger] fresh.frames[i]
                    == pool.frames[i]
            &&& forall|i: int|
                0 <= i < pool.frames.len() && i != index ==> #[trigger] waiting.frames[i]
                    == pool.frames[i]
            &&& fresh.frames.len() == if index < pool.frames.len() {
                pool.frames.len()
            } else {
                pool.frames.len() + 1
            }
            &&& waiting.frames.len() == fresh.frames.len()
            &&& fresh == PoolView { frames: fresh.frames, ..pool }
            &&& waiting == PoolView { frames: waiting.frames, ..pool }
        }),
{
}

// ---------------------------------------------------------------------------
// Checks
// ---------------------------------------------------------------------------
proof fn lemma_pinned(frames: Seq<FrameView>, writers: bool, i: int)
    requires
        0 <= i <= frames.len(),
    ensures
        match pool::pinned_from(frames, writers, i) {
            Some(page) => exists|k: int|
                i <= k < frames.len() && (#[trigger] frames[k]).page.id == page && (if writers {
                    frames[k].writer
                } else {
                    frames[k].pins != 0
                }) && forall|e: int|
                    i <= e < k ==> !(if writers {
                        (#[trigger] frames[e]).writer
                    } else {
                        frames[e].pins != 0
                    }),
            None => forall|k: int|
                i <= k < frames.len() ==> !(if writers {
                    (#[trigger] frames[k]).writer
                } else {
                    frames[k].pins != 0
                }),
        },
    decreases frames.len() - i,
{
    if i < frames.len() && !(if writers {
        frames[i].writer
    } else {
        frames[i].pins != 0
    }) {
        lemma_pinned(frames, writers, i + 1);
    } else if i < frames.len() {
        assert(frames[i].page.id == frames[i].page.id);
    }
}

/// The pool can be flushed as a whole exactly where no writer holds a page, and it
/// is unpinned exactly where nobody holds one. Else the answer names the first page
/// that is held so.
pub proof fn law_pins_are_seen(pool: PoolView)
    ensures
        match pool::pin_check(pool, true) {
            Ok(_) => forall|i: int|
                0 <= i < pool.frames.len() ==> !(#[trigger] pool.frames[i]).writer,
            Err(error) => exists|k: int|
                0 <= k < pool.frames.len() && (#[trigger] pool.frames[k]).writer && error
                    == BufferError::PagePinned { page_id: pool.frames[k].page.id } && forall|e: int|
                    0 <= e < k ==> !(#[trigger] pool.frames[e]).writer,
        },
        match pool::pin_check(pool, false) {
            Ok(_) => forall|i: int|
                0 <= i < pool.frames.len() ==> (#[trigger] pool.frames[i]).pins == 0,
            Err(error) => exists|k: int|
                0 <= k < pool.frames.len() && (#[trigger] pool.frames[k]).pins != 0 && error
                    == BufferError::PagePinned { page_id: pool.frames[k].page.id } && forall|e: int|
                    0 <= e < k ==> (#[trigger] pool.frames[e]).pins == 0,
        },
{
    lemma_pinned(pool.frames, true, 0);
    lemma_pinned(pool.frames, false, 0);
}

/// Whether nobody holds a frame and it needs no writing.
pub open spec fn idle(frame: FrameView) -> bool {
    frame.pins == 0 && !frame.writer && !frame.dirty
}

/// The pages from one on can be given up exactly where nobody holds one of them and
/// none needs writing.
pub proof fn law_when_a_suffix_is_clean(pool: PoolView, start: u64, i: int)
    requires
        0 <= i <= pool.frames.len(),
    ensures
        match suffix::suffix_fault(pool.frames, start, i) {
            None => forall|k: int|
                i <= k < pool.frames.len() && (#[trigger] pool.frames[k]).page.id.0 >= start
                    ==> idle(pool.frames[k]),
            Some(error) => exists|k: int|
                i <= k < pool.frames.len() && (#[trigger] pool.frames[k]).page.id.0 >= start
                    && !idle(pool.frames[k]) && error == if pool.frames[k].pins != 0
                    || pool.frames[k].writer {
                    BufferError::PagePinned { page_id: pool.frames[k].page.id }
                } else {
                    BufferError::PageDirty { page_id: pool.frames[k].page.id }
                },
        },
    decreases pool.frames.len() - i,
{
    if i < pool.frames.len() {
        law_when_a_suffix_is_clean(pool, start, i + 1);
        if pool.frames[i].page.id.0 >= start && !idle(pool.frames[i]) {
            assert(pool.frames[i].page.id.0 >= start);
        }
    }
}

/// What the pool answers about a page that it has: its image where nobody holds it;
/// whether it can be reused or maintained, which it can where nobody holds it and it
/// needs no writing; and whether it is the incarnation that is meant.
pub proof fn law_answers_about_a_cached_page(
    pool: PoolView,
    index: int,
    generation: Option<PageGeneration>,
)
    requires
        pool.wf(),
        0 <= index < pool.frames.len(),
    ensures
        ({
            let held = pool.frames[index];
            let page = held.page.id;
            &&& undo::snapshot(pool, page) == if held.pins != 0 {
                Err::<Option<Image>, BufferError>(BufferError::PagePinned { page_id: page })
            } else {
                Ok::<Option<Image>, BufferError>(Some(held.page))
            }
            &&& undo::reusable_now(pool, page) <==> idle(held)
            &&& undo::maintenance_check(pool, page) == if held.pins != 0 || held.writer {
                Err::<(), BufferError>(BufferError::PagePinned { page_id: page })
            } else if held.dirty {
                Err::<(), BufferError>(BufferError::PageDirty { page_id: page })
            } else {
                Ok::<(), BufferError>(())
            }
            &&& pool::tree_check(pool, page, generation) == if held.page.generation == generation {
                Ok::<(), BufferError>(())
            } else if held.pins != 0 {
                Err::<(), BufferError>(BufferError::PagePinned { page_id: page })
            } else {
                Err::<(), BufferError>(BufferError::WrongAllocation { page_id: page })
            }
        }),
{
    undo_laws::lemma_found_at(pool, index);
}

/// A page that is dropped leaves its frame; the other frames stay, in their order.
pub proof fn law_dropping_removes_one_frame(pool: PoolView, index: int)
    requires
        pool.wf(),
        0 <= index < pool.frames.len(),
    ensures
        ({
            let after = undo::dropped(pool, pool.frames[index].page.id);
            &&& after.frames.len() == pool.frames.len() - 1
            &&& forall|i: int| 0 <= i < index ==> #[trigger] after.frames[i] == pool.frames[i]
            &&& forall|i: int|
                index <= i < after.frames.len() ==> #[trigger] after.frames[i] == pool.frames[i + 1]
            &&& after.capacity == pool.capacity
            &&& after.reuse_inventory_invalid == pool.reuse_inventory_invalid
            &&& after.logged == pool.logged
            &&& 0 <= after.next_victim
            &&& after.next_victim < after.frames.len() || after.next_victim == 0
            &&& pool.next_victim < after.frames.len() ==> after.next_victim == pool.next_victim
        }),
{
    undo_laws::lemma_found_at(pool, index);
}

} // verus!
