//! What the page buffer promises.
use super::error::BufferError;
use super::frame;
use super::frame::{FlushAction, FrameView};
use super::pool;
use super::pool::{FramePlan, PoolView};
use crate::ids::{Lsn, PageId};
use crate::page::Image;
use vstd::prelude::*;

verus! {

/// A logged page is never written before the log: flushing it asks for the
/// log first, and without a log it is refused.
pub proof fn law_log_before_page(frame: FrameView, logged: bool, lsn: Lsn)
    requires
        frame.dirty,
        !frame.writer,
        frame.page.lsn == Some(lsn),
        frame.page.id.0 != 0,
    ensures
        frame::flush_of(frame, logged) == if logged {
            Ok::<FlushAction, BufferError>(FlushAction::FlushWal(lsn))
        } else {
            Err::<FlushAction, BufferError>(
                BufferError::WalUnavailable { page_id: frame.page.id, page_lsn: lsn },
            )
        },
{
}

/// A frame that is pinned is no victim, and a victim is found wherever a
/// frame has no pins.
pub proof fn law_victim(pool: PoolView, offset: int)
    requires
        pool.wf(),
        0 <= offset <= pool.frames.len(),
        forall|o: int|
            0 <= o < offset ==> (#[trigger] pool.frames[pool::wrapped(
                pool.next_victim + o,
                pool.frames.len() as int,
            )]).pins != 0,
    ensures
        match pool::victim_from(pool, offset) {
            Some(index) => 0 <= index < pool.frames.len() && pool.frames[index].pins == 0,
            None => forall|i: int|
                0 <= i < pool.frames.len() ==> (#[trigger] pool.frames[i]).pins != 0,
        },
    decreases pool.frames.len() - offset,
{
    let n = pool.frames.len() as int;
    if offset >= n {
        assert forall|i: int| 0 <= i < n implies (#[trigger] pool.frames[i]).pins != 0 by {
            let o = if i >= pool.next_victim {
                i - pool.next_victim
            } else {
                i - pool.next_victim + n
            };
            assert(pool::wrapped(pool.next_victim + o, n) == i);
        }
    } else {
        let index = pool::wrapped(pool.next_victim + offset, n);
        if pool.frames[index].pins != 0 {
            assert forall|o: int| 0 <= o < offset + 1 implies (
            #[trigger] pool.frames[pool::wrapped(pool.next_victim + o, n)]).pins != 0 by {
                if o == offset {
                    assert(pool::wrapped(pool.next_victim + o, n) == index);
                }
            }
            law_victim(pool, offset + 1);
        }
    }
}

/// A pinned page is never evicted: the frame that a new page gets is a free
/// one, or one without pins; and where every frame of a full pool is pinned
/// the pool is exhausted.
pub proof fn law_pinned_page_stays(pool: PoolView)
    requires
        pool.wf(),
    ensures
        pool::plan_of(pool) matches Ok(plan) ==> plan.index == pool.frames.len()
            && pool.frames.len() < pool.capacity || plan.index < pool.frames.len()
            && pool.frames[plan.index as int].pins == 0,
        pool.frames.len() == pool.capacity && (forall|i: int|
            0 <= i < pool.frames.len() ==> (#[trigger] pool.frames[i]).pins != 0)
            ==> pool::plan_of(pool) == Err::<FramePlan, BufferError>(
            BufferError::Exhausted { capacity: pool.capacity as usize },
        ),
{
    law_victim(pool, 0);
}

/// A dirty page is written before it leaves: the plan for its frame asks for
/// the write, or for the log first.
pub proof fn law_dirty_page_is_written(pool: PoolView)
    requires
        pool.wf(),
        pool.frames.len() == pool.capacity,
    ensures
        pool::plan_of(pool) matches Ok(plan) ==> (plan.flush == FlushAction::Nothing
            <==> !pool.frames[plan.index as int].dirty),
{
    law_victim(pool, 0);
}

/// A page that was installed is the one that is found, with what was put in.
pub proof fn law_installed_page_is_found(pool: PoolView, index: int, page: Image, writer: bool)
    requires
        pool.wf(),
        pool::takes(pool, index, page.id),
    ensures
        ({
            let after = pool::put(pool, index, pool::installed(page, writer));
            &&& frame::found(after.frames, page.id) == Some(index)
            &&& after.frames[index] == pool::installed(page, writer)
            &&& forall|i: int|
                0 <= i < pool.frames.len() && i != index ==> #[trigger] after.frames[i]
                    == pool.frames[i]
        }),
{
    let after = pool::put(pool, index, pool::installed(page, writer));
    frame::lemma_found(after.frames, page.id, 0);
    match frame::found(after.frames, page.id) {
        Some(i) => {
            if i != index {
                assert(after.frames[i] == pool.frames[i]);
            }
        },
        None => {
            assert(after.frames[index].page.id == page.id);
        },
    }
}

/// A page keeps its place while its pins change.
pub proof fn lemma_found_again(
    before: Seq<FrameView>,
    after: Seq<FrameView>,
    page: PageId,
    i: int,
)
    requires
        before.len() == after.len(),
        forall|j: int|
            0 <= j < before.len() ==> (#[trigger] after[j]).page.id == before[j].page.id,
        0 <= i,
    ensures
        frame::found_from(after, page, i) == frame::found_from(before, page, i),
    decreases before.len() - i,
{
    if i < before.len() {
        assert(after[i].page.id == before[i].page.id);
        lemma_found_again(before, after, page, i + 1);
    }
}

/// Letting go of a page undoes the pin: the pool is as before.
pub proof fn law_release_undoes_pin(pool: PoolView, page: PageId)
    requires
        pool.wf(),
        pool::read_pin(pool, page).0 matches Ok(image) && image is Some,
    ensures
        pool::read_released(pool::read_pin(pool, page).1, page) == pool,
{
    let pinned = pool::read_pin(pool, page).1;
    let index = frame::found(pool.frames, page)->0;
    frame::lemma_found(pool.frames, page, 0);
    lemma_found_again(pool.frames, pinned.frames, page, 0);
    assert(pool::read_released(pinned, page).frames =~= pool.frames);
}

/// What a writer gives back is what the next reader gets, and nobody holds the
/// page. It is to be written back exactly where it was to be before, or where
/// the writer changed it.
pub proof fn law_written_page_is_read(
    pool: PoolView,
    page: PageId,
    content: Image,
    dirty: bool,
)
    requires
        pool.wf(),
        pool::write_pin(pool, page).0 matches Ok(image) && image is Some,
        content.id == page,
    ensures
        ({
            let after = pool::write_released(pool::write_pin(pool, page).1, page, content, dirty);
            let index = frame::found(pool.frames, page)->0;
            &&& pool::read_pin(after, page).0 == Ok::<Option<Image>, BufferError>(Some(content))
            &&& after.frames[index].dirty <==> pool.frames[index].dirty || dirty
            &&& after.frames[index].pins == 0
            &&& !after.frames[index].writer
            &&& forall|i: int|
                0 <= i < pool.frames.len() && i != index ==> #[trigger] after.frames[i]
                    == pool.frames[i]
        }),
{
    let pinned = pool::write_pin(pool, page).1;
    let after = pool::write_released(pinned, page, content, dirty);
    let index = frame::found(pool.frames, page)->0;
    frame::lemma_found(pool.frames, page, 0);
    lemma_found_again(pool.frames, pinned.frames, page, 0);
    lemma_found_again(pinned.frames, after.frames, page, 0);
    assert(after.frames[index].page =~= content);
}

} // verus!
