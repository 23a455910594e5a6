//! What rolling a page back does to what the pages hold.
use super::content_laws;
use super::content_laws::Pages;
use super::error::BufferError;
use super::frame;
use super::laws;
use super::pool;
use super::pool::PoolView;
use super::undo;
use super::undo::{BeforeView, UndoAction};
use crate::allocation_transition;
use crate::ids::{PageGeneration, PageId};
use crate::page::Image;
use vstd::prelude::*;

verus! {

/// Whether a page is in a frame that somebody holds.
pub open spec fn held(pool: PoolView, page: PageId) -> bool {
    exists|i: int|
        0 <= i < pool.frames.len() && (#[trigger] pool.frames[i]).page.id == page
            && pool.frames[i].pins != 0
}

/// Whether a page is in no frame.
pub open spec fn uncached(pool: PoolView, page: PageId) -> bool {
    forall|i: int| 0 <= i < pool.frames.len() ==> (#[trigger] pool.frames[i]).page.id != page
}

/// Whether no page but one holds anything else than before.
pub open spec fn others_kept(
    before: PoolView,
    old_file: Pages,
    after: PoolView,
    new_file: Pages,
    page: PageId,
) -> bool {
    forall|other: PageId|
        other != page ==> #[trigger] content_laws::content_of(after, new_file, other)
            == content_laws::content_of(before, old_file, other)
}

/// A cached page is found in its frame.
pub proof fn lemma_found_at(pool: PoolView, index: int)
    requires
        pool.wf(),
        0 <= index < pool.frames.len(),
    ensures
        frame::found(pool.frames, pool.frames[index].page.id) == Some(index),
{
    let page = pool.frames[index].page.id;
    frame::lemma_found(pool.frames, page, 0);
    match frame::found(pool.frames, page) {
        Some(i) => {
            if i < index {
                assert(pool.frames[i].page.id != pool.frames[index].page.id);
            } else if i > index {
                assert(pool.frames[index].page.id != pool.frames[i].page.id);
            }
        },
        None => {},
    }
}

/// Why the change of a page cannot be undone, if it cannot: somebody holds the
/// page, or it is another incarnation and not a page of zeros.
pub open spec fn refusal(
    pool: PoolView,
    file: Pages,
    page: PageId,
    expected: Option<PageGeneration>,
) -> Option<BufferError> {
    let current = content_laws::content_of(pool, file, page);
    if held(pool, page) {
        Some(BufferError::PagePinned { page_id: page })
    } else if current.generation != expected && exists|k: int|
        0 <= k < current.bytes.len() && #[trigger] current.bytes[k] != 0 {
        Some(BufferError::WrongAllocation { page_id: current.id })
    } else {
        None
    }
}

proof fn lemma_target(
    pool: PoolView,
    file: Pages,
    page: PageId,
    page_count: u64,
    expected: Option<PageGeneration>,
)
    requires
        pool.wf(),
        page.0 < page_count,
    ensures
        undo::undo_target_check(pool, page, page_count, file[page], expected) == match refusal(
            pool,
            file,
            page,
            expected,
        ) {
            Some(error) => Err::<(), BufferError>(error),
            None => Ok(()),
        },
{
    frame::lemma_found(pool.frames, page, 0);
    match frame::found(pool.frames, page) {
        Some(index) => {
            if pool.frames[index].pins != 0 {
                assert(held(pool, page));
            } else if held(pool, page) {
                let i = choose|i: int|
                    0 <= i < pool.frames.len() && (#[trigger] pool.frames[i]).page.id == page
                        && pool.frames[i].pins != 0;
                lemma_found_at(pool, i);
            }
        },
        None => {},
    }
}

/// Putting another content into a frame, as one that is to be written back,
/// makes it what the page holds.
proof fn lemma_replaced(
    pool: PoolView,
    file: Pages,
    index: int,
    content: Image,
)
    requires
        pool.wf(),
        content_laws::written_back(pool, file),
        0 <= index < pool.frames.len(),
        content.id == pool.frames[index].page.id,
    ensures
        ({
            let changed = frame::FrameView { page: content, dirty: true, ..pool.frames[index] };
            let after = pool::with_frame(pool, index, changed);
            &&& after.wf()
            &&& content_laws::written_back(after, file)
            &&& content_laws::content_of(after, file, content.id) == content
            &&& others_kept(pool, file, after, file, content.id)
        }),
{
    let changed = frame::FrameView { page: content, dirty: true, ..pool.frames[index] };
    let after = pool::with_frame(pool, index, changed);
    assert forall|i: int| 0 <= i < after.frames.len() && i != index implies #[trigger] after.frames[i]
        == pool.frames[i] by {}
    assert forall|i: int, j: int| 0 <= i < j < after.frames.len() implies (
    #[trigger] after.frames[i]).page.id != (#[trigger] after.frames[j]).page.id by {
        assert(pool.frames[i].page.id != pool.frames[j].page.id);
    }
    assert forall|i: int|
        0 <= i < after.frames.len() && (#[trigger] after.frames[i]).writer implies after.frames[i].pins
        == 1 by {
        assert(pool.frames[i].writer);
    }
    assert forall|i: int| 0 <= i < after.frames.len() && !(#[trigger] after.frames[i]).dirty implies {
        &&& file.contains_key(after.frames[i].page.id)
        &&& file[after.frames[i].page.id] == after.frames[i].page
    } by {
        assert(!pool.frames[i].dirty);
    }
    lemma_found_at(after, index);
    assert forall|other: PageId| other != content.id implies
        #[trigger] content_laws::content_of(after, file, other) == content_laws::content_of(
        pool,
        file,
        other,
    ) by {
        laws::lemma_found_again(pool.frames, after.frames, other, 0);
        frame::lemma_found(pool.frames, other, 0);
        if let Some(i) = frame::found(pool.frames, other) {
            assert(i != index);
        }
    }
}

/// A page that gets a frame of its own as one that is to be written back holds
/// what was put in, and no other page holds anything else.
pub proof fn law_pending_page_is_held(pool: PoolView, file: Pages, index: int, content: Image)
    requires
        pool.wf(),
        content_laws::written_back(pool, file),
        pool::takes(pool, index, content.id),
        uncached(pool, content.id),
    ensures
        ({
            let after = pool::put(pool, index, pool::pending(content));
            &&& 0 <= index < after.frames.len()
            &&& after.frames[index].page == content
            &&& after.frames[index].dirty
            &&& after.frames[index].pins == 0
            &&& !after.frames[index].writer
            &&& content_laws::written_back(after, file)
            &&& content_laws::content_of(after, file, content.id) == content
            &&& others_kept(pool, file, after, file, content.id)
        }),
{
    let after = pool::put(pool, index, pool::pending(content));
    let page = content.id;
    assert forall|i: int| 0 <= i < pool.frames.len() && i != index implies #[trigger] after.frames[i]
        == pool.frames[i] by {}
    assert forall|i: int| 0 <= i < after.frames.len() && !(#[trigger] after.frames[i]).dirty implies {
        &&& file.contains_key(after.frames[i].page.id)
        &&& file[after.frames[i].page.id] == after.frames[i].page
    } by {
        assert(after.frames[i] == pool.frames[i]);
    }
    frame::lemma_found(after.frames, page, 0);
    match frame::found(after.frames, page) {
        Some(i) => {
            if i != index {
                assert(after.frames[i] == pool.frames[i]);
            }
        },
        None => {
            assert(after.frames[index].page.id == page);
        },
    }
    assert forall|other: PageId| other != page implies #[trigger] content_laws::content_of(
        after,
        file,
        other,
    ) == content_laws::content_of(pool, file, other) by {
        frame::lemma_found(pool.frames, other, 0);
        frame::lemma_found(after.frames, other, 0);
        match frame::found(pool.frames, other) {
            Some(i) => {
                if i == index {
                    assert(!pool.frames[i].dirty);
                    if let Some(j) = frame::found(after.frames, other) {
                        assert(j != index);
                        assert(after.frames[j] == pool.frames[j]);
                        lemma_found_at(pool, j);
                    }
                } else {
                    assert(after.frames[i] == pool.frames[i]);
                    if let Some(j) = frame::found(after.frames, other) {
                        assert(j != index);
                        assert(after.frames[j] == pool.frames[j]);
                        lemma_found_at(pool, j);
                    }
                }
            },
            None => {
                if let Some(j) = frame::found(after.frames, other) {
                    assert(j != index);
                    assert(after.frames[j] == pool.frames[j]);
                }
            },
        }
    }
}

/// Undoing a change of a page that existed before makes the page hold its old
/// content again, whatever its frame held and whether or not that was to be
/// written back. A cached page is left in its frame, to be written back, so that
/// flushing the frame puts the old content into the file; a page that is in no
/// frame is to get one. No other page holds anything else.
///
/// It is refused for a page outside the file, and where somebody holds the page
/// or the page is another incarnation; and then nothing changes.
pub proof fn law_undo_restores_the_page(
    pool: PoolView,
    file: Pages,
    page: PageId,
    page_count: u64,
    old: Image,
    expected: Option<PageGeneration>,
)
    requires
        pool.wf(),
        content_laws::written_back(pool, file),
    ensures
        ({
            let (outcome, after) = undo::undo_of(
                pool,
                page,
                page_count,
                file[page],
                BeforeView::Existing(old),
                expected,
            );
            let content = Image { id: page, ..old };
            &&& outcome is Ok <==> page.0 < page_count && refusal(pool, file, page, expected) is None
            &&& page.0 >= page_count ==> outcome == Err::<UndoAction, BufferError>(
                BufferError::OutsideDataFile { page_id: page },
            )
            &&& page.0 < page_count && refusal(pool, file, page, expected) is Some ==> outcome
                == Err::<UndoAction, BufferError>(refusal(pool, file, page, expected)->0)
            &&& match outcome {
                Err(_) => after == pool,
                Ok(UndoAction::Flush(index)) => {
                    &&& index < pool.frames.len()
                    &&& pool.frames[index as int].page.id == page
                    &&& after.frames.len() == pool.frames.len()
                    &&& after.frames[index as int].page == content
                    &&& after.frames[index as int].dirty
                    &&& after.frames[index as int].pins == 0
                    &&& forall|i: int|
                        0 <= i < pool.frames.len() && i != index ==> #[trigger] after.frames[i]
                            == pool.frames[i]
                    &&& content_laws::written_back(after, file)
                    &&& content_laws::content_of(after, file, page) == content
                    &&& content_laws::file_flushed(after, file, index as int)[page] == content
                    &&& others_kept(pool, file, after, file, page)
                },
                Ok(UndoAction::Install) => {
                    &&& after == pool
                    &&& uncached(pool, page)
                },
                Ok(_) => false,
            }
        }),
{
    let undone = undo::undo_of(
        pool,
        page,
        page_count,
        file[page],
        BeforeView::Existing(old),
        expected,
    );
    let content = Image { id: page, ..old };
    frame::lemma_found(pool.frames, page, 0);
    if page.0 < page_count {
        lemma_target(pool, file, page, page_count, expected);
        if undone.0 is Ok {
            if let Some(index) = frame::found(pool.frames, page) {
                assert(pool.frames[index].pins == 0) by {
                    if pool.frames[index].pins != 0 {
                        assert(held(pool, page));
                    }
                }
                lemma_replaced(pool, file, index, content);
            }
        }
    }
}

/// Undoing a change that made a page: where the page is in the file, it leaves
/// its frame and is cut off; where it is not there yet, there is nothing to cut,
/// or only what there is of it. No other page holds anything else. It is refused
/// where somebody holds the page or the page is another incarnation; and then
/// nothing changes.
pub proof fn law_undo_removes_a_new_page(
    pool: PoolView,
    file: Pages,
    page: PageId,
    page_count: u64,
    expected: Option<PageGeneration>,
)
    requires
        pool.wf(),
        content_laws::written_back(pool, file),
    ensures
        ({
            let (outcome, after) = undo::undo_of(
                pool,
                page,
                page_count,
                file[page],
                BeforeView::NewPage,
                expected,
            );
            if page.0 > page_count {
                outcome == Ok::<UndoAction, BufferError>(UndoAction::Nothing) && after == pool
            } else if page.0 == page_count {
                outcome == Ok::<UndoAction, BufferError>(UndoAction::RemoveTrailing) && after
                    == pool
            } else if let Some(error) = refusal(pool, file, page, expected) {
                outcome == Err::<UndoAction, BufferError>(error) && after == pool
            } else {
                &&& outcome == Ok::<UndoAction, BufferError>(UndoAction::RemoveTrailing)
                &&& uncached(after, page)
                &&& content_laws::written_back(after, file)
                &&& others_kept(pool, file, after, file, page)
            }
        }),
{
    if page.0 < page_count {
        lemma_target(pool, file, page, page_count, expected);
        law_dropped_page_leaves(pool, file, page);
    }
}

/// A page that is dropped is in no frame, and every other page stays in its
/// frame as it was.
pub proof fn law_dropped_page_leaves(pool: PoolView, file: Pages, page: PageId)
    requires
        pool.wf(),
        content_laws::written_back(pool, file),
    ensures
        ({
            let after = undo::dropped(pool, page);
            &&& uncached(after, page)
            &&& content_laws::written_back(after, file)
            &&& others_kept(pool, file, after, file, page)
            &&& forall|i: int|
                0 <= i < pool.frames.len() && (#[trigger] pool.frames[i]).page.id != page
                    ==> after.frames.contains(pool.frames[i])
            &&& forall|i: int|
                0 <= i < after.frames.len() ==> pool.frames.contains(#[trigger] after.frames[i])
        }),
{
    let after = undo::dropped(pool, page);
    frame::lemma_found(pool.frames, page, 0);
    if let Some(index) = frame::found(pool.frames, page) {
        assert forall|i: int| 0 <= i < after.frames.len() implies #[trigger] after.frames[i]
            == pool.frames[if i < index { i } else { i + 1 }] by {}
        assert forall|i: int| 0 <= i < after.frames.len() implies (
        #[trigger] after.frames[i]).page.id != page by {
            let from = if i < index { i } else { i + 1 };
            if from < index {
                assert(pool.frames[from].page.id != pool.frames[index].page.id);
            } else {
                assert(pool.frames[index].page.id != pool.frames[from].page.id);
            }
        }
        assert forall|i: int|
            0 <= i < pool.frames.len() && (#[trigger] pool.frames[i]).page.id != page implies
            after.frames.contains(pool.frames[i]) by {
            let to = if i < index { i } else { i - 1 };
            assert(after.frames[to] == pool.frames[i]);
        }
        assert forall|other: PageId| other != page implies #[trigger] content_laws::content_of(
            after,
            file,
            other,
        ) == content_laws::content_of(pool, file, other) by {
            frame::lemma_found(pool.frames, other, 0);
            frame::lemma_found(after.frames, other, 0);
            if let Some(j) = frame::found(after.frames, other) {
                let from = if j < index { j } else { j + 1 };
                assert(after.frames[j] == pool.frames[from]);
                lemma_found_at(pool, from);
            } else if let Some(i) = frame::found(pool.frames, other) {
                assert(after.frames.contains(pool.frames[i]));
                let j = choose|j: int|
                    0 <= j < after.frames.len() && after.frames[j] == pool.frames[i];
                assert(after.frames[j].page.id == other);
            }
        }
    }
}

/// A new incarnation of a page is published exactly where it may follow the old
/// one, the page is in no frame or in one that nobody holds and that is as the
/// file has it, and the file still has the old bytes. The old incarnation is
/// then in no frame, and no other page holds anything else.
pub proof fn law_published_incarnation(
    pool: PoolView,
    file: Pages,
    before: Image,
    after: Image,
    current: Image,
)
    requires
        pool.wf(),
        content_laws::written_back(pool, file),
    ensures
        ({
            let outcome = undo::publish_check(pool, before, after, current);
            let next = undo::dropped(pool, before.id);
            &&& outcome is Ok <==> {
                &&& allocation_transition::transition_check(before, after) is Ok
                &&& forall|i: int|
                    0 <= i < pool.frames.len() && (#[trigger] pool.frames[i]).page.id == before.id
                        ==> pool.frames[i].pins == 0 && !pool.frames[i].writer
                        && !pool.frames[i].dirty
                &&& current.bytes == before.bytes
            }
            &&& outcome is Ok ==> uncached(next, before.id) && others_kept(
                pool,
                file,
                next,
                file,
                before.id,
            )
        }),
{
    frame::lemma_found(pool.frames, before.id, 0);
    law_dropped_page_leaves(pool, file, before.id);
    if let Some(index) = frame::found(pool.frames, before.id) {
        assert forall|i: int|
            0 <= i < pool.frames.len() && (#[trigger] pool.frames[i]).page.id == before.id implies i
            == index by {
            lemma_found_at(pool, i);
        }
    }
}

} // verus!
