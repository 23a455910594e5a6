//! What a page holds, wherever it is: in its frame, or in the file once the
//! frame was given up.
use super::error::BufferError;
use super::frame;
use super::frame::FrameView;
use super::laws;
use super::pool;
use super::pool::PoolView;
use crate::ids::PageId;
use crate::page::Image;
use vstd::prelude::*;

verus! {

/// Pages in a file.
pub type Pages = Map<PageId, Image>;

/// Whether the file has the content of every frame that is not to be written
/// back.
pub open spec fn written_back(pool: PoolView, file: Pages) -> bool {
    forall|i: int|
        0 <= i < pool.frames.len() && !(#[trigger] pool.frames[i]).dirty
            ==> file.contains_key(pool.frames[i].page.id) && file[pool.frames[i].page.id]
            == pool.frames[i].page
}

/// What a page holds: what its frame has, or else what the file has.
pub open spec fn content_of(pool: PoolView, file: Pages, page: PageId) -> Image {
    match frame::found(pool.frames, page) {
        Some(index) => pool.frames[index].page,
        None => file[page],
    }
}

/// A pool after the page at a place was written.
pub open spec fn flushed(pool: PoolView, index: int) -> PoolView {
    pool::with_frame(pool, index, FrameView { dirty: false, ..pool.frames[index] })
}

/// A file after the page at a place was written.
pub open spec fn file_flushed(pool: PoolView, file: Pages, index: int) -> Pages {
    file.insert(pool.frames[index].page.id, pool.frames[index].page)
}

/// Writing a page changes what no page holds, and the file has what the frame
/// has.
pub proof fn law_flush_keeps_contents(pool: PoolView, file: Pages, index: int)
    requires
        pool.wf(),
        written_back(pool, file),
        0 <= index < pool.frames.len(),
    ensures
        written_back(flushed(pool, index), file_flushed(pool, file, index)),
        file_flushed(pool, file, index)[pool.frames[index].page.id] == pool.frames[index].page,
        forall|page: PageId| #[trigger]
            content_of(flushed(pool, index), file_flushed(pool, file, index), page) == content_of(
                pool,
                file,
                page,
            ),
{
    let after = flushed(pool, index);
    let written = file_flushed(pool, file, index);
    assert forall|i: int| 0 <= i < after.frames.len() && !(#[trigger] after.frames[i]).dirty implies {
        &&& written.contains_key(after.frames[i].page.id)
        &&& written[after.frames[i].page.id] == after.frames[i].page
    } by {
        if i != index {
            assert(after.frames[i] == pool.frames[i]);
            if i < index {
                assert(pool.frames[i].page.id != pool.frames[index].page.id);
            } else {
                assert(pool.frames[index].page.id != pool.frames[i].page.id);
            }
        }
    }
    assert forall|page: PageId| #[trigger] content_of(after, written, page) == content_of(
        pool,
        file,
        page,
    ) by {
        laws::lemma_found_again(pool.frames, after.frames, page, 0);
        frame::lemma_found(pool.frames, page, 0);
        if frame::found(pool.frames, page) is None {
            assert(pool.frames[index].page.id != page);
        }
    }
}

/// Giving a frame to another page, as it is in the file, changes what no page
/// holds. The page that had the frame is found in the file.
pub proof fn law_eviction_keeps_contents(
    pool: PoolView,
    file: Pages,
    index: int,
    page: PageId,
    writer: bool,
)
    requires
        pool.wf(),
        written_back(pool, file),
        pool::takes(pool, index, page),
        frame::found(pool.frames, page) is None,
        file.contains_key(page),
        file[page].id == page,
    ensures
        ({
            let after = pool::put(pool, index, pool::installed(file[page], writer));
            &&& written_back(after, file)
            &&& forall|other: PageId| #[trigger]
                content_of(after, file, other) == content_of(pool, file, other)
        }),
{
    let after = pool::put(pool, index, pool::installed(file[page], writer));
    laws::law_installed_page_is_found(pool, index, file[page], writer);
    assert forall|i: int| 0 <= i < after.frames.len() && !(#[trigger] after.frames[i]).dirty implies {
        &&& file.contains_key(after.frames[i].page.id)
        &&& file[after.frames[i].page.id] == after.frames[i].page
    } by {
        if i != index {
            assert(after.frames[i] == pool.frames[i]);
        }
    }
    assert forall|other: PageId| #[trigger] content_of(after, file, other) == content_of(
        pool,
        file,
        other,
    ) by {
        frame::lemma_found(pool.frames, other, 0);
        frame::lemma_found(after.frames, other, 0);
        match frame::found(pool.frames, other) {
            Some(i) => {
                assert(other != page);
                if i == index {
                    assert(!pool.frames[i].dirty);
                    if let Some(j) = frame::found(after.frames, other) {
                        assert(j != index);
                        assert(after.frames[j] == pool.frames[j]);
                        if i < j {
                            assert(pool.frames[i].page.id != pool.frames[j].page.id);
                        } else {
                            assert(pool.frames[j].page.id != pool.frames[i].page.id);
                        }
                    }
                } else {
                    assert(after.frames[i] == pool.frames[i]);
                    if let Some(j) = frame::found(after.frames, other) {
                        if j != i {
                            assert(j != index);
                            assert(after.frames[j] == pool.frames[j]);
                            if i < j {
                                assert(pool.frames[i].page.id != pool.frames[j].page.id);
                            } else {
                                assert(pool.frames[j].page.id != pool.frames[i].page.id);
                            }
                        }
                    }
                }
            },
            None => {
                if let Some(j) = frame::found(after.frames, other) {
                    if j != index {
                        assert(after.frames[j] == pool.frames[j]);
                    }
                }
            },
        }
    }
}

/// Pinning a page, and letting go of it as a reader, change what no page holds.
pub proof fn law_pins_keep_contents(pool: PoolView, file: Pages, page: PageId)
    requires
        pool.wf(),
        written_back(pool, file),
    ensures
        written_back(pool::read_pin(pool, page).1, file),
        written_back(pool::write_pin(pool, page).1, file),
        written_back(pool::read_released(pool, page), file),
        forall|other: PageId|
            #![trigger content_of(pool, file, other)]
            {
                &&& content_of(pool::read_pin(pool, page).1, file, other) == content_of(
                    pool,
                    file,
                    other,
                )
                &&& content_of(pool::write_pin(pool, page).1, file, other) == content_of(
                    pool,
                    file,
                    other,
                )
                &&& content_of(pool::read_released(pool, page), file, other) == content_of(
                    pool,
                    file,
                    other,
                )
            },
{
    frame::lemma_found(pool.frames, page, 0);
    lemma_marked(pool, pool::read_pin(pool, page).1, file);
    lemma_marked(pool, pool::write_pin(pool, page).1, file);
    lemma_marked(pool, pool::read_released(pool, page), file);
}

/// Frames whose pins alone differ.
proof fn lemma_marked(pool: PoolView, after: PoolView, file: Pages)
    requires
        written_back(pool, file),
        after.frames.len() == pool.frames.len(),
        forall|i: int|
            0 <= i < pool.frames.len() ==> (#[trigger] after.frames[i]).page
                == pool.frames[i].page && after.frames[i].dirty == pool.frames[i].dirty,
    ensures
        written_back(after, file),
        forall|other: PageId| #[trigger]
            content_of(after, file, other) == content_of(pool, file, other),
{
    assert forall|i: int| 0 <= i < after.frames.len() && !(#[trigger] after.frames[i]).dirty implies {
        &&& file.contains_key(after.frames[i].page.id)
        &&& file[after.frames[i].page.id] == after.frames[i].page
    } by {
        assert(!pool.frames[i].dirty);
    }
    assert forall|other: PageId| #[trigger] content_of(after, file, other) == content_of(
        pool,
        file,
        other,
    ) by {
        laws::lemma_found_again(pool.frames, after.frames, other, 0);
        frame::lemma_found(pool.frames, other, 0);
        if let Some(i) = frame::found(pool.frames, other) {
            assert(after.frames[i].page == pool.frames[i].page);
        }
    }
}

/// A writer that gives a page back: the page holds what the writer gave back,
/// and no other page holds anything else. A writer that changed nothing gives
/// back what it got.
pub proof fn law_writer_sets_its_page(
    pool: PoolView,
    file: Pages,
    page: PageId,
    content: Image,
    dirty: bool,
)
    requires
        pool.wf(),
        written_back(pool, file),
        frame::found(pool.frames, page) is Some,
        content.id == page,
        dirty || content == content_of(pool, file, page),
    ensures
        ({
            let after = pool::write_released(pool, page, content, dirty);
            &&& written_back(after, file)
            &&& content_of(after, file, page) == content
            &&& forall|other: PageId|
                other != page ==> #[trigger] content_of(after, file, other) == content_of(
                    pool,
                    file,
                    other,
                )
        }),
{
    let after = pool::write_released(pool, page, content, dirty);
    frame::lemma_found(pool.frames, page, 0);
    let index = frame::found(pool.frames, page)->0;
    assert(after.frames[index].page =~= content);
    assert forall|i: int| 0 <= i < after.frames.len() && !(#[trigger] after.frames[i]).dirty implies {
        &&& file.contains_key(after.frames[i].page.id)
        &&& file[after.frames[i].page.id] == after.frames[i].page
    } by {
        assert(!pool.frames[i].dirty);
        if i != index {
            assert(after.frames[i] == pool.frames[i]);
        }
    }
    laws::lemma_found_again(pool.frames, after.frames, page, 0);
    assert forall|other: PageId| other != page implies #[trigger] content_of(after, file, other)
        == content_of(pool, file, other) by {
        laws::lemma_found_again(pool.frames, after.frames, other, 0);
        frame::lemma_found(pool.frames, other, 0);
        if let Some(i) = frame::found(pool.frames, other) {
            assert(i != index);
            assert(after.frames[i] == pool.frames[i]);
        }
    }
}

/// What a writer gives back survives the frame: the page is written, its frame
/// is given to another page, and when the page is read in again, into whichever
/// frame takes it, a reader gets what the writer gave back.
pub proof fn law_written_page_survives_eviction(
    pool: PoolView,
    file: Pages,
    page: PageId,
    content: Image,
    dirty: bool,
    other: PageId,
    again: int,
)
    requires
        pool.wf(),
        written_back(pool, file),
        pool::write_pin(pool, page).0 matches Ok(image) && image is Some,
        content.id == page,
        dirty || pool::write_pin(pool, page).0 == Ok::<Option<Image>, BufferError>(Some(content)),
        other != page,
        frame::found(pool.frames, other) is None,
        file.contains_key(other),
        file[other].id == other,
        ({
            let index = frame::found(pool.frames, page)->0;
            let released = pool::write_released(
                pool::write_pin(pool, page).1,
                page,
                content,
                dirty,
            );
            let written = file_flushed(released, file, index);
            let evicted = pool::put(
                flushed(released, index),
                index,
                pool::installed(written[other], false),
            );
            pool::takes(evicted, again, page)
        }),
    ensures
        ({
            let index = frame::found(pool.frames, page)->0;
            let released = pool::write_released(
                pool::write_pin(pool, page).1,
                page,
                content,
                dirty,
            );
            let written = file_flushed(released, file, index);
            let evicted = pool::put(
                flushed(released, index),
                index,
                pool::installed(written[other], false),
            );
            let reloaded = pool::put(evicted, again, pool::installed(written[page], false));
            &&& pool::read_pin(released, page).0 == Ok::<Option<Image>, BufferError>(Some(content))
            &&& frame::found(evicted.frames, page) is None
            &&& written[page] == content
            &&& pool::read_pin(reloaded, page).0 == Ok::<Option<Image>, BufferError>(Some(content))
            &&& forall|p: PageId|
                p != page ==> #[trigger] content_of(reloaded, written, p) == content_of(
                    pool,
                    file,
                    p,
                )
        }),
{
    let pinned = pool::write_pin(pool, page).1;
    let index = frame::found(pool.frames, page)->0;
    frame::lemma_found(pool.frames, page, 0);
    frame::lemma_found(pool.frames, other, 0);
    law_pins_keep_contents(pool, file, page);
    laws::lemma_found_again(pool.frames, pinned.frames, page, 0);
    assert(content_of(pinned, file, page) == content_of(pool, file, page));
    law_writer_sets_its_page(pinned, file, page, content, dirty);
    laws::law_written_page_is_read(pool, page, content, dirty);
    let released = pool::write_released(pinned, page, content, dirty);
    assert(released.wf()) by {
        assert forall|i: int, j: int| 0 <= i < j < released.frames.len() implies (
        #[trigger] released.frames[i]).page.id != (#[trigger] released.frames[j]).page.id by {
            assert(pool.frames[i].page.id != pool.frames[j].page.id);
        }
        assert forall|i: int|
            0 <= i < released.frames.len() && (#[trigger] released.frames[i]).writer implies released.frames[i].pins
            == 1 by {
            assert(i != index ==> released.frames[i] == pool.frames[i]);
        }
    }
    assert(released.frames[index].page =~= content);
    law_flush_keeps_contents(released, file, index);
    let clean = flushed(released, index);
    let written = file_flushed(released, file, index);
    assert(clean.wf()) by {
        assert forall|i: int, j: int| 0 <= i < j < clean.frames.len() implies (
        #[trigger] clean.frames[i]).page.id != (#[trigger] clean.frames[j]).page.id by {
            assert(released.frames[i].page.id != released.frames[j].page.id);
        }
    }
    laws::lemma_found_again(pool.frames, clean.frames, other, 0);
    assert(pool::takes(clean, index, other)) by {
        assert forall|i: int| 0 <= i < clean.frames.len() && i != index implies (
        #[trigger] clean.frames[i]).page.id != other by {
            assert(pool.frames[i].page.id != other);
        }
    }
    law_eviction_keeps_contents(clean, written, index, other, false);
    laws::law_installed_page_is_found(clean, index, written[other], false);
    let evicted = pool::put(clean, index, pool::installed(written[other], false));
    assert(evicted.wf()) by {
        assert forall|i: int, j: int| 0 <= i < j < evicted.frames.len() implies (
        #[trigger] evicted.frames[i]).page.id != (#[trigger] evicted.frames[j]).page.id by {
            if i != index && j != index {
                assert(clean.frames[i].page.id != clean.frames[j].page.id);
            } else if i == index {
                assert(evicted.frames[j] == clean.frames[j]);
            } else {
                assert(evicted.frames[i] == clean.frames[i]);
            }
        }
        assert forall|i: int|
            0 <= i < evicted.frames.len() && (#[trigger] evicted.frames[i]).writer implies evicted.frames[i].pins
            == 1 by {
            if i != index {
                assert(evicted.frames[i] == clean.frames[i]);
                assert(clean.frames[i] == released.frames[i]);
            }
        }
    }
    frame::lemma_found(evicted.frames, page, 0);
    if let Some(i) = frame::found(evicted.frames, page) {
        if i != index {
            assert(evicted.frames[i] == clean.frames[i]);
            assert(clean.frames[i].page.id == pool.frames[i].page.id);
            if i < index {
                assert(pool.frames[i].page.id != pool.frames[index].page.id);
            } else {
                assert(pool.frames[index].page.id != pool.frames[i].page.id);
            }
        }
    }
    law_eviction_keeps_contents(evicted, written, again, page, false);
    laws::law_installed_page_is_found(evicted, again, written[page], false);
    let reloaded = pool::put(evicted, again, pool::installed(written[page], false));
    assert forall|p: PageId| p != page implies #[trigger] content_of(reloaded, written, p)
        == content_of(pool, file, p) by {
        assert(content_of(reloaded, written, p) == content_of(evicted, written, p));
        assert(content_of(evicted, written, p) == content_of(clean, written, p));
        assert(content_of(clean, written, p) == content_of(released, file, p));
        assert(content_of(released, file, p) == content_of(pinned, file, p));
        assert(content_of(pool, file, p) == content_of(pinned, file, p));
    }
}

} // verus!
