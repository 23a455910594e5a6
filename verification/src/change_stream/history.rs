//! Reading the committed history of an enabled stream.
use super::error::ChangeStreamError;
use super::log::Header;
use super::stream;
use super::stream::{BatchFileBytes, ChangeStreamCursor, EnabledStream, StreamView};
use super::types;
use super::types::{BatchView, ChangeBatch};
use crate::ids::StorageDataVersion;
use vstd::prelude::*;

verus! {

/// Batches that were read, with the committed frontier.
#[derive(PartialEq, Eq)]
pub struct ChangeReadResult {
    pub batches: Vec<ChangeBatch>,
    pub current_frontier: StorageDataVersion,
    pub has_more: bool,
}

/// Why a cursor does not point into the history of a stream.
pub open spec fn cursor_error(
    header: Header,
    batches: Seq<BatchView>,
    cursor: ChangeStreamCursor,
) -> Option<ChangeStreamError> {
    if cursor.storage_id != header.storage_id {
        Some(ChangeStreamError::ContextMismatch)
    } else if cursor.generation != header.generation {
        Some(ChangeStreamError::StreamIdentityMismatch)
    } else if cursor.frontier.0 < header.earliest.0 || cursor.frontier.0 > stream::current_of(
        header,
        batches,
    ).0 {
        Some(ChangeStreamError::HistoryUnavailable)
    } else {
        None
    }
}

/// The first batch that starts at a frontier.
pub open spec fn batch_starting_at(
    batches: Seq<BatchView>,
    frontier: StorageDataVersion,
) -> Option<int>
    decreases batches.len(),
{
    if batches.len() == 0 {
        None
    } else if let Some(earlier) = batch_starting_at(batches.drop_last(), frontier) {
        Some(earlier)
    } else if batches.last().before == frontier {
        Some(batches.len() - 1)
    } else {
        None
    }
}

/// The first batch at a frontier starts there, and none in front of it does.
pub proof fn lemma_batch_starting_at(batches: Seq<BatchView>, frontier: StorageDataVersion)
    ensures
        match batch_starting_at(batches, frontier) {
            Some(found) => {
                &&& 0 <= found < batches.len()
                &&& batches[found].before == frontier
                &&& forall|i: int| 0 <= i < found ==> (#[trigger] batches[i]).before != frontier
            },
            None => forall|i: int|
                0 <= i < batches.len() ==> (#[trigger] batches[i]).before != frontier,
        },
    decreases batches.len(),
{
    if batches.len() > 0 {
        let earlier = batches.drop_last();
        lemma_batch_starting_at(earlier, frontier);
        assert forall|i: int| 0 <= i < earlier.len() implies #[trigger] batches[i] == earlier[i] by {}
    }
}

/// How many batches from position `i` on fit into a number of batches and of
/// bytes.
pub open spec fn readable(
    sizes: Seq<BatchFileBytes>,
    i: int,
    batches_left: int,
    bytes_left: int,
) -> int
    decreases sizes.len() - i,
{
    if i < 0 || i >= sizes.len() || batches_left <= 0 || sizes[i].change_bytes > bytes_left {
        0
    } else {
        1 + readable(sizes, i + 1, batches_left - 1, bytes_left - sizes[i].change_bytes)
    }
}

proof fn lemma_readable(sizes: Seq<BatchFileBytes>, i: int, batches_left: int, bytes_left: int)
    ensures
        0 <= readable(sizes, i, batches_left, bytes_left),
        0 <= i <= sizes.len() ==> i + readable(sizes, i, batches_left, bytes_left) <= sizes.len(),
    decreases sizes.len() - i,
{
    if i < 0 || i >= sizes.len() || batches_left <= 0 || sizes[i].change_bytes > bytes_left {
    } else {
        lemma_readable(sizes, i + 1, batches_left - 1, bytes_left - sizes[i].change_bytes);
    }
}

/// What a read returns: as many batches from the cursor on as fit, in order.
pub open spec fn read_result(
    v: StreamView,
    cursor: ChangeStreamCursor,
    max_batches: int,
    max_bytes: int,
) -> Result<(Seq<BatchView>, bool), ChangeStreamError> {
    let current = stream::current_of(v.header, v.batches);
    if let Some(error) = cursor_error(v.header, v.batches, cursor) {
        Err(error)
    } else if cursor.frontier == current {
        Ok((Seq::empty(), false))
    } else {
        match batch_starting_at(v.batches, cursor.frontier) {
            None => Err(ChangeStreamError::HistoryUnavailable),
            Some(start) => {
                let n = readable(v.batch_file_bytes, start, max_batches, max_bytes);
                let end = if n == 0 {
                    cursor.frontier
                } else {
                    v.batches[start + n - 1].after
                };
                Ok((v.batches.subrange(start, start + n), end != current))
            },
        }
    }
}

impl EnabledStream {
    /// Checks that a cursor points into the history of this stream.
    pub fn validate_cursor_identity_and_frontier(&self, cursor: ChangeStreamCursor) -> (checked:
        Result<(), ChangeStreamError>)
        ensures
            match cursor_error(self.header, self@.batches, cursor) {
                Some(error) => checked == Err::<(), ChangeStreamError>(error),
                None => checked == Ok::<(), ChangeStreamError>(()),
            },
    {
        if cursor.storage_id != self.header.storage_id {
            return Err(ChangeStreamError::ContextMismatch);
        }
        if cursor.generation != self.header.generation {
            return Err(ChangeStreamError::StreamIdentityMismatch);
        }
        let current = self.effective_current();
        if cursor.frontier.0 < self.header.earliest.0 || cursor.frontier.0 > current.0 {
            return Err(ChangeStreamError::HistoryUnavailable);
        }
        Ok(())
    }

    /// The first batch that starts at a frontier.
    fn find_start(&self, frontier: StorageDataVersion) -> (found: Option<usize>)
        ensures
            match batch_starting_at(self@.batches, frontier) {
                Some(position) => found is Some && found->0 == position && position
                    < self.batches@.len(),
                None => found is None,
            },
    {
        let mut i: usize = 0;
        while i < self.batches.len()
            invariant
                i <= self.batches@.len(),
                forall|k: int| 0 <= k < i ==> (#[trigger] self@.batches[k]).before != frontier,
            decreases self.batches@.len() - i,
        {
            assert(self@.batches[i as int] == self.batches@[i as int]@);
            if self.batches[i].before == frontier {
                proof {
                    lemma_batch_starting_at(self@.batches, frontier);
                }
                return Some(i);
            }
            i = i + 1;
        }
        proof {
            lemma_batch_starting_at(self@.batches, frontier);
        }
        None
    }

    /// Reads as many batches from a cursor on as fit.
    pub fn read(&self, cursor: ChangeStreamCursor, max_batches: usize, max_bytes: u64) -> (result:
        Result<ChangeReadResult, ChangeStreamError>)
        requires
            self.wf(),
        ensures
            match read_result(self@, cursor, max_batches as int, max_bytes as int) {
                Err(error) => result == Err::<ChangeReadResult, ChangeStreamError>(error),
                Ok((batches, has_more)) => {
                    &&& result is Ok
                    &&& types::batches_view(result->Ok_0.batches@) == batches
                    &&& result->Ok_0.has_more == has_more
                    &&& result->Ok_0.current_frontier == stream::current_of(
                        self.header,
                        self@.batches,
                    )
                },
            },
    {
        self.validate_cursor_identity_and_frontier(cursor)?;
        let current = self.effective_current();
        if cursor.frontier == current {
            let batches: Vec<ChangeBatch> = Vec::new();
            assert(types::batches_view(batches@) =~= Seq::empty());
            return Ok(ChangeReadResult { batches, current_frontier: current, has_more: false });
        }
        match self.find_start(cursor.frontier) {
            None => Err(ChangeStreamError::HistoryUnavailable),
            Some(start) => {
                let batches = self.select(start, max_batches, max_bytes);
                let end: StorageDataVersion = if batches.len() == 0 {
                    cursor.frontier
                } else {
                    let last: usize = batches.len() - 1;
                    proof {
                        assert(types::batches_view(batches@)[last as int] == batches@[last as int]@);
                    }
                    batches[last].after
                };
                proof {
                    lemma_readable(
                        self@.batch_file_bytes,
                        start as int,
                        max_batches as int,
                        max_bytes as int,
                    );
                    assert(types::batches_view(batches@).len() == batches@.len());
                }
                Ok(ChangeReadResult { batches, current_frontier: current, has_more: end != current })
            },
        }
    }

    /// Copies as many batches from `start` on as fit.
    fn select(&self, start: usize, max_batches: usize, max_bytes: u64) -> (selected: Vec<ChangeBatch>)
        requires
            self.wf(),
            start < self.batches@.len(),
        ensures
            types::batches_view(selected@) == self@.batches.subrange(
                start as int,
                start + readable(
                    self@.batch_file_bytes,
                    start as int,
                    max_batches as int,
                    max_bytes as int,
                ),
            ),
    {
        let ghost sizes = self@.batch_file_bytes;
        let ghost n = readable(sizes, start as int, max_batches as int, max_bytes as int);
        proof {
            lemma_readable(sizes, start as int, max_batches as int, max_bytes as int);
        }
        let mut selected: Vec<ChangeBatch> = Vec::new();
        let mut used: u64 = 0;
        let mut i: usize = start;
        while i < self.batches.len()
            invariant
                self.wf(),
                sizes == self@.batch_file_bytes,
                n == readable(sizes, start as int, max_batches as int, max_bytes as int),
                start <= i <= self.batches@.len(),
                selected@.len() == i - start,
                used <= max_bytes,
                selected@.len() <= max_batches,
                n == (i - start) + readable(
                    sizes,
                    i as int,
                    max_batches - selected@.len(),
                    max_bytes - used,
                ),
                forall|k: int|
                    0 <= k < selected@.len() ==> (#[trigger] selected@[k])@ == self@.batches[start
                        + k],
            ensures
                n == i - start,
                selected@.len() == n,
            decreases self.batches@.len() - i,
        {
            let size: u64 = self.batch_file_bytes[i].change_bytes;
            if selected.len() >= max_batches || size > max_bytes - used {
                break;
            }
            used = used + size;
            assert(self@.batches[i as int] == self.batches@[i as int]@);
            selected.push(self.batches[i].copy());
            i = i + 1;
        }
        assert(types::batches_view(selected@) =~= self@.batches.subrange(start as int, start + n));
        selected
    }
}

// ---------------------------------------------------------------------------
// Laws
// ---------------------------------------------------------------------------
/// Whether each batch advances the frontier.
pub open spec fn advancing(batches: Seq<BatchView>) -> bool {
    forall|i: int|
        0 <= i < batches.len() ==> (#[trigger] batches[i]).after.0 == batches[i].before.0 + 1
}

/// In a history that advances by one, the batch at position `i` starts `i`
/// frontiers behind the first.
pub proof fn lemma_frontier_at(batches: Seq<BatchView>, start: StorageDataVersion, i: int)
    requires
        stream::contiguous(batches, start),
        advancing(batches),
        0 <= i < batches.len(),
    ensures
        batches[i].before.0 == start.0 + i,
    decreases i,
{
    assert(batches[i].before == stream::frontier_before(batches, start, i));
    if i > 0 {
        lemma_frontier_at(batches, start, i - 1);
    }
}

/// A read returns batches that begin at the cursor and follow each other
/// without a gap.
pub proof fn law_read_is_gap_free(
    v: StreamView,
    cursor: ChangeStreamCursor,
    max_batches: int,
    max_bytes: int,
)
    requires
        stream::stream_kept(v),
        read_result(v, cursor, max_batches, max_bytes) is Ok,
    ensures
        stream::contiguous(
            read_result(v, cursor, max_batches, max_bytes)->Ok_0.0,
            cursor.frontier,
        ),
{
    lemma_batch_starting_at(v.batches, cursor.frontier);
    match batch_starting_at(v.batches, cursor.frontier) {
        None => {},
        Some(start) => {
            lemma_readable(v.batch_file_bytes, start, max_batches, max_bytes);
            let n = readable(v.batch_file_bytes, start, max_batches, max_bytes);
            let selected = v.batches.subrange(start, start + n);
            assert forall|i: int| 0 <= i < selected.len() implies selected[i].before
                == #[trigger] stream::frontier_before(selected, cursor.frontier, i) by {
                assert(selected[i] == v.batches[start + i]);
                assert(v.batches[start + i].before == stream::frontier_before(
                    v.batches,
                    v.header.earliest,
                    start + i,
                ));
                if i > 0 {
                    assert(selected[i - 1] == v.batches[start + i - 1]);
                }
            }
        },
    }
}

/// Every frontier between the earliest and the current one can be read from:
/// the read returns the batches behind it, all of them where they fit.
pub proof fn law_read_returns_the_rest(v: StreamView, cursor: ChangeStreamCursor)
    requires
        stream::stream_kept(v),
        advancing(v.batches),
        cursor_error(v.header, v.batches, cursor) is None,
    ensures
        read_result(v, cursor, usize::MAX as int, u64::MAX as int) is Ok,
        cursor.frontier != stream::current_of(v.header, v.batches) ==> ({
            let start = cursor.frontier.0 - v.header.earliest.0;
            &&& 0 <= start < v.batches.len()
            &&& batch_starting_at(v.batches, cursor.frontier) == Some(start)
        }),
{
    let current = stream::current_of(v.header, v.batches);
    if cursor.frontier != current {
        assert(v.batches.len() > 0);
        let last = v.batches.len() - 1;
        lemma_frontier_at(v.batches, v.header.earliest, last);
        let start = cursor.frontier.0 - v.header.earliest.0;
        lemma_frontier_at(v.batches, v.header.earliest, start);
        lemma_batch_starting_at(v.batches, cursor.frontier);
        match batch_starting_at(v.batches, cursor.frontier) {
            None => {
                assert(v.batches[start].before == cursor.frontier);
            },
            Some(found) => {
                lemma_frontier_at(v.batches, v.header.earliest, found);
            },
        }
    }
}

/// Reading on from where a read ended continues with the batch behind it:
/// nothing is skipped and nothing comes twice.
pub proof fn law_read_continues(
    v: StreamView,
    cursor: ChangeStreamCursor,
    max_batches: int,
    max_bytes: int,
)
    requires
        stream::stream_kept(v),
        advancing(v.batches),
        read_result(v, cursor, max_batches, max_bytes) matches Ok((batches, has_more))
            && batches.len() > 0 && has_more,
    ensures
        ({
            let batches = read_result(v, cursor, max_batches, max_bytes)->Ok_0.0;
            batch_starting_at(v.batches, batches.last().after) == Some(
                batch_starting_at(v.batches, cursor.frontier)->0 + batches.len(),
            )
        }),
{
    let batches = read_result(v, cursor, max_batches, max_bytes)->Ok_0.0;
    lemma_batch_starting_at(v.batches, cursor.frontier);
    let start = batch_starting_at(v.batches, cursor.frontier)->0;
    lemma_readable(v.batch_file_bytes, start, max_batches, max_bytes);
    let n = batches.len() as int;
    let end = batches.last().after;
    assert(batches.last() == v.batches[start + n - 1]);
    lemma_frontier_at(v.batches, v.header.earliest, start + n - 1);
    if start + n == v.batches.len() {
        assert(v.batches.last() == v.batches[start + n - 1]);
    } else {
        lemma_frontier_at(v.batches, v.header.earliest, start + n);
        lemma_batch_starting_at(v.batches, end);
        match batch_starting_at(v.batches, end) {
            None => {
                assert(v.batches[start + n].before == end);
            },
            Some(found) => {
                lemma_frontier_at(v.batches, v.header.earliest, found);
            },
        }
    }
}

} // verus!
