//! What a read of the history gives: the batches behind the cursor, as many as
//! the limits allow.
use super::error::ChangeStreamError;
use super::history;
use super::stream;
use super::stream::{BatchFileBytes, ChangeStreamCursor, StreamView};
use crate::ids::StorageDataVersion;
use vstd::prelude::*;

verus! {

/// The bytes of `k` batches from one on.
pub open spec fn taken_bytes(sizes: Seq<BatchFileBytes>, start: int, k: int) -> int
    decreases k,
{
    if k <= 0 {
        0
    } else {
        taken_bytes(sizes, start, k - 1) + sizes[start + k - 1].change_bytes
    }
}

proof fn lemma_taken_front(sizes: Seq<BatchFileBytes>, start: int, k: int)
    requires
        k >= 1,
    ensures
        taken_bytes(sizes, start, k) == sizes[start].change_bytes + taken_bytes(
            sizes,
            start + 1,
            k - 1,
        ),
    decreases k,
{
    if k > 1 {
        lemma_taken_front(sizes, start, k - 1);
        let from = start + 1;
        assert(sizes[from + (k - 1) - 1] == sizes[start + k - 1]);
    } else {
        assert(taken_bytes(sizes, start, 0) == 0);
        assert(sizes[start + k - 1] == sizes[start]);
    }
}

proof fn lemma_readable(sizes: Seq<BatchFileBytes>, i: int, batches_left: int, bytes_left: int)
    requires
        0 <= i <= sizes.len(),
        0 <= batches_left,
        0 <= bytes_left,
    ensures
        ({
            let k = history::readable(sizes, i, batches_left, bytes_left);
            &&& 0 <= k <= batches_left
            &&& i + k <= sizes.len()
            &&& taken_bytes(sizes, i, k) <= bytes_left
            &&& i + k < sizes.len() && k < batches_left ==> taken_bytes(sizes, i, k + 1)
                > bytes_left
        }),
    decreases sizes.len() - i,
{
    if i < sizes.len() && batches_left > 0 && sizes[i].change_bytes <= bytes_left {
        let rest = bytes_left - sizes[i].change_bytes;
        lemma_readable(sizes, i + 1, batches_left - 1, rest);
        let k = history::readable(sizes, i, batches_left, bytes_left);
        lemma_taken_front(sizes, i, k);
        lemma_taken_front(sizes, i, k + 1);
    } else {
        assert(taken_bytes(sizes, i, 1) == taken_bytes(sizes, i, 0) + sizes[i].change_bytes);
    }
}

/// The committed frontier of a stream: that of its last batch, or that of its
/// header where it has none.
pub open spec fn committed_frontier(v: StreamView) -> StorageDataVersion {
    if v.batches.len() > 0 {
        v.batches[v.batches.len() - 1].after
    } else {
        v.header.current
    }
}

/// A read succeeds exactly for a cursor of the stream between its earliest and its
/// committed frontier. It gives the batches behind the cursor, in order, as many as
/// the limits on batches and on bytes allow, and tells whether there are more.
pub proof fn law_read_gives_what_the_limits_allow(
    v: StreamView,
    cursor: ChangeStreamCursor,
    max_batches: int,
    max_bytes: int,
)
    requires
        stream::stream_kept(v),
        history::advancing(v.batches),
        0 <= max_batches,
        0 <= max_bytes,
    ensures
        match history::read_result(v, cursor, max_batches, max_bytes) {
            Ok((batches, more)) => {
                let start = cursor.frontier.0 - v.header.earliest.0;
                let k = batches.len() as int;
                &&& cursor.storage_id == v.header.storage_id
                &&& cursor.generation == v.header.generation
                &&& v.header.earliest.0 <= cursor.frontier.0 <= committed_frontier(v).0
                &&& 0 <= start
                &&& start + k <= v.batches.len()
                &&& batches == v.batches.subrange(start, start + k)
                &&& k <= max_batches
                &&& taken_bytes(v.batch_file_bytes, start, k) <= max_bytes
                &&& start + k < v.batches.len() ==> k == max_batches || taken_bytes(
                    v.batch_file_bytes,
                    start,
                    k + 1,
                ) > max_bytes
                &&& more <==> start + k < v.batches.len()
            },
            Err(error) => if cursor.storage_id != v.header.storage_id {
                error == ChangeStreamError::ContextMismatch
            } else if cursor.generation != v.header.generation {
                error == ChangeStreamError::StreamIdentityMismatch
            } else {
                &&& error == ChangeStreamError::HistoryUnavailable
                &&& cursor.frontier.0 < v.header.earliest.0 || cursor.frontier.0
                    > committed_frontier(v).0
            },
        },
{
    let n = v.batches.len() as int;
    if n > 0 {
        history::lemma_frontier_at(v.batches, v.header.earliest, n - 1);
    }
    if history::cursor_error(v.header, v.batches, cursor) is None {
        history::law_read_returns_the_rest(v, cursor);
        let start = cursor.frontier.0 - v.header.earliest.0;
        if cursor.frontier == stream::current_of(v.header, v.batches) {
            assert(v.batches.subrange(start, start) =~= Seq::empty());
        } else {
            lemma_readable(v.batch_file_bytes, start, max_batches, max_bytes);
            let k = history::readable(v.batch_file_bytes, start, max_batches, max_bytes);
            history::lemma_frontier_at(v.batches, v.header.earliest, start);
            if k > 0 {
                history::lemma_frontier_at(v.batches, v.header.earliest, start + k - 1);
            }
        }
    }
}

} // verus!
