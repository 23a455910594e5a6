//! What a reclamation takes away, and when it may.
use super::history;
use super::pins;
use super::pins::Pins;
use super::read_laws;
use super::reclaim;
use super::stream;
use super::stream::StreamView;
use super::types::BatchView;
use crate::ids::{ChangeStreamGeneration, LsmCommitSeq, StorageDataVersion, StorageId};
use vstd::prelude::*;

verus! {

/// How many changes the first `n` batches hold.
pub open spec fn changes_in(batches: Seq<BatchView>, n: int) -> int
    decreases n,
{
    if n <= 0 {
        0
    } else {
        changes_in(batches, n - 1) + batches[n - 1].mutations.len()
    }
}

proof fn lemma_changes_in(batches: Seq<BatchView>, n: int)
    requires
        0 <= n <= batches.len(),
    ensures
        reclaim::mutation_total(batches.take(n)) == changes_in(batches, n),
        changes_in(batches, n) >= 0,
    decreases n,
{
    if n > 0 {
        lemma_changes_in(batches, n - 1);
        assert(batches.take(n).drop_last() =~= batches.take(n - 1));
    }
}

/// The changes that are counted for batches are those that they hold.
pub proof fn law_counted_changes(batches: Seq<BatchView>)
    ensures
        reclaim::mutation_total(batches) == changes_in(batches, batches.len() as int),
{
    lemma_changes_in(batches, batches.len() as int);
    assert(batches.take(batches.len() as int) =~= batches);
}

/// Whether no pin of a stream is in front of a frontier.
pub open spec fn unpinned_before(
    registered: Pins,
    storage_id: StorageId,
    generation: ChangeStreamGeneration,
    frontier: StorageDataVersion,
) -> bool {
    forall|id: u64| #[trigger]
        registered.contains_key(id) && registered[id].storage_id == storage_id
            && registered[id].generation == generation ==> frontier.0 <= registered[id].frontier.0
}

/// The lowest pin of a stream is one of its pins, and none of them is lower; there
/// is none exactly where the stream has no pin.
pub proof fn law_lowest_pin(
    registered: Pins,
    storage_id: StorageId,
    generation: ChangeStreamGeneration,
)
    ensures
        match pins::lowest_pin(registered, storage_id, generation) {
            Some(lowest) => {
                &&& unpinned_before(registered, storage_id, generation, lowest)
                &&& exists|id: u64| #[trigger]
                    registered.contains_key(id) && registered[id].storage_id == storage_id
                        && registered[id].generation == generation && registered[id].frontier
                        == lowest
            },
            None => forall|id: u64| #[trigger]
                registered.contains_key(id) ==> registered[id].storage_id != storage_id
                    || registered[id].generation != generation,
        },
{
    match pins::lowest_pin(registered, storage_id, generation) {
        Some(lowest) => {
            assert(pins::is_lowest(registered, storage_id, generation, lowest));
            assert forall|id: u64| #[trigger]
                registered.contains_key(id) && registered[id].storage_id == storage_id
                    && registered[id].generation == generation implies lowest.0
                <= registered[id].frontier.0 by {
                pins::lemma_lowest_pin(registered, storage_id, generation, id);
            }
        },
        None => {
            assert forall|id: u64| #[trigger] registered.contains_key(id) implies
                registered[id].storage_id != storage_id || registered[id].generation
                != generation by {
                if registered[id].storage_id == storage_id && registered[id].generation
                    == generation {
                    pins::lemma_lowest_pin(registered, storage_id, generation, id);
                }
            }
        },
    }
}

proof fn lemma_boundary(v: StreamView, frontier: StorageDataVersion)
    requires
        stream::stream_kept(v),
        history::advancing(v.batches),
        v.header.earliest.0 <= frontier.0 <= read_laws::committed_frontier(v).0,
    ensures
        reclaim::first_behind(v.batches, frontier) == frontier.0 - v.header.earliest.0,
        frontier.0 - v.header.earliest.0 <= v.batches.len(),
        read_laws::committed_frontier(v).0 == v.header.earliest.0 + v.batches.len(),
        frontier.0 < read_laws::committed_frontier(v).0 ==> v.batches[frontier.0
            - v.header.earliest.0].before == frontier,
{
    let n = v.batches.len() as int;
    let first = reclaim::first_behind(v.batches, frontier);
    reclaim::lemma_first_behind(v.batches, frontier);
    if n > 0 {
        history::lemma_frontier_at(v.batches, v.header.earliest, n - 1);
    }
    if first < n {
        history::lemma_frontier_at(v.batches, v.header.earliest, first);
    }
    if first > 0 {
        history::lemma_frontier_at(v.batches, v.header.earliest, first - 1);
        assert(v.batches[first - 1].after.0 <= frontier.0);
    }
}

/// The history can be reclaimed up to a frontier exactly where nothing is reserved,
/// no finalize marker waits for a synchronization, no pin of the stream is in front
/// of the frontier, and the frontier is between the earliest and the committed one.
pub proof fn law_when_history_can_be_reclaimed(
    v: StreamView,
    registered: Pins,
    frontier: StorageDataVersion,
)
    requires
        stream::stream_kept(v),
        history::advancing(v.batches),
    ensures
        reclaim::gc_refused(v, registered, frontier) is None <==> {
            &&& v.unresolved.len() == 0
            &&& v.pending_finalize_checkpoints.len() == 0
            &&& unpinned_before(
                registered,
                v.header.storage_id,
                v.header.generation,
                frontier,
            )
            &&& v.header.earliest.0 <= frontier.0 <= read_laws::committed_frontier(v).0
        },
{
    law_lowest_pin(registered, v.header.storage_id, v.header.generation);
    let lowest = pins::lowest_pin(registered, v.header.storage_id, v.header.generation);
    if let Some(pinned) = lowest {
        if frontier.0 <= pinned.0 {
            assert forall|id: u64| #[trigger]
                registered.contains_key(id) && registered[id].storage_id == v.header.storage_id
                    && registered[id].generation == v.header.generation implies frontier.0
                <= registered[id].frontier.0 by {
                assert(pinned.0 <= registered[id].frontier.0);
            }
        }
    }
    if v.header.earliest.0 <= frontier.0 <= read_laws::committed_frontier(v).0 {
        lemma_boundary(v, frontier);
    }
}

proof fn lemma_versions_without(
    versions: Map<u64, Option<LsmCommitSeq>>,
    batches: Seq<BatchView>,
    n: int,
    id: u64,
)
    requires
        0 <= n <= batches.len(),
    ensures
        ({
            let left = reclaim::versions_without(versions, batches, n);
            &&& left.contains_key(id) <==> versions.contains_key(id) && !among(batches, n, id)
            &&& left.contains_key(id) ==> left[id] == versions[id]
        }),
    decreases n,
{
    if n > 0 {
        lemma_versions_without(versions, batches, n - 1, id);
        if batches[n - 1].physical_txn_id.0 == id {
            assert(batches[n - 1].physical_txn_id.0 == id);
        }
    }
}

/// Whether one of the first `n` batches is of a transaction.
pub open spec fn among(batches: Seq<BatchView>, n: int, id: u64) -> bool {
    exists|k: int| 0 <= k < n && (#[trigger] batches[k]).physical_txn_id.0 == id
}

/// A reclamation up to a frontier takes away exactly the batches in front of it,
/// with their places and commit numbers. The others stay as they are, the frontier
/// is the earliest one, and the log keeps its identity, its committed frontier and
/// its next sequence. The report counts what went.
pub proof fn law_what_reclamation_takes(v: StreamView, frontier: StorageDataVersion, size: u64)
    requires
        stream::stream_kept(v),
        history::advancing(v.batches),
        v.header.earliest.0 <= frontier.0 <= read_laws::committed_frontier(v).0,
        v.batches.len() <= u64::MAX,
        changes_in(v.batches, frontier.0 - v.header.earliest.0) <= u64::MAX,
    ensures
        ({
            let gone = frontier.0 - v.header.earliest.0;
            let w = reclaim::reclaimed(v, frontier, size);
            let report = reclaim::gc_report(v, frontier, size);
            &&& w.batches == v.batches.skip(gone)
            &&& w.batch_file_bytes == v.batch_file_bytes.skip(gone)
            &&& forall|i: int| 0 <= i < gone ==> (#[trigger] v.batches[i]).after.0 <= frontier.0
            &&& forall|id: u64|
                #![trigger w.finalize_versions.contains_key(id)]
                {
                    &&& w.finalize_versions.contains_key(id) <==> v.finalize_versions.contains_key(
                        id,
                    ) && !among(v.batches, gone, id)
                    &&& w.finalize_versions.contains_key(id) ==> w.finalize_versions[id]
                        == v.finalize_versions[id]
                }
            &&& w.unresolved == v.unresolved
            &&& w.pending_finalize_checkpoints == v.pending_finalize_checkpoints
            &&& w.finalize_checkpointed_through == read_laws::committed_frontier(v)
            &&& w.next_sequence == v.next_sequence
            &&& w.file_bytes == size
            &&& w.header.active
            &&& w.header.kind == v.header.kind
            &&& w.header.storage_id == v.header.storage_id
            &&& w.header.table_id == v.header.table_id
            &&& w.header.fingerprint == v.header.fingerprint
            &&& w.header.generation == v.header.generation
            &&& w.header.origin == v.header.origin
            &&& w.header.earliest == frontier
            &&& w.header.current == read_laws::committed_frontier(v)
            &&& w.header.next_sequence == v.next_sequence
            &&& read_laws::committed_frontier(w) == read_laws::committed_frontier(v)
            &&& report.storage_id == v.header.storage_id
            &&& report.generation == v.header.generation
            &&& report.previous_earliest_frontier == v.header.earliest
            &&& report.new_earliest_frontier == frontier
            &&& report.current_frontier == read_laws::committed_frontier(v)
            &&& report.batches_removed == gone
            &&& report.mutations_removed == changes_in(v.batches, gone)
            &&& report.bytes_before == v.file_bytes
            &&& report.bytes_after == size
            &&& report.bytes_reclaimed == if v.file_bytes > size {
                v.file_bytes - size
            } else {
                0
            }
        }),
{
    let gone = frontier.0 - v.header.earliest.0;
    let w = reclaim::reclaimed(v, frontier, size);
    lemma_boundary(v, frontier);
    reclaim::lemma_first_behind(v.batches, frontier);
    lemma_changes_in(v.batches, gone);
    assert(w.batches =~= v.batches.skip(gone));
    assert(w.batch_file_bytes =~= v.batch_file_bytes.skip(gone));
    assert forall|id: u64|
        #![trigger w.finalize_versions.contains_key(id)]
        {
            &&& w.finalize_versions.contains_key(id) <==> v.finalize_versions.contains_key(id)
                && !among(v.batches, gone, id)
            &&& w.finalize_versions.contains_key(id) ==> w.finalize_versions[id]
                == v.finalize_versions[id]
        } by {
        lemma_versions_without(v.finalize_versions, v.batches, gone, id);
    }
    if w.batches.len() > 0 {
        assert(w.batches.last() == v.batches.last());
    }
}

/// A reclamation has nothing to do exactly where the log is of the newest format
/// and starts at the frontier.
pub proof fn law_when_reclamation_is_done(v: StreamView, frontier: StorageDataVersion)
    ensures
        reclaim::gc_is_done(v, frontier) <==> v.header.earliest == frontier && v.header.version == 2,
{
}

} // verus!
