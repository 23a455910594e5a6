//! Publishing prepared batches: checking them, staging their finalize markers
//! and moving them into the committed history.
use super::durable;
use super::durable::{ChangeStreamSyncCounts, SyncReason};
use super::error::ChangeStreamError;
use super::load;
use super::load::RecordView;
use super::record;
use super::record_laws;
use super::stream;
use super::stream::{BatchFileBytes, EnabledStream, PreparedChange, StreamView, MARKER_BYTES};
use super::types;
use super::types::{BatchView, ChangeBatch};
use crate::ids::{LsmCommitSeq, StorageDataVersion, TxnId};
use vstd::prelude::*;

verus! {

broadcast use {
    crate::bytes::group_le_len,
    vstd::std_specs::btree::group_btree_axioms,
    vstd::laws_cmp::group_laws_cmp,
};

/// A member of a batch that is to be published.
pub type FinalizeCandidate = (TxnId, PreparedChange, Option<LsmCommitSeq>);

/// Whether a committed batch belongs to the transaction.
pub open spec fn is_published(v: StreamView, txn_id: TxnId) -> bool {
    exists|i: int| 0 <= i < v.batches.len() && (#[trigger] v.batches[i]).physical_txn_id == txn_id
}

/// Whether all candidates are published already.
pub open spec fn all_published(v: StreamView, candidates: Seq<FinalizeCandidate>) -> bool {
    forall|i: int| 0 <= i < candidates.len() ==> is_published(v, (#[trigger] candidates[i]).0)
}

/// Whether one of the first `n` candidates is the transaction.
pub open spec fn names(candidates: Seq<FinalizeCandidate>, n: int, txn_id: TxnId) -> bool {
    exists|i: int| 0 <= i < n && (#[trigger] candidates[i]).0 == txn_id
}

/// Why the candidate at `i` cannot be published behind those in front of it.
pub open spec fn finalize_error(
    v: StreamView,
    candidates: Seq<FinalizeCandidate>,
    sync_immediately: bool,
    i: int,
) -> Option<ChangeStreamError> {
    let (txn_id, reservation, commit) = candidates[i];
    if i != 0 && candidates[i - 1].1.after != reservation.before {
        Some(
            ChangeStreamError::ChangeGap {
                expected: candidates[i - 1].1.after,
                actual: reservation.before,
            },
        )
    } else {
        match load::record_position(v.unresolved, txn_id) {
            None => Some(ChangeStreamError::InvalidRecord("prepared transaction is missing")),
            Some(found) => {
                let entry = v.unresolved[found];
                if !sync_immediately && v.pending_finalize_checkpoints.contains_key(
                    reservation.sequence,
                ) {
                    Some(
                        ChangeStreamError::InvalidRecord(
                            "duplicate pending finalize checkpoint sequence",
                        ),
                    )
                } else if stream::identity_of(entry.batch) != reservation
                    || !entry.prepared_durable {
                    Some(
                        ChangeStreamError::InvalidRecord(
                            "prepared identity is changed or not durable",
                        ),
                    )
                } else if let Some(error) = record::committed_errors(
                    record::resolved_changes(entry.batch.mutations, commit),
                    v.header.kind,
                ) {
                    Some(error)
                } else if txn_id.0 == 0 {
                    Some(ChangeStreamError::InvalidRecord("zero transaction identity"))
                } else if MARKER_BYTES * (i + 1) > u64::MAX {
                    Some(ChangeStreamError::RecordTooLarge(u64::MAX))
                } else if entry.staged_finalize is Some && entry.staged_finalize != Some(commit) {
                    Some(ChangeStreamError::InvalidRecord("finalize commit identity changed"))
                } else {
                    None
                }
            },
        }
    }
}

/// Why the first `n` candidates cannot be published: the reason of the first
/// that cannot.
pub open spec fn finalize_errors(
    v: StreamView,
    candidates: Seq<FinalizeCandidate>,
    sync_immediately: bool,
    n: int,
) -> Option<ChangeStreamError>
    decreases n,
{
    if n <= 0 {
        None
    } else if let Some(error) = finalize_errors(v, candidates, sync_immediately, n - 1) {
        Some(error)
    } else {
        finalize_error(v, candidates, sync_immediately, n - 1)
    }
}

/// Whether the marker of the candidate at `i` is not in the log yet, nor
/// written for a candidate in front of it.
pub open spec fn needs_marker(
    v: StreamView,
    candidates: Seq<FinalizeCandidate>,
    i: int,
) -> bool {
    let txn_id = candidates[i].0;
    match load::record_position(v.unresolved, txn_id) {
        None => false,
        Some(found) => v.unresolved[found].staged_finalize is None && !names(candidates, i, txn_id),
    }
}

/// The markers that the first `n` candidates need.
pub open spec fn markers_needed(
    v: StreamView,
    candidates: Seq<FinalizeCandidate>,
    n: int,
) -> Seq<Seq<u8>>
    decreases n,
{
    if n <= 0 {
        Seq::empty()
    } else if needs_marker(v, candidates, n - 1) {
        markers_needed(v, candidates, n - 1).push(
            record::finalize_bytes(candidates[n - 1].0, candidates[n - 1].2),
        )
    } else {
        markers_needed(v, candidates, n - 1)
    }
}

/// Why the candidates cannot be published, of those that are not published
/// already.
pub open spec fn finalize_refused(
    v: StreamView,
    candidates: Seq<FinalizeCandidate>,
    sync_immediately: bool,
) -> Option<ChangeStreamError> {
    let current = stream::current_of(v.header, v.batches);
    let n = candidates.len() as int;
    if candidates[0].1.before != current {
        Some(ChangeStreamError::ChangeGap { expected: current, actual: candidates[0].1.before })
    } else if let Some(error) = finalize_errors(v, candidates, sync_immediately, n) {
        Some(error)
    } else if v.file_bytes + MARKER_BYTES * markers_needed(v, candidates, n).len() > u64::MAX {
        Some(ChangeStreamError::RecordTooLarge(u64::MAX))
    } else {
        None
    }
}

/// What publishing a batch did.
#[derive(Debug, Clone, Copy, PartialEq, Eq, Structural)]
pub struct ChangeFinalizeBatchReport {
    pub finalized_member_count: usize,
    pub markers_staged: usize,
    pub marker_bytes: u64,
    pub syncs: u64,
    pub before_committed_frontier: StorageDataVersion,
    pub after_committed_frontier: StorageDataVersion,
    pub pending_finalize_checkpoints_after: usize,
}

/// What is to be done to publish a batch.
pub enum FinalizePlan {
    /// The whole batch is published already.
    Published(ChangeFinalizeBatchReport),
    /// These markers are to be appended to the log, in order.
    Append { markers: Vec<Vec<u8>> },
}

/// The report on a batch that was published already.
pub open spec fn published_report(
    v: StreamView,
    candidates: Seq<FinalizeCandidate>,
) -> ChangeFinalizeBatchReport {
    ChangeFinalizeBatchReport {
        finalized_member_count: candidates.len() as usize,
        markers_staged: 0,
        marker_bytes: 0,
        syncs: 0,
        before_committed_frontier: candidates[0].1.before,
        after_committed_frontier: candidates.last().1.after,
        pending_finalize_checkpoints_after: v.pending_finalize_checkpoints.len() as usize,
    }
}

/// The markers of a plan.
pub open spec fn markers_view(markers: Seq<Vec<u8>>) -> Seq<Seq<u8>> {
    markers.map_values(|marker: Vec<u8>| marker@)
}

/// A record after its marker was appended.
pub open spec fn staged_entry(entry: RecordView, commit: Option<LsmCommitSeq>) -> RecordView {
    RecordView {
        staged_finalize: Some(commit),
        retained_file_bytes: (entry.retained_file_bytes + MARKER_BYTES) as u64,
        ..entry
    }
}

/// The stream after the markers of the first `n` candidates were appended.
pub open spec fn markers_staged(
    v: StreamView,
    candidates: Seq<FinalizeCandidate>,
    n: int,
) -> StreamView
    decreases n,
{
    if n <= 0 {
        v
    } else {
        let w = markers_staged(v, candidates, n - 1);
        match load::record_position(w.unresolved, candidates[n - 1].0) {
            None => w,
            Some(found) => if w.unresolved[found].staged_finalize is Some {
                w
            } else {
                StreamView {
                    file_bytes: (w.file_bytes + MARKER_BYTES) as u64,
                    unresolved: w.unresolved.update(
                        found,
                        staged_entry(w.unresolved[found], candidates[n - 1].2),
                    ),
                    ..w
                }
            },
        }
    }
}

/// The stream after the reservation at `found` became history.
pub open spec fn promoted(
    v: StreamView,
    found: int,
    candidate: FinalizeCandidate,
    sync_immediately: bool,
) -> StreamView {
    let entry = v.unresolved[found];
    let committed = BatchView {
        mutations: record::resolved_changes(entry.batch.mutations, candidate.2),
        ..entry.batch
    };
    StreamView {
        unresolved: v.unresolved.remove(found),
        finalize_versions: v.finalize_versions.insert(candidate.0.0, candidate.2),
        batch_file_bytes: v.batch_file_bytes.push(
            BatchFileBytes {
                change_bytes: entry.prepared_file_bytes,
                retained_file_bytes: entry.retained_file_bytes,
            },
        ),
        batches: v.batches.push(committed),
        finalize_checkpointed_through: if sync_immediately {
            candidate.1.after
        } else {
            v.finalize_checkpointed_through
        },
        pending_finalize_checkpoints: if sync_immediately {
            v.pending_finalize_checkpoints
        } else {
            v.pending_finalize_checkpoints.insert(committed.sequence, candidate.0)
        },
        ..v
    }
}

/// The stream after the reservations of the first `n` candidates became
/// history; or, where one of them was gone, the stream as it was then.
pub open spec fn promotion(
    v: StreamView,
    candidates: Seq<FinalizeCandidate>,
    sync_immediately: bool,
    n: int,
) -> Result<StreamView, StreamView>
    decreases n,
{
    if n <= 0 {
        Ok(v)
    } else {
        match promotion(v, candidates, sync_immediately, n - 1) {
            Err(w) => Err(w),
            Ok(w) => match load::record_position(w.unresolved, candidates[n - 1].0) {
                None => Err(w),
                Some(found) => Ok(promoted(w, found, candidates[n - 1], sync_immediately)),
            },
        }
    }
}

/// The stream with all markers appended and, where that is asked for,
/// synchronized.
pub open spec fn markers_durable(
    v: StreamView,
    candidates: Seq<FinalizeCandidate>,
    sync_immediately: bool,
) -> StreamView {
    let w = markers_staged(v, candidates, candidates.len() as int);
    if sync_immediately {
        durable::synced(w)
    } else {
        w
    }
}

/// Whether the candidates are checked and ready to be published.
pub open spec fn finalize_ready(
    v: StreamView,
    candidates: Seq<FinalizeCandidate>,
    sync_immediately: bool,
) -> bool {
    candidates.len() > 0 && finalize_refused(v, candidates, sync_immediately) is None
}

// ---------------------------------------------------------------------------
// Lemmas
// ---------------------------------------------------------------------------
proof fn lemma_finalize_errors_prefix(
    v: StreamView,
    candidates: Seq<FinalizeCandidate>,
    sync_immediately: bool,
    n: int,
    m: int,
)
    requires
        0 <= n <= m,
        finalize_errors(v, candidates, sync_immediately, n) is Some,
    ensures
        finalize_errors(v, candidates, sync_immediately, m) == finalize_errors(
            v,
            candidates,
            sync_immediately,
            n,
        ),
    decreases m,
{
    if n < m {
        lemma_finalize_errors_prefix(v, candidates, sync_immediately, n, m - 1);
    }
}

pub proof fn lemma_no_finalize_error(
    v: StreamView,
    candidates: Seq<FinalizeCandidate>,
    sync_immediately: bool,
    n: int,
    i: int,
)
    requires
        finalize_errors(v, candidates, sync_immediately, n) is None,
        0 <= i < n,
    ensures
        finalize_error(v, candidates, sync_immediately, i) is None,
    decreases n,
{
    if i < n - 1 {
        lemma_no_finalize_error(v, candidates, sync_immediately, n - 1, i);
    }
}

proof fn lemma_markers_monotone(
    v: StreamView,
    candidates: Seq<FinalizeCandidate>,
    n: int,
    m: int,
)
    requires
        0 <= n <= m,
    ensures
        markers_needed(v, candidates, n).len() <= markers_needed(v, candidates, m).len(),
    decreases m,
{
    if n < m {
        lemma_markers_monotone(v, candidates, n, m - 1);
    }
}

/// What staging markers changes, and what it leaves.
pub proof fn lemma_markers_staged(v: StreamView, candidates: Seq<FinalizeCandidate>, n: int)
    requires
        stream::stream_kept(v),
        0 <= n <= candidates.len(),
        v.file_bytes + MARKER_BYTES * markers_needed(v, candidates, n).len() <= u64::MAX,
    ensures
        ({
            let w = markers_staged(v, candidates, n);
            &&& w.unresolved.len() == v.unresolved.len()
            &&& w.header == v.header
            &&& w.batches == v.batches
            &&& w.batch_file_bytes == v.batch_file_bytes
            &&& w.finalize_versions == v.finalize_versions
            &&& w.pending_finalize_checkpoints == v.pending_finalize_checkpoints
            &&& w.finalize_checkpointed_through == v.finalize_checkpointed_through
            &&& w.next_sequence == v.next_sequence
            &&& w.file_bytes == v.file_bytes + MARKER_BYTES * markers_needed(v, candidates, n).len()
            &&& forall|k: int|
                0 <= k < v.unresolved.len() ==> {
                    let entry = #[trigger] w.unresolved[k];
                    let earlier = v.unresolved[k];
                    &&& entry.batch == earlier.batch
                    &&& entry.prepared_file_bytes == earlier.prepared_file_bytes
                    &&& entry.prepared_durable == earlier.prepared_durable
                    &&& entry.outcome == earlier.outcome
                    &&& entry.finalized == earlier.finalized
                    &&& entry.staged_finalize is None <==> (earlier.staged_finalize is None
                        && !names(candidates, n, earlier.batch.physical_txn_id))
                    &&& entry.retained_file_bytes == if earlier.staged_finalize is None
                        && entry.staged_finalize is Some {
                        earlier.retained_file_bytes + MARKER_BYTES
                    } else {
                        earlier.retained_file_bytes as int
                    }
                }
        }),
    decreases n,
{
    if n > 0 {
        lemma_markers_monotone(v, candidates, n - 1, n);
        lemma_markers_staged(v, candidates, n - 1);
        let w0 = markers_staged(v, candidates, n - 1);
        let w = markers_staged(v, candidates, n);
        let txn_id = candidates[n - 1].0;
        load::lemma_record_position(v.unresolved, txn_id);
        load::lemma_record_position(w0.unresolved, txn_id);
        match load::record_position(v.unresolved, txn_id) {
            Some(found) => {
                assert(w0.unresolved[found].batch.physical_txn_id == txn_id);
                assert forall|i: int| 0 <= i < found implies (
                #[trigger] w0.unresolved[i]).batch.physical_txn_id != txn_id by {
                    assert(v.unresolved[i].batch.physical_txn_id != txn_id);
                }
                load::lemma_record_position_is(w0.unresolved, txn_id, found);
            },
            None => {
                assert forall|i: int| 0 <= i < w0.unresolved.len() implies (
                #[trigger] w0.unresolved[i]).batch.physical_txn_id != txn_id by {
                    assert(v.unresolved[i].batch.physical_txn_id != txn_id);
                }
            },
        }
        assert forall|k: int| 0 <= k < v.unresolved.len() implies ({
            let entry = #[trigger] w.unresolved[k];
            let earlier = v.unresolved[k];
            &&& entry.batch == earlier.batch
            &&& entry.prepared_file_bytes == earlier.prepared_file_bytes
            &&& entry.prepared_durable == earlier.prepared_durable
            &&& entry.outcome == earlier.outcome
            &&& entry.finalized == earlier.finalized
            &&& entry.staged_finalize is None <==> (earlier.staged_finalize is None && !names(
                candidates,
                n,
                earlier.batch.physical_txn_id,
            ))
            &&& entry.retained_file_bytes == if earlier.staged_finalize is None
                && entry.staged_finalize is Some {
                earlier.retained_file_bytes + MARKER_BYTES
            } else {
                earlier.retained_file_bytes as int
            }
        }) by {
            let earlier = v.unresolved[k];
            let previous = w0.unresolved[k];
            let id = earlier.batch.physical_txn_id;
            assert(names(candidates, n, id) == (names(candidates, n - 1, id) || id == txn_id)) by {
                if names(candidates, n, id) && id != txn_id {
                    let i = choose|i: int| 0 <= i < n && (#[trigger] candidates[i]).0 == id;
                    assert(0 <= i < n - 1);
                }
                if names(candidates, n - 1, id) {
                    let i = choose|i: int| 0 <= i < n - 1 && (#[trigger] candidates[i]).0 == id;
                    assert(candidates[i].0 == id);
                }
                if id == txn_id {
                    assert(candidates[n - 1].0 == id);
                }
            }
            if id == txn_id {
                match load::record_position(v.unresolved, txn_id) {
                    Some(found) => {
                        if found < k {
                            assert(v.unresolved[found].batch.physical_txn_id
                                != v.unresolved[k].batch.physical_txn_id);
                        }
                        assert(found == k);
                    },
                    None => {},
                }
            }
        }
    }
}

/// A stream whose markers are durable is kept, and its reservations are those
/// from before.
pub proof fn lemma_markers_durable(
    v: StreamView,
    candidates: Seq<FinalizeCandidate>,
    sync_immediately: bool,
)
    requires
        stream::stream_kept(v),
        v.file_bytes + MARKER_BYTES * markers_needed(
            v,
            candidates,
            candidates.len() as int,
        ).len() <= u64::MAX,
    ensures
        ({
            let w = markers_durable(v, candidates, sync_immediately);
            &&& stream::stream_kept(w)
            &&& w.unresolved.len() == v.unresolved.len()
            &&& w.batches == v.batches
            &&& w.header == v.header
            &&& forall|k: int|
                0 <= k < v.unresolved.len() ==> (#[trigger] w.unresolved[k]).batch
                    == v.unresolved[k].batch
            &&& markers_present(w, candidates)
            &&& batches_from(w, v)
        }),
{
    let n = candidates.len() as int;
    lemma_markers_staged(v, candidates, n);
    let w = markers_staged(v, candidates, n);
    assert forall|i: int, j: int| 0 <= i < j < w.unresolved.len() implies stream::ordered_before(
        #[trigger] w.unresolved[i],
        #[trigger] w.unresolved[j],
    ) && w.unresolved[i].batch.physical_txn_id != w.unresolved[j].batch.physical_txn_id by {
        assert(stream::ordered_before(v.unresolved[i], v.unresolved[j]));
    }
    assert forall|i: int| 0 <= i < w.unresolved.len() implies (
    #[trigger] w.unresolved[i]).batch.sequence < w.next_sequence
        && stream::sizes_kept(w.unresolved[i]) by {
        assert(v.unresolved[i].batch.sequence < v.next_sequence);
    }
    assert forall|k: int| 0 <= k < w.unresolved.len() implies exists|j: int|
        0 <= j < v.unresolved.len() && (#[trigger] v.unresolved[j]).batch == (
        #[trigger] w.unresolved[k]).batch by {
        assert(v.unresolved[k].batch == w.unresolved[k].batch);
    }
}

/// Whether the markers of all candidates that are reserved are in the log.
pub open spec fn markers_present(v: StreamView, candidates: Seq<FinalizeCandidate>) -> bool {
    forall|k: int|
        0 <= k < v.unresolved.len() && names(
            candidates,
            candidates.len() as int,
            (#[trigger] v.unresolved[k]).batch.physical_txn_id,
        ) ==> v.unresolved[k].staged_finalize is Some
}

/// Whether the batch of every reservation of `w` was one of `v`'s.
pub open spec fn batches_from(w: StreamView, v: StreamView) -> bool {
    forall|k: int|
        0 <= k < w.unresolved.len() ==> exists|j: int|
            0 <= j < v.unresolved.len() && (#[trigger] v.unresolved[j]).batch == (
            #[trigger] w.unresolved[k]).batch
}

/// Promoting reservations in the order of the chain keeps the stream.
pub proof fn lemma_promotion_kept(
    v: StreamView,
    w: StreamView,
    candidates: Seq<FinalizeCandidate>,
    sync_immediately: bool,
    n: int,
)
    requires
        stream::stream_kept(v),
        finalize_ready(v, candidates, sync_immediately),
        stream::stream_kept(w),
        w.batches == v.batches,
        w.header == v.header,
        batches_from(w, v),
        markers_present(w, candidates),
        0 <= n <= candidates.len(),
    ensures
        match promotion(w, candidates, sync_immediately, n) {
            Ok(done) => {
                &&& stream::stream_kept(done)
                &&& batches_from(done, v)
                &&& markers_present(done, candidates)
                &&& done.header == v.header
                &&& stream::current_of(done.header, done.batches) == if n == 0 {
                    stream::current_of(v.header, v.batches)
                } else {
                    candidates[n - 1].1.after
                }
            },
            Err(stopped) => stream::stream_kept(stopped),
        },
    decreases n,
{
    if n > 0 {
        lemma_promotion_kept(v, w, candidates, sync_immediately, n - 1);
        match promotion(w, candidates, sync_immediately, n - 1) {
            Err(_) => {},
            Ok(done) => {
                let txn_id = candidates[n - 1].0;
                load::lemma_record_position(done.unresolved, txn_id);
                match load::record_position(done.unresolved, txn_id) {
                    None => {},
                    Some(found) => {
                        lemma_no_finalize_error(
                            v,
                            candidates,
                            sync_immediately,
                            candidates.len() as int,
                            n - 1,
                        );
                        load::lemma_record_position(v.unresolved, txn_id);
                        let origin = load::record_position(v.unresolved, txn_id)->0;
                        let j = choose|j: int|
                            0 <= j < v.unresolved.len() && (#[trigger] v.unresolved[j]).batch
                                == done.unresolved[found].batch;
                        if origin < j {
                            assert(v.unresolved[origin].batch.physical_txn_id
                                != v.unresolved[j].batch.physical_txn_id);
                        }
                        assert(origin == j);
                        assert(names(candidates, candidates.len() as int, txn_id)) by {
                            assert(candidates[n - 1].0 == txn_id);
                        }
                        lemma_promoted_kept(done, found, candidates[n - 1], sync_immediately);
                        let next = promoted(done, found, candidates[n - 1], sync_immediately);
                        assert(markers_present(next, candidates)) by {
                            assert forall|k: int|
                                0 <= k < next.unresolved.len() && names(
                                    candidates,
                                    candidates.len() as int,
                                    (#[trigger] next.unresolved[k]).batch.physical_txn_id,
                                ) implies next.unresolved[k].staged_finalize is Some by {
                                let earlier = if k < found { k } else { k + 1 };
                                assert(next.unresolved[k] == done.unresolved[earlier]);
                            }
                        }
                        assert forall|k: int| 0 <= k < next.unresolved.len() implies exists|m: int|
                            0 <= m < v.unresolved.len() && (#[trigger] v.unresolved[m]).batch == (
                            #[trigger] next.unresolved[k]).batch by {
                            if k < found {
                                assert(next.unresolved[k] == done.unresolved[k]);
                            } else {
                                assert(next.unresolved[k] == done.unresolved[k + 1]);
                            }
                        }
                    },
                }
            },
        }
    }
}

/// Promoting a reservation that starts at the committed frontier keeps the
/// stream.
proof fn lemma_promoted_kept(
    v: StreamView,
    found: int,
    candidate: FinalizeCandidate,
    sync_immediately: bool,
)
    requires
        stream::stream_kept(v),
        0 <= found < v.unresolved.len(),
        v.unresolved[found].batch.before == stream::current_of(v.header, v.batches),
        v.unresolved[found].staged_finalize is Some,
    ensures
        stream::stream_kept(promoted(v, found, candidate, sync_immediately)),
{
    let next = promoted(v, found, candidate, sync_immediately);
    record_laws::law_resolving_keeps_record_size(v.unresolved[found].batch, candidate.2);
    assert(stream::sizes_kept(v.unresolved[found]));
    assert forall|i: int| 0 <= i < next.batches.len() implies (
    #[trigger] next.batch_file_bytes[i]).change_bytes == record::record_size(next.batches[i])
        && next.batch_file_bytes[i].retained_file_bytes == next.batch_file_bytes[i].change_bytes
        + MARKER_BYTES by {
        if i < v.batches.len() {
            assert(next.batches[i] == v.batches[i]);
            assert(next.batch_file_bytes[i] == v.batch_file_bytes[i]);
        }
    }
    assert forall|i: int| 0 <= i < next.batches.len() implies next.batches[i].before
        == #[trigger] stream::frontier_before(next.batches, next.header.earliest, i) by {
        if i < v.batches.len() {
            assert(v.batches[i].before == stream::frontier_before(
                v.batches,
                v.header.earliest,
                i,
            ));
            assert(next.batches[i] == v.batches[i]);
            if i > 0 {
                assert(next.batches[i - 1] == v.batches[i - 1]);
            }
        } else if i > 0 {
            assert(next.batches[i - 1] == v.batches[i - 1]);
        }
    }
    assert forall|i: int, j: int|
        0 <= i < j < next.unresolved.len() implies stream::ordered_before(
        #[trigger] next.unresolved[i],
        #[trigger] next.unresolved[j],
    ) && next.unresolved[i].batch.physical_txn_id != next.unresolved[j].batch.physical_txn_id by {
        let i2 = if i < found { i } else { i + 1 };
        let j2 = if j < found { j } else { j + 1 };
        assert(next.unresolved[i] == v.unresolved[i2]);
        assert(next.unresolved[j] == v.unresolved[j2]);
        assert(stream::ordered_before(v.unresolved[i2], v.unresolved[j2]));
    }
    assert forall|i: int| 0 <= i < next.unresolved.len() implies (
    #[trigger] next.unresolved[i]).batch.sequence < next.next_sequence
        && stream::sizes_kept(next.unresolved[i]) by {
        let i2 = if i < found { i } else { i + 1 };
        assert(next.unresolved[i] == v.unresolved[i2]);
    }
}

// ---------------------------------------------------------------------------
// The steps
// ---------------------------------------------------------------------------
fn named(candidates: &[FinalizeCandidate], n: usize, txn_id: TxnId) -> (found: bool)
    requires
        n <= candidates@.len(),
    ensures
        found == names(candidates@, n as int, txn_id),
{
    let mut i: usize = 0;
    while i < n
        invariant
            i <= n <= candidates@.len(),
            forall|k: int| 0 <= k < i ==> (#[trigger] candidates@[k]).0 != txn_id,
        decreases n - i,
    {
        if candidates[i].0 == txn_id {
            return true;
        }
        i = i + 1;
    }
    false
}

/// Checks the changes of a batch as they will be after its commit.
fn check_committed(batch: &ChangeBatch, commit: Option<LsmCommitSeq>, kind: types::ChangeStorageKind) -> (
checked: Result<(), ChangeStreamError>)
    ensures
        match record::committed_errors(record::resolved_changes(batch@.mutations, commit), kind) {
            Some(error) => checked == Err::<(), ChangeStreamError>(error),
            None => checked == Ok::<(), ChangeStreamError>(()),
        },
{
    let mut committed = batch.copy();
    if let Some(number) = commit {
        record::resolve_lsm_versions(&mut committed, number);
    }
    proof {
        lemma_committed_errors_view(committed.mutations@, kind);
        if commit is None {
            assert(record::resolved_changes(batch@.mutations, commit) == batch@.mutations);
        }
    }
    record::validate_committed_versions(committed.mutations.as_slice(), kind)
}

pub proof fn lemma_committed_errors_view(
    changes: Seq<types::StoredChange>,
    kind: types::ChangeStorageKind,
)
    ensures
        record::committed_errors(changes, kind) == record::committed_errors(
            types::changes_view(changes),
            kind,
        ),
    decreases changes.len(),
{
    if changes.len() > 0 {
        lemma_committed_errors_view(changes.drop_last(), kind);
        assert(types::changes_view(changes).drop_last() =~= types::changes_view(
            changes.drop_last(),
        ));
        assert(types::changes_view(changes).last() == types::change_view(changes.last()));
    }
}

impl EnabledStream {
    fn published(&self, txn_id: TxnId) -> (found: bool)
        ensures
            found == is_published(self@, txn_id),
    {
        let mut i: usize = 0;
        while i < self.batches.len()
            invariant
                i <= self.batches@.len(),
                forall|k: int|
                    0 <= k < i ==> (#[trigger] self@.batches[k]).physical_txn_id != txn_id,
            decreases self.batches@.len() - i,
        {
            assert(self@.batches[i as int] == self.batches@[i as int]@);
            if self.batches[i].physical_txn_id == txn_id {
                return true;
            }
            i = i + 1;
        }
        false
    }

    fn published_all(&self, candidates: &[FinalizeCandidate]) -> (published: bool)
        ensures
            published == all_published(self@, candidates@),
    {
        let mut i: usize = 0;
        while i < candidates.len()
            invariant
                i <= candidates@.len(),
                forall|k: int|
                    0 <= k < i ==> is_published(self@, (#[trigger] candidates@[k]).0),
            decreases candidates@.len() - i,
        {
            if !self.published(candidates[i].0) {
                return false;
            }
            i = i + 1;
        }
        true
    }

    /// Checks the candidate at `i`.
    fn check_candidate(&self, candidates: &[FinalizeCandidate], sync_immediately: bool, i: usize) -> (
    checked: Result<(), ChangeStreamError>)
        requires
            i < candidates@.len(),
        ensures
            match finalize_error(self@, candidates@, sync_immediately, i as int) {
                Some(error) => checked == Err::<(), ChangeStreamError>(error),
                None => checked == Ok::<(), ChangeStreamError>(()),
            },
    {
        let (txn_id, reservation, commit): FinalizeCandidate = candidates[i];
        if i != 0 && candidates[i - 1].1.after != reservation.before {
            return Err(
                ChangeStreamError::ChangeGap {
                    expected: candidates[i - 1].1.after,
                    actual: reservation.before,
                },
            );
        }
        let found: usize = match load::find_record(&self.unresolved, txn_id) {
            None => {
                return Err(ChangeStreamError::InvalidRecord("prepared transaction is missing"));
            },
            Some(found) => found,
        };
        let entry = &self.unresolved[found];
        assert(self@.unresolved[found as int] == entry@);
        if !sync_immediately && self.pending_finalize_checkpoints.contains_key(
            &reservation.sequence,
        ) {
            return Err(
                ChangeStreamError::InvalidRecord("duplicate pending finalize checkpoint sequence"),
            );
        }
        if stream::prepared_identity(&entry.batch) != reservation || !entry.prepared_durable {
            return Err(
                ChangeStreamError::InvalidRecord("prepared identity is changed or not durable"),
            );
        }
        check_committed(&entry.batch, commit, self.header.kind)?;
        if txn_id.0 == 0 {
            return Err(ChangeStreamError::InvalidRecord("zero transaction identity"));
        }
        if i as u64 >= u64::MAX / MARKER_BYTES {
            return Err(ChangeStreamError::RecordTooLarge(u64::MAX));
        }
        match entry.staged_finalize {
            Some(existing) => {
                if existing != commit {
                    return Err(
                        ChangeStreamError::InvalidRecord("finalize commit identity changed"),
                    );
                }
            },
            None => {},
        }
        Ok(())
    }

    fn check_candidates(&self, candidates: &[FinalizeCandidate], sync_immediately: bool) -> (
    checked: Result<(), ChangeStreamError>)
        ensures
            match finalize_errors(
                self@,
                candidates@,
                sync_immediately,
                candidates@.len() as int,
            ) {
                Some(error) => checked == Err::<(), ChangeStreamError>(error),
                None => checked == Ok::<(), ChangeStreamError>(()),
            },
    {
        let mut i: usize = 0;
        while i < candidates.len()
            invariant
                i <= candidates@.len(),
                finalize_errors(self@, candidates@, sync_immediately, i as int) is None,
            decreases candidates@.len() - i,
        {
            proof {
                if finalize_errors(self@, candidates@, sync_immediately, i + 1) is Some {
                    lemma_finalize_errors_prefix(
                        self@,
                        candidates@,
                        sync_immediately,
                        i + 1,
                        candidates@.len() as int,
                    );
                }
            }
            self.check_candidate(candidates, sync_immediately, i)?;
            i = i + 1;
        }
        Ok(())
    }

    /// The markers that are not in the log yet, for candidates that passed
    /// their checks.
    fn missing_markers(&self, candidates: &[FinalizeCandidate], sync_immediately: bool) -> (markers:
        Vec<Vec<u8>>)
        requires
            finalize_errors(
                self@,
                candidates@,
                sync_immediately,
                candidates@.len() as int,
            ) is None,
        ensures
            markers_view(markers@) == markers_needed(self@, candidates@, candidates@.len() as int),
    {
        let mut markers: Vec<Vec<u8>> = Vec::new();
        let mut i: usize = 0;
        assert(markers_view(markers@) =~= Seq::empty());
        while i < candidates.len()
            invariant
                i <= candidates@.len(),
                finalize_errors(
                    self@,
                    candidates@,
                    sync_immediately,
                    candidates@.len() as int,
                ) is None,
                markers_view(markers@) == markers_needed(self@, candidates@, i as int),
            decreases candidates@.len() - i,
        {
            let (txn_id, _, commit): FinalizeCandidate = candidates[i];
            proof {
                lemma_no_finalize_error(
                    self@,
                    candidates@,
                    sync_immediately,
                    candidates@.len() as int,
                    i as int,
                );
            }
            let staged: bool = match load::find_record(&self.unresolved, txn_id) {
                None => true,
                Some(found) => {
                    assert(self@.unresolved[found as int] == self.unresolved@[found as int]@);
                    self.unresolved[found].staged_finalize.is_some()
                },
            };
            if !staged && !named(candidates, i, txn_id) {
                match record::encode_finalize(txn_id, commit) {
                    Ok(marker) => {
                        let ghost earlier = markers@;
                        markers.push(marker);
                        assert(markers_view(markers@) =~= markers_view(earlier).push(marker@));
                    },
                    Err(_) => {},
                }
            }
            i = i + 1;
        }
        markers
    }

    /// Decides how to publish a batch.
    pub fn plan_finalize(&self, candidates: &[FinalizeCandidate], sync_immediately: bool) -> (plan:
        Result<FinalizePlan, ChangeStreamError>)
        requires
            self.wf(),
        ensures
            if candidates@.len() == 0 {
                plan == Err::<FinalizePlan, ChangeStreamError>(
                    ChangeStreamError::InvalidRecord("finalize durability batch is empty"),
                )
            } else if all_published(self@, candidates@) {
                plan == Ok::<FinalizePlan, ChangeStreamError>(
                    FinalizePlan::Published(published_report(self@, candidates@)),
                )
            } else {
                match finalize_refused(self@, candidates@, sync_immediately) {
                    Some(error) => plan == Err::<FinalizePlan, ChangeStreamError>(error),
                    None => {
                        &&& plan is Ok
                        &&& plan->Ok_0 is Append
                        &&& markers_view(plan->Ok_0->markers@) == markers_needed(
                            self@,
                            candidates@,
                            candidates@.len() as int,
                        )
                    },
                }
            },
    {
        if candidates.len() == 0 {
            return Err(ChangeStreamError::InvalidRecord("finalize durability batch is empty"));
        }
        let last: usize = candidates.len() - 1;
        if self.published_all(candidates) {
            return Ok(
                FinalizePlan::Published(
                    ChangeFinalizeBatchReport {
                        finalized_member_count: candidates.len(),
                        markers_staged: 0,
                        marker_bytes: 0,
                        syncs: 0,
                        before_committed_frontier: candidates[0].1.before,
                        after_committed_frontier: candidates[last].1.after,
                        pending_finalize_checkpoints_after: self.pending_finalize_checkpoints.len(),
                    },
                ),
            );
        }
        let current = self.effective_current();
        if candidates[0].1.before != current {
            return Err(
                ChangeStreamError::ChangeGap {
                    expected: current,
                    actual: candidates[0].1.before,
                },
            );
        }
        self.check_candidates(candidates, sync_immediately)?;
        let markers = self.missing_markers(candidates, sync_immediately);
        assert(markers_view(markers@).len() == markers@.len());
        if markers.len() as u64 > (u64::MAX - self.file_bytes) / MARKER_BYTES {
            return Err(ChangeStreamError::RecordTooLarge(u64::MAX));
        }
        Ok(FinalizePlan::Append { markers })
    }

    /// Takes note that the missing markers of a checked batch were appended.
    fn stage_markers(&mut self, candidates: &[FinalizeCandidate], sync_immediately: bool) -> (staged:
        usize)
        requires
            old(self).wf(),
            finalize_ready(old(self)@, candidates@, sync_immediately),
        ensures
            final(self)@ == markers_staged(old(self)@, candidates@, candidates@.len() as int),
            staged == markers_needed(old(self)@, candidates@, candidates@.len() as int).len(),
    {
        let ghost v = self@;
        let ghost all = candidates@;
        let mut staged: usize = 0;
        let mut i: usize = 0;
        while i < candidates.len()
            invariant
                i <= candidates@.len(),
                all == candidates@,
                v == old(self)@,
                stream::stream_kept(v),
                finalize_ready(v, all, sync_immediately),
                self@ == markers_staged(v, all, i as int),
                staged == markers_needed(v, all, i as int).len(),
                staged <= i,
            decreases candidates@.len() - i,
        {
            let (txn_id, _, commit): FinalizeCandidate = candidates[i];
            proof {
                lemma_markers_monotone(v, all, i as int, all.len() as int);
                lemma_markers_monotone(v, all, i + 1, all.len() as int);
                lemma_markers_staged(v, all, i as int);
                lemma_markers_staged(v, all, i + 1);
                load::lemma_record_position(v.unresolved, txn_id);
                load::lemma_record_position(self@.unresolved, txn_id);
            }
            let ghost before = self@;
            match load::find_record(&self.unresolved, txn_id) {
                None => {
                    proof {
                        if load::record_position(v.unresolved, txn_id) is Some {
                            let k = load::record_position(v.unresolved, txn_id)->0;
                            assert(self@.unresolved[k].batch.physical_txn_id == txn_id);
                        }
                    }
                },
                Some(found) => {
                    proof {
                        assert(self@.unresolved[found as int] == self.unresolved@[found as int]@);
                        assert forall|k: int| 0 <= k < found implies (
                        #[trigger] v.unresolved[k]).batch.physical_txn_id != txn_id by {
                            assert(self@.unresolved[k].batch.physical_txn_id != txn_id);
                        }
                        load::lemma_record_position_is(v.unresolved, txn_id, found as int);
                    }
                    if self.unresolved[found].staged_finalize.is_none() {
                        assert(needs_marker(v, all, i as int));
                        assert(stream::sizes_kept(v.unresolved[found as int]));
                        self.file_bytes = self.file_bytes + MARKER_BYTES;
                        self.unresolved[found].retained_file_bytes =
                        self.unresolved[found].retained_file_bytes + MARKER_BYTES;
                        self.unresolved[found].staged_finalize = Some(commit);
                        staged = staged + 1;
                        assert(self@.unresolved =~= before.unresolved.update(
                            found as int,
                            staged_entry(before.unresolved[found as int], commit),
                        ));
                    }
                },
            }
            i = i + 1;
        }
        staged
    }

    /// Moves the reservation at `found` into the committed history.
    fn promote(&mut self, found: usize, candidate: FinalizeCandidate, sync_immediately: bool)
        requires
            found < old(self).unresolved@.len(),
        ensures
            final(self)@ == promoted(old(self)@, found as int, candidate, sync_immediately),
    {
        let ghost v = self@;
        assert(v.unresolved[found as int] == self.unresolved@[found as int]@);
        let mut entry = self.unresolved.remove(found);
        assert(self@.unresolved =~= v.unresolved.remove(found as int));
        if let Some(number) = candidate.2 {
            record::resolve_lsm_versions(&mut entry.batch, number);
        }
        self.finalize_versions.insert(candidate.0.0, candidate.2);
        self.batch_file_bytes.push(
            BatchFileBytes {
                change_bytes: entry.prepared_file_bytes,
                retained_file_bytes: entry.retained_file_bytes,
            },
        );
        let sequence: u64 = entry.batch.sequence;
        self.batches.push(entry.batch);
        assert(self@.batches =~= v.batches.push(entry.batch@));
        if sync_immediately {
            self.finalize_checkpointed_through = candidate.1.after;
        } else {
            self.pending_finalize_checkpoints.insert(sequence, candidate.0);
        }
    }

    /// Takes note that the markers of a checked batch were appended and, where
    /// that is asked for, synchronized; and publishes the batch.
    pub fn complete_finalize(
        &mut self,
        counts: &mut ChangeStreamSyncCounts,
        candidates: &[FinalizeCandidate],
        sync_immediately: bool,
        reason: SyncReason,
    ) -> (published: Result<ChangeFinalizeBatchReport, ChangeStreamError>)
        requires
            old(self).wf(),
            finalize_ready(old(self)@, candidates@, sync_immediately),
        ensures
            final(self).wf(),
            *final(counts) == if sync_immediately {
                durable::counted(
                    *old(counts),
                    reason,
                    old(self)@.pending_finalize_checkpoints.len() != 0,
                )
            } else {
                *old(counts)
            },
            match promotion(
                markers_durable(old(self)@, candidates@, sync_immediately),
                candidates@,
                sync_immediately,
                candidates@.len() as int,
            ) {
                Err(stopped) => published == Err::<ChangeFinalizeBatchReport, ChangeStreamError>(
                    ChangeStreamError::InvalidRecord(
                        "prepared transaction disappeared during publication",
                    ),
                ) && final(self)@ == stopped,
                Ok(done) => published == Ok::<ChangeFinalizeBatchReport, ChangeStreamError>(
                    ChangeFinalizeBatchReport {
                        finalized_member_count: candidates@.len() as usize,
                        markers_staged: markers_needed(
                            old(self)@,
                            candidates@,
                            candidates@.len() as int,
                        ).len() as usize,
                        marker_bytes: (MARKER_BYTES * candidates@.len()) as u64,
                        syncs: if sync_immediately {
                            1
                        } else {
                            0
                        },
                        before_committed_frontier: stream::current_of(
                            old(self).header,
                            old(self)@.batches,
                        ),
                        after_committed_frontier: candidates@.last().1.after,
                        pending_finalize_checkpoints_after: done.pending_finalize_checkpoints.len() as usize,
                    },
                ) && final(self)@ == done,
            },
    {
        let ghost v = self@;
        let ghost all = candidates@;
        let before_committed_frontier = self.effective_current();
        let markers_staged: usize = self.stage_markers(candidates, sync_immediately);
        proof {
            lemma_markers_staged(v, all, all.len() as int);
            lemma_markers_durable(v, all, sync_immediately);
            lemma_markers_durable(v, all, false);
        }
        if sync_immediately {
            let _ = self.complete_sync(counts, reason);
        }
        let ghost w = self@;
        assert(w == markers_durable(v, all, sync_immediately));
        proof {
            lemma_no_finalize_error(
                v,
                all,
                sync_immediately,
                all.len() as int,
                all.len() - 1,
            );
        }
        let mut i: usize = 0;
        while i < candidates.len()
            invariant
                i <= candidates@.len(),
                all == candidates@,
                stream::stream_kept(v),
                finalize_ready(v, all, sync_immediately),
                stream::stream_kept(w),
                w.batches == v.batches,
                w.header == v.header,
                batches_from(w, v),
                markers_present(w, all),
                w == markers_durable(old(self)@, all, sync_immediately),
                promotion(w, all, sync_immediately, i as int) == Ok::<StreamView, StreamView>(
                    self@,
                ),
                v == old(self)@,
                *counts == if sync_immediately {
                    durable::counted(
                        *old(counts),
                        reason,
                        old(self)@.pending_finalize_checkpoints.len() != 0,
                    )
                } else {
                    *old(counts)
                },
            decreases candidates@.len() - i,
        {
            match load::find_record(&self.unresolved, candidates[i].0) {
                None => {
                    proof {
                        lemma_promotion_kept(v, w, all, sync_immediately, i + 1);
                        lemma_promotion_stops(w, all, sync_immediately, i + 1, all.len() as int);
                    }
                    return Err(
                        ChangeStreamError::InvalidRecord(
                            "prepared transaction disappeared during publication",
                        ),
                    );
                },
                Some(found) => {
                    self.promote(found, candidates[i], sync_immediately);
                },
            }
            i = i + 1;
        }
        proof {
            lemma_promotion_kept(v, w, all, sync_immediately, all.len() as int);
        }
        let last: usize = candidates.len() - 1;
        Ok(
            ChangeFinalizeBatchReport {
                finalized_member_count: candidates.len(),
                markers_staged,
                marker_bytes: MARKER_BYTES * (candidates.len() as u64),
                syncs: if sync_immediately {
                    1
                } else {
                    0
                },
                before_committed_frontier,
                after_committed_frontier: candidates[last].1.after,
                pending_finalize_checkpoints_after: self.pending_finalize_checkpoints.len(),
            },
        )
    }
}

proof fn lemma_promotion_stops(
    v: StreamView,
    candidates: Seq<FinalizeCandidate>,
    sync_immediately: bool,
    n: int,
    m: int,
)
    requires
        0 <= n <= m,
        promotion(v, candidates, sync_immediately, n) is Err,
    ensures
        promotion(v, candidates, sync_immediately, m) == promotion(
            v,
            candidates,
            sync_immediately,
            n,
        ),
    decreases m,
{
    if n < m {
        lemma_promotion_stops(v, candidates, sync_immediately, n, m - 1);
    }
}

} // verus!
