//! What preparing, making durable and publishing do to a stream, field by field.
use super::chain_laws;
use super::durable;
use super::durable::{DurableCandidate, DurablePlan};
use super::finalize;
use super::finalize::FinalizeCandidate;
use super::load;
use super::load::{AuthoritativeOutcome, RecordView};
use super::outcome_laws;
use super::read_laws;
use super::record;
use super::stream;
use super::stream::{BatchFileBytes, PreparedChange, StreamView, MARKER_BYTES};
use super::types::{BatchView, StorageChange};
use crate::ids::{DatabaseTxnId, LsmCommitSeq, StorageDataVersion, TxnId};
use vstd::prelude::*;

verus! {

// ---------------------------------------------------------------------------
// Preparing
// ---------------------------------------------------------------------------
/// Where the next reservation starts: behind the last reservation, or else at the
/// committed frontier.
pub open spec fn next_start(v: StreamView) -> StorageDataVersion {
    if v.unresolved.len() > 0 {
        v.unresolved[v.unresolved.len() - 1].batch.after
    } else {
        read_laws::committed_frontier(v)
    }
}

/// A prepared batch has the changes and the identities that it was given, those of
/// the stream, the next sequence, and one frontier behind what is reserved. It
/// becomes the last reservation, neither durable nor finalized, and nothing else
/// changes but the size of the log and the next sequence.
pub proof fn law_prepared_batch(
    v: StreamView,
    txn_id: TxnId,
    database_txn_id: Option<DatabaseTxnId>,
    changes: Seq<StorageChange<Seq<u8>>>,
    size: u64,
)
    requires
        next_start(v).0 < u64::MAX,
        v.next_sequence < u64::MAX,
        v.file_bytes + size <= u64::MAX,
    ensures
        ({
            let batch = stream::batch_to_prepare(v, txn_id, database_txn_id, changes);
            let w = stream::prepared(v, batch, size);
            &&& batch.sequence == v.next_sequence
            &&& batch.physical_txn_id == txn_id
            &&& batch.database_txn_id == database_txn_id
            &&& batch.table_id == v.header.table_id
            &&& batch.storage_id == v.header.storage_id
            &&& batch.schema_fingerprint == v.header.fingerprint
            &&& batch.before == next_start(v)
            &&& batch.after.0 == next_start(v).0 + 1
            &&& batch.mutations == changes
            &&& w.header == v.header
            &&& w.file_bytes == v.file_bytes + size
            &&& w.batches == v.batches
            &&& w.batch_file_bytes == v.batch_file_bytes
            &&& w.finalize_versions == v.finalize_versions
            &&& w.pending_finalize_checkpoints == v.pending_finalize_checkpoints
            &&& w.finalize_checkpointed_through == v.finalize_checkpointed_through
            &&& w.next_sequence == v.next_sequence + 1
            &&& w.unresolved.len() == v.unresolved.len() + 1
            &&& forall|k: int|
                0 <= k < v.unresolved.len() ==> #[trigger] w.unresolved[k] == v.unresolved[k]
            &&& w.unresolved.last() == RecordView {
                batch,
                outcome: AuthoritativeOutcome::Unresolved,
                finalized: false,
                prepared_durable: false,
                staged_finalize: None,
                prepared_file_bytes: size,
                retained_file_bytes: size,
            }
        }),
{
}

/// Changes can be prepared exactly where there is a frontier and a sequence left,
/// they make a record, and the log has room for it.
pub proof fn law_when_changes_can_be_prepared(
    v: StreamView,
    txn_id: TxnId,
    database_txn_id: Option<DatabaseTxnId>,
    changes: Seq<StorageChange<Seq<u8>>>,
)
    ensures
        stream::prepare_error(v, txn_id, database_txn_id, changes) is None <==> {
            let batch = stream::batch_to_prepare(v, txn_id, database_txn_id, changes);
            &&& next_start(v).0 < u64::MAX
            &&& v.next_sequence < u64::MAX
            &&& 0 < changes.len() <= 1_000_000
            &&& record::mutations_error(changes, v.header.storage_id) is None
            &&& record::record_payload(batch).len() <= 67_108_864
            &&& v.file_bytes + record::framed(record::record_payload(batch)).len() <= u64::MAX
        },
{
}

// ---------------------------------------------------------------------------
// Making durable
// ---------------------------------------------------------------------------
/// Whether a candidate names the reservation at a place.
pub open spec fn names_reservation(
    v: StreamView,
    candidate: DurableCandidate,
    place: int,
) -> bool {
    &&& 0 <= place < v.unresolved.len()
    &&& v.unresolved[place].batch.physical_txn_id == candidate.0
    &&& v.unresolved[place].batch.database_txn_id == candidate.1
    &&& v.unresolved[place].batch.sequence == candidate.2.sequence
    &&& v.unresolved[place].batch.before == candidate.2.before
    &&& v.unresolved[place].batch.after == candidate.2.after
}

/// Whether a candidate names a reservation, the one at its own place where this is
/// asked, and starts where the candidate before it ends.
pub open spec fn durable_fits(
    v: StreamView,
    candidates: Seq<DurableCandidate>,
    exact: bool,
    i: int,
) -> bool {
    &&& exists|place: int| #[trigger]
        names_reservation(v, candidates[i], place) && (exact ==> place == i)
    &&& i > 0 ==> candidates[i - 1].2.after == candidates[i].2.before
}

proof fn lemma_place(v: StreamView, txn_id: TxnId, place: int)
    requires
        stream::stream_kept(v),
        0 <= place < v.unresolved.len(),
        v.unresolved[place].batch.physical_txn_id == txn_id,
    ensures
        load::record_position(v.unresolved, txn_id) == Some(place),
{
    assert forall|i: int| 0 <= i < place implies (
    #[trigger] v.unresolved[i]).batch.physical_txn_id != txn_id by {
        assert(v.unresolved[i].batch.physical_txn_id
            != v.unresolved[place].batch.physical_txn_id);
    }
    load::lemma_record_position_is(v.unresolved, txn_id, place);
}

proof fn lemma_durable_fits(
    v: StreamView,
    candidates: Seq<DurableCandidate>,
    exact: bool,
    n: int,
)
    requires
        stream::stream_kept(v),
        exact ==> candidates.len() <= v.unresolved.len(),
        0 <= n <= candidates.len(),
        n * 0x800_0000 <= u64::MAX,
    ensures
        durable::durable_errors(v, candidates, exact, n) is None <==> forall|i: int|
            0 <= i < n ==> #[trigger] durable_fits(v, candidates, exact, i),
        durable::durable_errors(v, candidates, exact, n) is None ==> 0 <= durable::durable_bytes(
            v,
            candidates,
            exact,
            n,
        ) <= n * 0x800_0000,
    decreases n,
{
    if n > 0 {
        lemma_durable_fits(v, candidates, exact, n - 1);
        let i = n - 1;
        let candidate = candidates[i];
        load::lemma_record_position(v.unresolved, candidate.0);
        if durable_fits(v, candidates, exact, i) {
            let place = choose|place: int| #[trigger]
                names_reservation(v, candidate, place) && (exact ==> place == i);
            lemma_place(v, candidate.0, place);
            assert(v.unresolved[place].prepared_file_bytes <= 0x800_0000);
            assert(durable::candidate_record(v, candidates, exact, i) == Some(place));
        } else if durable::durable_errors(v, candidates, exact, n) is None {
            let place = durable::candidate_record(v, candidates, exact, i)->0;
            assert(names_reservation(v, candidate, place));
        }
    }
}

/// Reservations can be made durable together exactly where there are some, each is
/// named as it is, and each starts where the one before it ends; where the front
/// of the chain is asked for, they are it, in order.
pub proof fn law_when_reservations_can_be_made_durable(
    v: StreamView,
    candidates: Seq<DurableCandidate>,
    exact: bool,
)
    requires
        stream::stream_kept(v),
        candidates.len() * 0x800_0000 <= u64::MAX,
    ensures
        durable::durable_refused(v, candidates, exact) is None <==> {
            &&& candidates.len() > 0
            &&& forall|i: int|
                0 <= i < candidates.len() ==> #[trigger] durable_fits(v, candidates, exact, i)
        },
{
    let n = candidates.len() as int;
    if exact && n > v.unresolved.len() {
        assert(!durable_fits(v, candidates, exact, v.unresolved.len() as int)) by {
            if durable_fits(v, candidates, exact, v.unresolved.len() as int) {
                let k = v.unresolved.len() as int;
                let place = choose|place: int| #[trigger]
                    names_reservation(v, candidates[k], place) && (exact ==> place == k);
                assert(place < v.unresolved.len());
            }
        }
    } else {
        lemma_durable_fits(v, candidates, exact, n);
    }
}

proof fn lemma_needed(v: StreamView, candidates: Seq<DurableCandidate>, exact: bool, n: int)
    requires
        stream::stream_kept(v),
        0 <= n <= candidates.len(),
        forall|i: int| 0 <= i < n ==> #[trigger] durable_fits(v, candidates, exact, i),
    ensures
        durable::durable_needed(v, candidates, exact, n) <==> exists|i: int, place: int|
            0 <= i < n && #[trigger] names_reservation(v, candidates[i], place)
                && !v.unresolved[place].prepared_durable,
    decreases n,
{
    if n > 0 {
        lemma_needed(v, candidates, exact, n - 1);
        let last = n - 1;
        assert(durable_fits(v, candidates, exact, last));
        let home = choose|place: int| #[trigger]
            names_reservation(v, candidates[last], place) && (exact ==> place == last);
        lemma_place(v, candidates[last].0, home);
        assert(durable::candidate_record(v, candidates, exact, last) == Some(home));
        if !v.unresolved[home].prepared_durable {
            assert(names_reservation(v, candidates[last], home));
        }
        if durable::durable_needed(v, candidates, exact, n - 1) {
            let (i, place) = choose|i: int, place: int|
                0 <= i < n - 1 && #[trigger] names_reservation(v, candidates[i], place)
                    && !v.unresolved[place].prepared_durable;
            assert(names_reservation(v, candidates[i], place));
        }
        if exists|i: int, place: int|
            0 <= i < n && #[trigger] names_reservation(v, candidates[i], place)
                && !v.unresolved[place].prepared_durable {
            let (i, place) = choose|i: int, place: int|
                0 <= i < n && #[trigger] names_reservation(v, candidates[i], place)
                    && !v.unresolved[place].prepared_durable;
            if i == last {
                lemma_place(v, candidates[last].0, place);
            } else {
                assert(0 <= i < n - 1 && names_reservation(v, candidates[i], place));
            }
        }
    }
}

/// A synchronization is needed exactly where one of the named reservations is not
/// durable yet.
pub proof fn law_when_a_synchronization_is_needed(
    v: StreamView,
    candidates: Seq<DurableCandidate>,
    exact: bool,
)
    requires
        stream::stream_kept(v),
        candidates.len() * 0x800_0000 <= u64::MAX,
        durable::durable_refused(v, candidates, exact) is None,
    ensures
        durable::durable_needed(v, candidates, exact, candidates.len() as int) <==> exists|
            i: int,
            place: int,
        |
            0 <= i < candidates.len() && #[trigger] names_reservation(v, candidates[i], place)
                && !v.unresolved[place].prepared_durable,
{
    law_when_reservations_can_be_made_durable(v, candidates, exact);
    lemma_needed(v, candidates, exact, candidates.len() as int);
}

/// A synchronization marks exactly the named reservations as durable. It covers all
/// finalize markers that waited for one. Nothing else changes, and nothing at all
/// without a synchronization.
pub proof fn law_what_becomes_durable(
    v: StreamView,
    candidates: Seq<DurableCandidate>,
    plan: DurablePlan,
)
    requires
        v.pending_finalize_checkpoints.dom().finite(),
    ensures
        ({
            let w = durable::made_durable(v, candidates, plan);
            &&& !plan.needs_sync ==> w == v
            &&& plan.needs_sync ==> {
                &&& w.header == v.header
                &&& w.file_bytes == v.file_bytes
                &&& w.batches == v.batches
                &&& w.batch_file_bytes == v.batch_file_bytes
                &&& w.finalize_versions == v.finalize_versions
                &&& w.next_sequence == v.next_sequence
                &&& w.pending_finalize_checkpoints == Map::<u64, TxnId>::empty()
                &&& w.finalize_checkpointed_through
                    == if v.pending_finalize_checkpoints == Map::<u64, TxnId>::empty() {
                    v.finalize_checkpointed_through
                } else {
                    read_laws::committed_frontier(v)
                }
                &&& w.unresolved.len() == v.unresolved.len()
                &&& forall|k: int|
                    0 <= k < v.unresolved.len() ==> {
                        let entry = v.unresolved[k];
                        let named = exists|i: int|
                            0 <= i < candidates.len() && (#[trigger] candidates[i]).0
                                == entry.batch.physical_txn_id;
                        #[trigger] w.unresolved[k] == RecordView {
                            prepared_durable: entry.prepared_durable || named,
                            ..entry
                        }
                    }
            }
        }),
{
    if v.pending_finalize_checkpoints.len() == 0 {
        assert(v.pending_finalize_checkpoints =~= Map::<u64, TxnId>::empty()) by {
            assert(v.pending_finalize_checkpoints.dom() =~= Set::<u64>::empty());
        }
    } else {
        assert(Map::<u64, TxnId>::empty().dom() =~= Set::<u64>::empty());
        assert(v.pending_finalize_checkpoints != Map::<u64, TxnId>::empty());
    }
}

// ---------------------------------------------------------------------------
// Publishing
// ---------------------------------------------------------------------------
/// A reservation whose transaction committed.
pub open spec fn committed_entry(entry: RecordView, commit: Option<LsmCommitSeq>) -> RecordView {
    RecordView { outcome: AuthoritativeOutcome::Committed(commit), ..entry }
}

/// Whether a candidate names the reservation at its own place, which is durable,
/// has only final versions once it commits, and was not told another commit.
pub open spec fn publish_fits(
    v: StreamView,
    candidates: Seq<FinalizeCandidate>,
    sync_immediately: bool,
    i: int,
) -> bool {
    let entry = v.unresolved[i];
    let (txn_id, reservation, commit) = candidates[i];
    &&& i < v.unresolved.len()
    &&& entry.batch.physical_txn_id == txn_id
    &&& txn_id.0 != 0
    &&& reservation == PreparedChange {
        sequence: entry.batch.sequence,
        before: entry.batch.before,
        after: entry.batch.after,
    }
    &&& entry.prepared_durable
    &&& entry.staged_finalize is None || entry.staged_finalize == Some(commit)
    &&& !sync_immediately ==> !v.pending_finalize_checkpoints.contains_key(entry.batch.sequence)
    &&& forall|batch: BatchView, c: int|
        outcome_laws::settled(committed_entry(entry, commit), batch) && 0 <= c
            < batch.mutations.len() ==> outcome_laws::final_change(
            #[trigger] batch.mutations[c],
            v.header.kind,
        )
}

/// The markers of the first `n` candidates whose reservations have none.
pub open spec fn markers_wanted(
    v: StreamView,
    candidates: Seq<FinalizeCandidate>,
    n: int,
) -> Seq<Seq<u8>>
    decreases n,
{
    if n <= 0 {
        Seq::empty()
    } else if v.unresolved[n - 1].staged_finalize is None {
        markers_wanted(v, candidates, n - 1).push(
            record::finalize_bytes(candidates[n - 1].0, candidates[n - 1].2),
        )
    } else {
        markers_wanted(v, candidates, n - 1)
    }
}

proof fn lemma_final_versions(v: StreamView, entry: RecordView, commit: Option<LsmCommitSeq>)
    ensures
        record::committed_errors(
            record::resolved_changes(entry.batch.mutations, commit),
            v.header.kind,
        ) is None <==> forall|batch: BatchView, c: int|
            outcome_laws::settled(committed_entry(entry, commit), batch) && 0 <= c
                < batch.mutations.len() ==> outcome_laws::final_change(
                #[trigger] batch.mutations[c],
                v.header.kind,
            ),
{
    let done = committed_entry(entry, commit);
    outcome_laws::lemma_final_versions(done, v.header.kind);
}

proof fn lemma_publish_fits(
    v: StreamView,
    candidates: Seq<FinalizeCandidate>,
    sync_immediately: bool,
    n: int,
)
    requires
        stream::stream_kept(v),
        chain_laws::reservations_chained(v),
        0 <= n <= candidates.len(),
        MARKER_BYTES * candidates.len() <= u64::MAX,
        forall|i: int|
            0 <= i < n ==> #[trigger] publish_fits(v, candidates, sync_immediately, i),
    ensures
        finalize::finalize_errors(v, candidates, sync_immediately, n) is None,
    decreases n,
{
    if n > 0 {
        lemma_publish_fits(v, candidates, sync_immediately, n - 1);
        let i = n - 1;
        let entry = v.unresolved[i];
        assert(publish_fits(v, candidates, sync_immediately, i));
        lemma_place(v, candidates[i].0, i);
        lemma_final_versions(v, entry, candidates[i].2);
        if i > 0 {
            assert(publish_fits(v, candidates, sync_immediately, i - 1));
            assert(v.unresolved[i].batch.before == chain_laws::chain_base(v, i));
        }
    }
}

proof fn lemma_markers_wanted(v: StreamView, candidates: Seq<FinalizeCandidate>, n: int)
    requires
        stream::stream_kept(v),
        0 <= n <= candidates.len() <= v.unresolved.len(),
        forall|i: int|
            0 <= i < candidates.len() ==> (#[trigger] candidates[i]).0
                == v.unresolved[i].batch.physical_txn_id,
    ensures
        finalize::markers_needed(v, candidates, n) == markers_wanted(v, candidates, n),
        markers_wanted(v, candidates, n).len() <= n,
    decreases n,
{
    if n > 0 {
        lemma_markers_wanted(v, candidates, n - 1);
        let i = n - 1;
        assert(candidates[i].0 == v.unresolved[i].batch.physical_txn_id);
        lemma_place(v, candidates[i].0, i);
        if finalize::names(candidates, i, candidates[i].0) {
            let k = choose|k: int| 0 <= k < i && (#[trigger] candidates[k]).0 == candidates[i].0;
            assert(v.unresolved[k].batch.physical_txn_id != v.unresolved[i].batch.physical_txn_id);
        }
    }
}

/// Reservations can be published exactly where there are some, they are the front
/// of the chain, in order, each is durable and has only final versions, and the log
/// has room for the markers that are missing. Exactly these markers are wanted.
pub proof fn law_when_reservations_can_be_published(
    v: StreamView,
    candidates: Seq<FinalizeCandidate>,
    sync_immediately: bool,
)
    requires
        stream::stream_kept(v),
        chain_laws::reservations_chained(v),
        MARKER_BYTES * candidates.len() <= u64::MAX,
    ensures
        finalize::finalize_ready(v, candidates, sync_immediately) <==> {
            &&& 0 < candidates.len() <= v.unresolved.len()
            &&& forall|i: int|
                0 <= i < candidates.len() ==> #[trigger] publish_fits(
                    v,
                    candidates,
                    sync_immediately,
                    i,
                )
            &&& v.file_bytes + MARKER_BYTES * markers_wanted(
                v,
                candidates,
                candidates.len() as int,
            ).len() <= u64::MAX
        },
        finalize::finalize_ready(v, candidates, sync_immediately) ==> finalize::markers_needed(
            v,
            candidates,
            candidates.len() as int,
        ) == markers_wanted(v, candidates, candidates.len() as int),
{
    let n = candidates.len() as int;
    if finalize::finalize_ready(v, candidates, sync_immediately) {
        chain_laws::law_only_the_front_is_published(v, candidates, sync_immediately);
        lemma_markers_wanted(v, candidates, n);
        assert forall|i: int| 0 <= i < n implies #[trigger] publish_fits(
            v,
            candidates,
            sync_immediately,
            i,
        ) by {
            chain_laws::lemma_candidate_position(v, candidates, sync_immediately, i);
            finalize::lemma_no_finalize_error(v, candidates, sync_immediately, n, i);
            lemma_final_versions(v, v.unresolved[i], candidates[i].2);
        }
    }
    if 0 < n <= v.unresolved.len() && forall|i: int|
        0 <= i < n ==> #[trigger] publish_fits(v, candidates, sync_immediately, i) {
        lemma_publish_fits(v, candidates, sync_immediately, n);
        assert(publish_fits(v, candidates, sync_immediately, 0));
        assert(v.unresolved[0].batch.before == chain_laws::chain_base(v, 0));
        assert forall|i: int| 0 <= i < n implies (#[trigger] candidates[i]).0
            == v.unresolved[i].batch.physical_txn_id by {
            assert(publish_fits(v, candidates, sync_immediately, i));
        }
        lemma_markers_wanted(v, candidates, n);
    }
}

proof fn lemma_staged(v: StreamView, candidates: Seq<FinalizeCandidate>, n: int)
    requires
        stream::stream_kept(v),
        0 <= n <= candidates.len() <= v.unresolved.len(),
        forall|i: int|
            0 <= i < candidates.len() ==> (#[trigger] candidates[i]).0
                == v.unresolved[i].batch.physical_txn_id,
        v.file_bytes + MARKER_BYTES * markers_wanted(v, candidates, n).len() <= u64::MAX,
    ensures
        ({
            let w = finalize::markers_staged(v, candidates, n);
            &&& w.unresolved.len() == v.unresolved.len()
            &&& w == StreamView { file_bytes: w.file_bytes, unresolved: w.unresolved, ..v }
            &&& w.file_bytes == v.file_bytes + MARKER_BYTES * markers_wanted(
                v,
                candidates,
                n,
            ).len()
            &&& forall|k: int|
                0 <= k < v.unresolved.len() ==> #[trigger] w.unresolved[k] == if k < n
                    && v.unresolved[k].staged_finalize is None {
                    finalize::staged_entry(v.unresolved[k], candidates[k].2)
                } else {
                    v.unresolved[k]
                }
        }),
    decreases n,
{
    if n > 0 {
        lemma_staged(v, candidates, n - 1);
        let i = n - 1;
        let w = finalize::markers_staged(v, candidates, i);
        assert(candidates[i].0 == v.unresolved[i].batch.physical_txn_id);
        assert forall|k: int| 0 <= k < i implies (
        #[trigger] w.unresolved[k]).batch.physical_txn_id != candidates[i].0 by {
            assert(v.unresolved[k].batch.physical_txn_id != v.unresolved[i].batch.physical_txn_id);
        }
        assert(w.unresolved[i] == v.unresolved[i]);
        load::lemma_record_position_is(w.unresolved, candidates[i].0, i);
    }
}

/// A stream after `n` candidates were published, from what it was before.
#[verifier::opaque]
spec fn published_so_far(
    w: StreamView,
    done: StreamView,
    candidates: Seq<FinalizeCandidate>,
    sync_immediately: bool,
    n: int,
) -> bool {
    &&& done.header == w.header
    &&& done.file_bytes == w.file_bytes
    &&& done.next_sequence == w.next_sequence
    &&& done.unresolved == w.unresolved.skip(n)
    &&& done.batches.len() == w.batches.len() + n
    &&& done.batch_file_bytes.len() == w.batch_file_bytes.len() + n
    &&& forall|k: int|
        0 <= k < w.batches.len() ==> #[trigger] done.batches[k] == w.batches[k]
    &&& forall|k: int|
        0 <= k < w.batch_file_bytes.len() ==> #[trigger] done.batch_file_bytes[k]
            == w.batch_file_bytes[k]
    &&& forall|i: int|
        0 <= i < n ==> {
            let entry = #[trigger] w.unresolved[i];
            &&& done.batches[w.batches.len() + i] == BatchView {
                mutations: record::resolved_changes(entry.batch.mutations, candidates[i].2),
                ..entry.batch
            }
            &&& done.batch_file_bytes[w.batch_file_bytes.len() + i] == BatchFileBytes {
                change_bytes: entry.prepared_file_bytes,
                retained_file_bytes: entry.retained_file_bytes,
            }
            &&& done.finalize_versions.contains_key(entry.batch.physical_txn_id.0)
            &&& done.finalize_versions[entry.batch.physical_txn_id.0] == candidates[i].2
            &&& !sync_immediately ==> done.pending_finalize_checkpoints.contains_key(
                entry.batch.sequence,
            ) && done.pending_finalize_checkpoints[entry.batch.sequence] == candidates[i].0
        }
    &&& forall|id: u64|
        (forall|i: int| 0 <= i < n ==> (#[trigger] w.unresolved[i]).batch.physical_txn_id.0 != id)
            ==> {
            &&& #[trigger] done.finalize_versions.contains_key(id)
                <==> w.finalize_versions.contains_key(id)
            &&& done.finalize_versions[id] == w.finalize_versions[id]
        }
    &&& sync_immediately ==> done.pending_finalize_checkpoints == w.pending_finalize_checkpoints
    &&& !sync_immediately ==> forall|sequence: u64|
        (forall|i: int| 0 <= i < n ==> (#[trigger] w.unresolved[i]).batch.sequence != sequence)
            ==> {
            &&& #[trigger] done.pending_finalize_checkpoints.contains_key(sequence)
                <==> w.pending_finalize_checkpoints.contains_key(sequence)
            &&& done.pending_finalize_checkpoints[sequence]
                == w.pending_finalize_checkpoints[sequence]
        }
    &&& done.finalize_checkpointed_through == if sync_immediately && n > 0 {
        candidates[n - 1].1.after
    } else {
        w.finalize_checkpointed_through
    }
}

#[verifier::rlimit(60)]
proof fn lemma_promoted(
    w: StreamView,
    candidates: Seq<FinalizeCandidate>,
    sync_immediately: bool,
    n: int,
)
    requires
        0 <= n <= candidates.len() <= w.unresolved.len(),
        forall|i: int|
            0 <= i < candidates.len() ==> (#[trigger] candidates[i]).0
                == w.unresolved[i].batch.physical_txn_id,
        forall|i: int, j: int|
            0 <= i < j < w.unresolved.len() ==> (#[trigger] w.unresolved[i]).batch.sequence < (
            #[trigger] w.unresolved[j]).batch.sequence && w.unresolved[i].batch.physical_txn_id
                != w.unresolved[j].batch.physical_txn_id,
    ensures
        finalize::promotion(w, candidates, sync_immediately, n) is Ok,
        published_so_far(
            w,
            finalize::promotion(w, candidates, sync_immediately, n)->Ok_0,
            candidates,
            sync_immediately,
            n,
        ),
    decreases n,
{
    reveal(published_so_far);
    if n == 0 {
        assert(w.unresolved.skip(0) =~= w.unresolved);
    } else {
        lemma_promoted(w, candidates, sync_immediately, n - 1);
        let before = finalize::promotion(w, candidates, sync_immediately, n - 1)->Ok_0;
        let entry = w.unresolved[n - 1];
        assert(before.unresolved[0] == entry);
        assert(candidates[n - 1].0 == entry.batch.physical_txn_id);
        load::lemma_record_position_is(before.unresolved, candidates[n - 1].0, 0);
        let done = finalize::promotion(w, candidates, sync_immediately, n)->Ok_0;
        assert(done == finalize::promoted(before, 0, candidates[n - 1], sync_immediately));
        assert(done.unresolved =~= w.unresolved.skip(n));
        assert forall|id: u64|
            (forall|i: int|
                0 <= i < n ==> (#[trigger] w.unresolved[i]).batch.physical_txn_id.0 != id)
            implies {
            &&& #[trigger] done.finalize_versions.contains_key(id)
                <==> w.finalize_versions.contains_key(id)
            &&& done.finalize_versions[id] == w.finalize_versions[id]
        } by {
            assert(w.unresolved[n - 1].batch.physical_txn_id.0 != id);
            assert(before.finalize_versions.contains_key(id) <==> w.finalize_versions.contains_key(
                id,
            ));
        }
        if !sync_immediately {
            assert forall|sequence: u64|
                (forall|i: int|
                    0 <= i < n ==> (#[trigger] w.unresolved[i]).batch.sequence != sequence)
                implies {
                &&& #[trigger] done.pending_finalize_checkpoints.contains_key(sequence)
                    <==> w.pending_finalize_checkpoints.contains_key(sequence)
                &&& done.pending_finalize_checkpoints[sequence]
                    == w.pending_finalize_checkpoints[sequence]
            } by {
                assert(w.unresolved[n - 1].batch.sequence != sequence);
                assert(before.pending_finalize_checkpoints.contains_key(sequence)
                    <==> w.pending_finalize_checkpoints.contains_key(sequence));
            }
        }
        assert forall|i: int| 0 <= i < n implies {
            let entry = #[trigger] w.unresolved[i];
            &&& done.batches[w.batches.len() + i] == BatchView {
                mutations: record::resolved_changes(entry.batch.mutations, candidates[i].2),
                ..entry.batch
            }
            &&& done.batch_file_bytes[w.batch_file_bytes.len() + i] == BatchFileBytes {
                change_bytes: entry.prepared_file_bytes,
                retained_file_bytes: entry.retained_file_bytes,
            }
            &&& done.finalize_versions.contains_key(entry.batch.physical_txn_id.0)
            &&& done.finalize_versions[entry.batch.physical_txn_id.0] == candidates[i].2
            &&& !sync_immediately ==> done.pending_finalize_checkpoints.contains_key(
                entry.batch.sequence,
            ) && done.pending_finalize_checkpoints[entry.batch.sequence] == candidates[i].0
        } by {
            if i < n - 1 {
                assert(w.unresolved[i].batch.physical_txn_id
                    != w.unresolved[n - 1].batch.physical_txn_id);
                assert(w.unresolved[i].batch.sequence < w.unresolved[n - 1].batch.sequence);
            }
        }
    }
}

/// Whether the reservation at a place was published with its commit number: its
/// batch, the bytes that it takes with its marker, and what is known of its
/// transaction.
pub open spec fn published_entry(
    v: StreamView,
    done: StreamView,
    candidates: Seq<FinalizeCandidate>,
    sync_immediately: bool,
    i: int,
) -> bool {
    let entry = v.unresolved[i];
    let size = done.batch_file_bytes[v.batch_file_bytes.len() + i];
    &&& outcome_laws::settled(
        committed_entry(entry, candidates[i].2),
        done.batches[v.batches.len() + i],
    )
    &&& size.change_bytes == entry.prepared_file_bytes
    &&& size.retained_file_bytes == entry.retained_file_bytes + if entry.staged_finalize is None {
        MARKER_BYTES as int
    } else {
        0
    }
    &&& done.finalize_versions.contains_key(entry.batch.physical_txn_id.0)
    &&& done.finalize_versions[entry.batch.physical_txn_id.0] == candidates[i].2
    &&& !sync_immediately ==> {
        &&& done.pending_finalize_checkpoints.contains_key(entry.batch.sequence)
        &&& done.pending_finalize_checkpoints[entry.batch.sequence] == candidates[i].0
    }
}

/// Whether the commit number of a transaction that was not published is known as
/// before.
pub open spec fn published_id(v: StreamView, done: StreamView, n: int, id: u64) -> bool {
    (forall|i: int| 0 <= i < n ==> (#[trigger] v.unresolved[i]).batch.physical_txn_id.0 != id) ==> {
        &&& done.finalize_versions.contains_key(id) <==> v.finalize_versions.contains_key(id)
        &&& done.finalize_versions[id] == v.finalize_versions[id]
    }
}

/// Whether the marker of a batch that was not published waits as before.
pub open spec fn published_sequence(
    v: StreamView,
    done: StreamView,
    n: int,
    sequence: u64,
) -> bool {
    (forall|i: int| 0 <= i < n ==> (#[trigger] v.unresolved[i]).batch.sequence != sequence) ==> {
        &&& done.pending_finalize_checkpoints.contains_key(sequence)
            <==> v.pending_finalize_checkpoints.contains_key(sequence)
        &&& done.pending_finalize_checkpoints[sequence] == v.pending_finalize_checkpoints[sequence]
    }
}

proof fn lemma_published_lists(
    v: StreamView,
    w: StreamView,
    done: StreamView,
    candidates: Seq<FinalizeCandidate>,
    sync_immediately: bool,
    n: int,
)
    requires
        published_so_far(w, done, candidates, sync_immediately, n),
        0 < n <= v.unresolved.len(),
        w.unresolved.len() == v.unresolved.len(),
        w.batches == v.batches,
        w.batch_file_bytes == v.batch_file_bytes,
        forall|k: int|
            n <= k < v.unresolved.len() ==> #[trigger] w.unresolved[k] == v.unresolved[k],
    ensures
        done.header == w.header,
        done.file_bytes == w.file_bytes,
        done.next_sequence == w.next_sequence,
        done.unresolved == v.unresolved.skip(n),
        done.batches.len() == v.batches.len() + n,
        done.batch_file_bytes.len() == v.batch_file_bytes.len() + n,
        done.batches.take(v.batches.len() as int) == v.batches,
        done.batch_file_bytes.take(v.batch_file_bytes.len() as int) == v.batch_file_bytes,
        sync_immediately ==> done.pending_finalize_checkpoints == w.pending_finalize_checkpoints,
        done.finalize_checkpointed_through == if sync_immediately {
            candidates[n - 1].1.after
        } else {
            w.finalize_checkpointed_through
        },
{
    reveal(published_so_far);
    assert(done.unresolved =~= v.unresolved.skip(n)) by {
        assert forall|k: int| 0 <= k < v.unresolved.len() - n implies w.unresolved.skip(n)[k]
            == v.unresolved.skip(n)[k] by {
            assert(w.unresolved[n + k] == v.unresolved[n + k]);
        }
    }
    assert(done.batches.take(v.batches.len() as int) =~= v.batches);
    assert(done.batch_file_bytes.take(v.batch_file_bytes.len() as int) =~= v.batch_file_bytes);
}

proof fn lemma_published_entry(
    v: StreamView,
    w: StreamView,
    done: StreamView,
    candidates: Seq<FinalizeCandidate>,
    sync_immediately: bool,
    n: int,
    i: int,
)
    requires
        published_so_far(w, done, candidates, sync_immediately, n),
        0 <= i < n <= v.unresolved.len(),
        w.unresolved.len() == v.unresolved.len(),
        w.batches == v.batches,
        w.batch_file_bytes == v.batch_file_bytes,
        stream::sizes_kept(v.unresolved[i]),
        w.unresolved[i] == if v.unresolved[i].staged_finalize is None {
            finalize::staged_entry(v.unresolved[i], candidates[i].2)
        } else {
            v.unresolved[i]
        },
    ensures
        published_entry(v, done, candidates, sync_immediately, i),
{
    reveal(published_so_far);
    let entry = w.unresolved[i];
    assert(entry.batch == v.unresolved[i].batch);
    outcome_laws::lemma_settled(committed_entry(v.unresolved[i], candidates[i].2));
}

proof fn lemma_published_id(
    v: StreamView,
    w: StreamView,
    done: StreamView,
    candidates: Seq<FinalizeCandidate>,
    sync_immediately: bool,
    n: int,
    id: u64,
)
    requires
        published_so_far(w, done, candidates, sync_immediately, n),
        w.finalize_versions == v.finalize_versions,
        forall|k: int|
            0 <= k < n ==> (#[trigger] w.unresolved[k]).batch == v.unresolved[k].batch,
    ensures
        published_id(v, done, n, id),
{
    reveal(published_so_far);
    if forall|i: int| 0 <= i < n ==> (#[trigger] v.unresolved[i]).batch.physical_txn_id.0 != id {
        assert forall|i: int| 0 <= i < n implies (
        #[trigger] w.unresolved[i]).batch.physical_txn_id.0 != id by {
            assert(v.unresolved[i].batch.physical_txn_id.0 != id);
        }
        assert(done.finalize_versions.contains_key(id) <==> w.finalize_versions.contains_key(id));
    }
}

proof fn lemma_published_sequence(
    v: StreamView,
    w: StreamView,
    done: StreamView,
    candidates: Seq<FinalizeCandidate>,
    n: int,
    sequence: u64,
)
    requires
        published_so_far(w, done, candidates, false, n),
        w.pending_finalize_checkpoints == v.pending_finalize_checkpoints,
        forall|k: int|
            0 <= k < n ==> (#[trigger] w.unresolved[k]).batch == v.unresolved[k].batch,
    ensures
        published_sequence(v, done, n, sequence),
{
    reveal(published_so_far);
    if forall|i: int| 0 <= i < n ==> (#[trigger] v.unresolved[i]).batch.sequence != sequence {
        assert forall|i: int| 0 <= i < n implies (
        #[trigger] w.unresolved[i]).batch.sequence != sequence by {
            assert(v.unresolved[i].batch.sequence != sequence);
        }
        assert(done.pending_finalize_checkpoints.contains_key(sequence)
            <==> w.pending_finalize_checkpoints.contains_key(sequence));
    }
}

/// Publishing the front of a chain whose reservations have each a sequence of their
/// own: their batches, with their commit numbers, go behind the history, with the
/// bytes that they take with their markers; the other reservations stay as they
/// are. The commit numbers of the published transactions become known, and no
/// others change. Where the markers are synchronized at once, none waits for it any
/// more; else exactly these wait in addition. Nothing else changes but the size of
/// the log.
pub proof fn law_what_publishing_changes(
    v: StreamView,
    candidates: Seq<FinalizeCandidate>,
    sync_immediately: bool,
)
    requires
        stream::stream_kept(v),
        chain_laws::reservations_chained(v),
        finalize::finalize_ready(v, candidates, sync_immediately),
        MARKER_BYTES * candidates.len() <= u64::MAX,
        v.pending_finalize_checkpoints.dom().finite(),
        forall|i: int, j: int|
            0 <= i < j < v.unresolved.len() ==> (#[trigger] v.unresolved[i]).batch.sequence < (
            #[trigger] v.unresolved[j]).batch.sequence,
    ensures
        ({
            let n = candidates.len() as int;
            let w = finalize::markers_durable(v, candidates, sync_immediately);
            let result = finalize::promotion(w, candidates, sync_immediately, n);
            let done = result->Ok_0;
            &&& result is Ok
            &&& done.header == v.header
            &&& done.next_sequence == v.next_sequence
            &&& done.file_bytes == v.file_bytes + MARKER_BYTES * markers_wanted(
                v,
                candidates,
                n,
            ).len()
            &&& done.unresolved == v.unresolved.skip(n)
            &&& done.batches.len() == v.batches.len() + n
            &&& done.batch_file_bytes.len() == v.batch_file_bytes.len() + n
            &&& done.batches.take(v.batches.len() as int) == v.batches
            &&& done.batch_file_bytes.take(v.batch_file_bytes.len() as int) == v.batch_file_bytes
            &&& forall|i: int|
                0 <= i < n ==> #[trigger] published_entry(v, done, candidates, sync_immediately, i)
            &&& forall|id: u64| #[trigger] published_id(v, done, n, id)
            &&& sync_immediately ==> {
                &&& done.pending_finalize_checkpoints == Map::<u64, TxnId>::empty()
                &&& done.finalize_checkpointed_through == candidates[n - 1].1.after
            }
            &&& !sync_immediately ==> {
                &&& done.finalize_checkpointed_through == v.finalize_checkpointed_through
                &&& forall|sequence: u64| #[trigger] published_sequence(v, done, n, sequence)
            }
        }),
{
    let n = candidates.len() as int;
    chain_laws::law_only_the_front_is_published(v, candidates, sync_immediately);
    law_when_reservations_can_be_published(v, candidates, sync_immediately);
    lemma_staged(v, candidates, n);
    let staged = finalize::markers_staged(v, candidates, n);
    let w = finalize::markers_durable(v, candidates, sync_immediately);
    if v.pending_finalize_checkpoints.len() == 0 {
        assert(v.pending_finalize_checkpoints.dom() =~= Set::<u64>::empty());
        assert(v.pending_finalize_checkpoints =~= Map::<u64, TxnId>::empty());
    }
    assert(w.unresolved == staged.unresolved);
    assert forall|i: int, j: int| 0 <= i < j < w.unresolved.len() implies (
    #[trigger] w.unresolved[i]).batch.sequence < (#[trigger] w.unresolved[j]).batch.sequence
        && w.unresolved[i].batch.physical_txn_id != w.unresolved[j].batch.physical_txn_id by {
        assert(v.unresolved[i].batch.sequence < v.unresolved[j].batch.sequence);
    }
    assert forall|i: int| 0 <= i < n implies (#[trigger] candidates[i]).0
        == w.unresolved[i].batch.physical_txn_id by {
        assert(candidates[i].0 == v.unresolved[i].batch.physical_txn_id);
    }
    lemma_promoted(w, candidates, sync_immediately, n);
    let done = finalize::promotion(w, candidates, sync_immediately, n)->Ok_0;
    lemma_published_lists(v, w, done, candidates, sync_immediately, n);
    assert forall|i: int| 0 <= i < n implies published_entry(
        v,
        done,
        candidates,
        sync_immediately,
        i,
    ) by {
        lemma_published_entry(v, w, done, candidates, sync_immediately, n, i);
    }
    assert forall|id: u64| #[trigger] published_id(v, done, n, id) by {
        lemma_published_id(v, w, done, candidates, sync_immediately, n, id);
    }
    if !sync_immediately {
        assert forall|sequence: u64| #[trigger] published_sequence(v, done, n, sequence) by {
            lemma_published_sequence(v, w, done, candidates, n, sequence);
        }
    }
}

} // verus!
