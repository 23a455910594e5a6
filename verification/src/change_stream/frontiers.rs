//! The frontiers of a stream: where its history begins and ends, how far its
//! finalize markers are durable, and what can be read in between.
use super::durable;
use super::durable::{DurableCandidate, DurablePlan};
use super::finalize;
use super::finalize::FinalizeCandidate;
use super::history;
use super::load;
use super::load::{AuthoritativeOutcome, RecordView};
use super::log::Header;
use super::manager::{
    ChangeStreamInspection, ChangeStreamManager, ChangeStreamStatus, StateView, StreamState,
};
use super::operations;
use super::publish;
use super::reclaim;
use super::recover;
use super::stream;
use super::stream::StreamView;
use super::types::BatchView;
use crate::ids::StorageDataVersion;
use vstd::prelude::*;

verus! {

/// Whether every reservation advances the frontier by one.
pub open spec fn reservations_advance(records: Seq<RecordView>) -> bool {
    forall|i: int|
        0 <= i < records.len() ==> (#[trigger] records[i]).batch.after.0
            == records[i].batch.before.0 + 1
}

/// How the frontiers of a stream lie: every batch advances by one, the stream
/// began no later than its retained history, and the durable finalize markers
/// end at the committed frontier or, where some wait for a synchronization, in
/// front of it.
pub open spec fn frontiers_kept(v: StreamView) -> bool {
    let current = stream::current_of(v.header, v.batches);
    &&& history::advancing(v.batches)
    &&& v.header.origin.0 <= v.header.earliest.0
    &&& v.finalize_checkpointed_through.0 <= current.0
    &&& v.pending_finalize_checkpoints.dom().finite()
    &&& v.pending_finalize_checkpoints.len() == 0 ==> v.finalize_checkpointed_through == current
}

/// Whether the frontiers of a manager's stream are in place. They are in every
/// manager that an operation returns, and stay so: only publishing a
/// reservation that does not advance by one moves them, and only a log can hold
/// such a reservation.
pub open spec fn in_place(manager: ChangeStreamManager) -> bool {
    manager.state@ matches StateView::Enabled { stream } ==> frontiers_kept(stream)
}

/// Whether the reservations of a manager's stream advance by one each.
pub open spec fn reserved_in_step(manager: ChangeStreamManager) -> bool {
    manager.state@ matches StateView::Enabled { stream } ==> reservations_advance(
        stream.unresolved,
    )
}

// ---------------------------------------------------------------------------
// What follows from it
// ---------------------------------------------------------------------------
/// The retained history holds one batch for each frontier between the earliest
/// and the committed one.
pub proof fn law_batch_count_is_the_distance(v: StreamView)
    requires
        stream::stream_kept(v),
        frontiers_kept(v),
    ensures
        v.header.origin.0 <= v.header.earliest.0 <= stream::current_of(v.header, v.batches).0,
        v.batches.len() == stream::current_of(v.header, v.batches).0 - v.header.earliest.0,
{
    if v.batches.len() > 0 {
        history::lemma_frontier_at(v.batches, v.header.earliest, v.batches.len() - 1);
    }
}

/// Every frontier between the earliest and the committed one can be read from,
/// and the read returns all batches behind it, where they fit.
pub proof fn law_every_frontier_can_be_read(v: StreamView, frontier: StorageDataVersion)
    requires
        stream::stream_kept(v),
        frontiers_kept(v),
        v.header.earliest.0 <= frontier.0 <= stream::current_of(v.header, v.batches).0,
        v.batches.len() <= usize::MAX,
        change_total(v.batch_file_bytes) <= u64::MAX,
    ensures
        history::read_result(
            v,
            stream::cursor_at(v.header, frontier),
            usize::MAX as int,
            u64::MAX as int,
        ) == Ok::<(Seq<BatchView>, bool), super::error::ChangeStreamError>(
            (
                v.batches.subrange(
                    frontier.0 - v.header.earliest.0,
                    v.batches.len() as int,
                ),
                false,
            ),
        ),
{
    let cursor = stream::cursor_at(v.header, frontier);
    law_batch_count_is_the_distance(v);
    history::law_read_returns_the_rest(v, cursor);
    let start = frontier.0 - v.header.earliest.0;
    let n = v.batches.len() as int;
    if frontier == stream::current_of(v.header, v.batches) {
        assert(v.batches.subrange(start, n) =~= Seq::empty());
    } else {
        lemma_all_readable(v.batch_file_bytes, start, usize::MAX as int, u64::MAX as int);
    }
}

/// How many bytes the records of the batches take.
pub open spec fn change_total(sizes: Seq<stream::BatchFileBytes>) -> int
    decreases sizes.len(),
{
    if sizes.len() == 0 {
        0
    } else {
        sizes[0].change_bytes + change_total(sizes.drop_first())
    }
}

proof fn lemma_change_total_from(sizes: Seq<stream::BatchFileBytes>, i: int)
    requires
        0 <= i <= sizes.len(),
    ensures
        0 <= change_total(sizes.subrange(i, sizes.len() as int)) <= change_total(sizes),
    decreases i,
{
    if i > 0 {
        lemma_change_total_from(sizes, i - 1);
        let longer = sizes.subrange(i - 1, sizes.len() as int);
        assert(longer.drop_first() =~= sizes.subrange(i, sizes.len() as int));
    } else {
        lemma_change_total_positive(sizes);
        assert(sizes.subrange(0, sizes.len() as int) =~= sizes);
    }
    lemma_change_total_positive(sizes.subrange(i, sizes.len() as int));
}

proof fn lemma_change_total_positive(sizes: Seq<stream::BatchFileBytes>)
    ensures
        0 <= change_total(sizes),
    decreases sizes.len(),
{
    if sizes.len() > 0 {
        lemma_change_total_positive(sizes.drop_first());
    }
}

proof fn lemma_all_readable(
    sizes: Seq<stream::BatchFileBytes>,
    i: int,
    batches_left: int,
    bytes_left: int,
)
    requires
        0 <= i <= sizes.len(),
        sizes.len() - i <= batches_left,
        change_total(sizes.subrange(i, sizes.len() as int)) <= bytes_left || change_total(sizes)
            <= bytes_left,
    ensures
        history::readable(sizes, i, batches_left, bytes_left) == sizes.len() - i,
    decreases sizes.len() - i,
{
    lemma_change_total_from(sizes, i);
    if i < sizes.len() {
        let rest = sizes.subrange(i, sizes.len() as int);
        assert(rest.drop_first() =~= sizes.subrange(i + 1, sizes.len() as int));
        lemma_change_total_positive(rest.drop_first());
        lemma_all_readable(sizes, i + 1, batches_left - 1, bytes_left - sizes[i].change_bytes);
    }
}

/// What an inspection tells of the frontiers. Of an enabled stream: the origin
/// is not behind the earliest frontier, nor that behind the committed one; the
/// batches are as many as the frontiers in between; and the durable finalize
/// markers end at the committed frontier where none waits. Of another stream:
/// nothing is retained, and a reason is given exactly where the stream is
/// unavailable.
pub proof fn law_inspection_tells_the_frontiers(
    manager: ChangeStreamManager,
    log_bytes: u64,
    inspection: ChangeStreamInspection,
)
    requires
        publish::inspected(manager, log_bytes, inspection),
        manager.wf(),
        in_place(manager),
    ensures
        inspection.baseline_data_version == inspection.stream_origin_frontier,
        inspection.last_error is Some <==> inspection.status == ChangeStreamStatus::Unavailable,
        inspection.status == ChangeStreamStatus::Enabled <==> manager.state is Enabled,
        if manager.state is Enabled {
            match (
                inspection.stream_origin_frontier,
                inspection.earliest_available_frontier,
                inspection.finalize_checkpointed_through,
            ) {
                (Some(origin), Some(earliest), Some(checkpointed)) => {
                    let current = inspection.current_data_version;
                    &&& origin.0 <= earliest.0 <= current.0
                    &&& inspection.committed_batch_count == current.0 - earliest.0
                    &&& checkpointed.0 <= current.0
                    &&& inspection.pending_finalize_checkpoint_count == 0 ==> checkpointed
                        == current
                },
                _ => false,
            }
        } else {
            &&& inspection.stream_origin_frontier is None
            &&& inspection.earliest_available_frontier is None
            &&& inspection.finalize_checkpointed_through is None
            &&& inspection.current_data_version.0 == 0
            &&& inspection.committed_batch_count == 0
            &&& inspection.committed_mutation_count == 0
            &&& inspection.pending_finalize_checkpoint_count == 0
            &&& inspection.prepared_unresolved_count == 0
        },
{
    match manager.state {
        StreamState::Enabled { stream } => {
            law_batch_count_is_the_distance(stream@);
        },
        _ => {},
    }
}

// ---------------------------------------------------------------------------
// What keeps it
// ---------------------------------------------------------------------------
/// A stream begins with its frontiers in place.
pub proof fn law_enabling_places_the_frontiers(
    manager: ChangeStreamManager,
    baseline: StorageDataVersion,
)
    ensures
        frontiers_kept(operations::fresh_stream(operations::enabling_header(manager, baseline))),
{
    lemma_fresh_frontiers(operations::enabling_header(manager, baseline));
}

/// A stream without batches has its frontiers in place.
pub proof fn lemma_fresh_frontiers(header: Header)
    requires
        header.origin.0 <= header.earliest.0,
        header.earliest == header.current,
    ensures
        frontiers_kept(operations::fresh_stream(header)),
        reservations_advance(operations::fresh_stream(header).unresolved),
{
    assert(Map::<u64, crate::ids::TxnId>::empty().dom() =~= Set::empty());
}

/// A stream that was recovered from a log has its frontiers in place, and its
/// reservations advance by one where those without an outcome do so in the log.
pub proof fn law_recovery_places_the_frontiers(
    records: Seq<RecordView>,
    header: Header,
    file_bytes: u64,
)
    requires
        recover::records_sized(records),
        header.origin.0 <= header.earliest.0,
        recover::recovered(
            recover::scanned(records, header, file_bytes, records.len() as int),
        ) is Ok,
    ensures
        ({
            let v = recover::recovered(
                recover::scanned(records, header, file_bytes, records.len() as int),
            )->Ok_0;
            &&& frontiers_kept(v)
            &&& unresolved_advance(records) ==> reservations_advance(v.unresolved)
        }),
{
    lemma_recovered_frontiers(records, header, file_bytes);
}

/// What recovery places of the frontiers and keeps of the reservations.
pub proof fn lemma_recovered_frontiers(
    records: Seq<RecordView>,
    header: Header,
    file_bytes: u64,
)
    requires
        recover::records_sized(records),
    ensures
        recover::recovered(
            recover::scanned(records, header, file_bytes, records.len() as int),
        ) matches Ok(v) ==> {
            &&& header.origin.0 <= header.earliest.0 ==> frontiers_kept(v)
            &&& unresolved_advance(records) ==> reservations_advance(v.unresolved)
        },
{
    let scan = recover::scanned(records, header, file_bytes, records.len() as int);
    if recover::recovered(scan) is Ok {
        recover::law_recovery_gives_a_stream(records, header, file_bytes);
        lemma_scanned_reservations(records, header, file_bytes, records.len() as int);
        assert(Map::<u64, crate::ids::TxnId>::empty().dom() =~= Set::empty());
    }
}

/// Whether the records whose transactions have no outcome advance by one.
pub open spec fn unresolved_advance(records: Seq<RecordView>) -> bool {
    forall|i: int|
        0 <= i < records.len() && (#[trigger] records[i]).outcome
            == AuthoritativeOutcome::Unresolved ==> records[i].batch.after.0
            == records[i].batch.before.0 + 1
}

proof fn lemma_scanned_reservations(
    records: Seq<RecordView>,
    header: Header,
    file_bytes: u64,
    n: int,
)
    requires
        0 <= n <= records.len(),
        recover::records_sized(records),
    ensures
        unresolved_advance(records) ==> reservations_advance(
            recover::scanned(records, header, file_bytes, n).v.unresolved,
        ),
        recover::scanned(records, header, file_bytes, n).v.header == header,
        recover::scanned(records, header, file_bytes, n).v.pending_finalize_checkpoints == Map::<
            u64,
            crate::ids::TxnId,
        >::empty(),
    decreases n,
{
    if n > 0 {
        lemma_scanned_reservations(records, header, file_bytes, n - 1);
        let earlier = recover::scanned(records, header, file_bytes, n - 1).v.unresolved;
        let after = recover::scanned(records, header, file_bytes, n).v.unresolved;
        let entry = records[n - 1];
        let slot = recover::reservation_slot(earlier, entry);
        recover::lemma_reservation_slot(earlier, entry);
        assert forall|i: int|
            unresolved_advance(records) && 0 <= i < after.len() implies (
        #[trigger] after[i]).batch.after.0 == after[i].batch.before.0 + 1 by {
            if after == earlier.insert(slot, entry) && after != earlier {
                if i < slot {
                    assert(after[i] == earlier[i]);
                } else if i > slot {
                    assert(after[i] == earlier[i - 1]);
                }
            }
        }
    }
}

/// The header of a log tells an origin that is not behind the earliest
/// frontier.
pub proof fn law_log_header_is_ordered(s: Seq<u8>, recover: bool, refused: Set<Seq<u8>>)
    ensures
        load::log_of(s, recover, refused) matches Ok(found) ==> found.header.origin.0
            <= found.header.earliest.0 <= found.header.current.0,
{
}

/// Preparing a transaction keeps the frontiers, and its reservation advances
/// by one.
pub proof fn law_preparing_keeps_the_frontiers(
    v: StreamView,
    txn_id: crate::ids::TxnId,
    database_txn_id: Option<crate::ids::DatabaseTxnId>,
    changes: Seq<super::types::StorageChange<Seq<u8>>>,
    size: u64,
)
    requires
        frontiers_kept(v),
        stream::prepare_error(v, txn_id, database_txn_id, changes) is None,
    ensures
        ({
            let batch = stream::batch_to_prepare(v, txn_id, database_txn_id, changes);
            let after = stream::prepared(v, batch, size);
            &&& frontiers_kept(after)
            &&& batch.after.0 == batch.before.0 + 1
            &&& reservations_advance(v.unresolved) ==> reservations_advance(after.unresolved)
        }),
{
}

/// Synchronizing the log keeps the frontiers, and makes all finalize markers
/// durable.
pub proof fn law_synchronizing_keeps_the_frontiers(v: StreamView)
    requires
        frontiers_kept(v),
    ensures
        frontiers_kept(durable::synced(v)),
        durable::synced(v).finalize_checkpointed_through == stream::current_of(
            v.header,
            v.batches,
        ),
{
    assert(Map::<u64, crate::ids::TxnId>::empty().dom() =~= Set::empty());
}

/// Making prepared batches durable keeps the frontiers.
pub proof fn law_durability_keeps_the_frontiers(
    v: StreamView,
    candidates: Seq<DurableCandidate>,
    plan: DurablePlan,
)
    requires
        frontiers_kept(v),
    ensures
        ({
            let after = durable::made_durable(v, candidates, plan);
            &&& frontiers_kept(after)
            &&& reservations_advance(v.unresolved) ==> reservations_advance(after.unresolved)
        }),
{
    law_synchronizing_keeps_the_frontiers(v);
    if reservations_advance(v.unresolved) {
        lemma_durability_keeps_reservations(v, candidates, plan);
    }
}

/// Making prepared batches durable keeps what the reservations advance by.
pub proof fn lemma_durability_keeps_reservations(
    v: StreamView,
    candidates: Seq<DurableCandidate>,
    plan: DurablePlan,
)
    requires
        reservations_advance(v.unresolved),
    ensures
        reservations_advance(durable::made_durable(v, candidates, plan).unresolved),
{
    let w = durable::made_durable(v, candidates, plan);
    assert forall|i: int| 0 <= i < w.unresolved.len() implies (
    #[trigger] w.unresolved[i]).batch.after.0 == w.unresolved[i].batch.before.0 + 1 by {
        assert(w.unresolved[i].batch == v.unresolved[i].batch);
    }
}

/// Dropping the last reservation keeps the frontiers.
pub proof fn law_abandoning_keeps_the_frontiers(v: StreamView)
    requires
        frontiers_kept(v),
        v.unresolved.len() > 0,
    ensures
        frontiers_kept(StreamView { unresolved: v.unresolved.drop_last(), ..v }),
        reservations_advance(v.unresolved) ==> reservations_advance(v.unresolved.drop_last()),
{
}

/// Whether the members of a batch advance by one each.
pub open spec fn members_advance(candidates: Seq<FinalizeCandidate>) -> bool {
    forall|i: int|
        0 <= i < candidates.len() ==> (#[trigger] candidates[i]).1.after.0
            == candidates[i].1.before.0 + 1
}

/// The members of a batch that can be published advance by one where the
/// reservations do.
pub proof fn law_reserved_members_advance(
    v: StreamView,
    candidates: Seq<FinalizeCandidate>,
    sync_immediately: bool,
)
    requires
        stream::stream_kept(v),
        reservations_advance(v.unresolved),
        finalize::finalize_ready(v, candidates, sync_immediately),
    ensures
        members_advance(candidates),
{
    assert forall|i: int| 0 <= i < candidates.len() implies (#[trigger] candidates[i]).1.after.0
        == candidates[i].1.before.0 + 1 by {
        finalize::lemma_no_finalize_error(
            v,
            candidates,
            sync_immediately,
            candidates.len() as int,
            i,
        );
        load::lemma_record_position(v.unresolved, candidates[i].0);
        let found = load::record_position(v.unresolved, candidates[i].0)->0;
        assert(stream::identity_of(v.unresolved[found].batch) == candidates[i].1);
    }
}

/// Publishing a batch whose members advance by one keeps the frontiers, and
/// the committed frontier moves on to the end of the batch.
pub proof fn law_publishing_keeps_the_frontiers(
    v: StreamView,
    candidates: Seq<FinalizeCandidate>,
    sync_immediately: bool,
)
    requires
        stream::stream_kept(v),
        frontiers_kept(v),
        members_advance(candidates),
        finalize::finalize_ready(v, candidates, sync_immediately),
    ensures
        match finalize::promotion(
            finalize::markers_durable(v, candidates, sync_immediately),
            candidates,
            sync_immediately,
            candidates.len() as int,
        ) {
            Ok(done) => {
                &&& frontiers_kept(done)
                &&& stream::current_of(done.header, done.batches) == candidates.last().1.after
            },
            Err(stopped) => frontiers_kept(stopped),
        },
{
    let w = finalize::markers_durable(v, candidates, sync_immediately);
    let staged = finalize::markers_staged(v, candidates, candidates.len() as int);
    finalize::lemma_markers_durable(v, candidates, sync_immediately);
    finalize::lemma_markers_staged(v, candidates, candidates.len() as int);
    assert(frontiers_kept(staged));
    law_synchronizing_keeps_the_frontiers(staged);
    lemma_promotion_keeps_the_frontiers(
        v,
        w,
        candidates,
        sync_immediately,
        candidates.len() as int,
    );
}

/// Publishing a batch keeps what the other reservations advance by.
pub proof fn law_publishing_keeps_the_reservations(
    v: StreamView,
    candidates: Seq<FinalizeCandidate>,
    sync_immediately: bool,
)
    requires
        stream::stream_kept(v),
        reservations_advance(v.unresolved),
        finalize::finalize_ready(v, candidates, sync_immediately),
    ensures
        match finalize::promotion(
            finalize::markers_durable(v, candidates, sync_immediately),
            candidates,
            sync_immediately,
            candidates.len() as int,
        ) {
            Ok(done) => reservations_advance(done.unresolved),
            Err(stopped) => reservations_advance(stopped.unresolved),
        },
{
    let w = finalize::markers_durable(v, candidates, sync_immediately);
    finalize::lemma_markers_durable(v, candidates, sync_immediately);
    assert forall|i: int| 0 <= i < w.unresolved.len() implies (
    #[trigger] w.unresolved[i]).batch.after.0 == w.unresolved[i].batch.before.0 + 1 by {
        assert(w.unresolved[i].batch == v.unresolved[i].batch);
    }
    lemma_promotion_keeps_the_reservations(
        w,
        candidates,
        sync_immediately,
        candidates.len() as int,
    );
}

proof fn lemma_promotion_keeps_the_reservations(
    w: StreamView,
    candidates: Seq<FinalizeCandidate>,
    sync_immediately: bool,
    n: int,
)
    requires
        reservations_advance(w.unresolved),
        0 <= n <= candidates.len(),
    ensures
        match finalize::promotion(w, candidates, sync_immediately, n) {
            Ok(done) => reservations_advance(done.unresolved),
            Err(stopped) => reservations_advance(stopped.unresolved),
        },
    decreases n,
{
    if n > 0 {
        lemma_promotion_keeps_the_reservations(w, candidates, sync_immediately, n - 1);
        if let Ok(done) = finalize::promotion(w, candidates, sync_immediately, n - 1) {
            let candidate = candidates[n - 1];
            load::lemma_record_position(done.unresolved, candidate.0);
            if let Some(found) = load::record_position(done.unresolved, candidate.0) {
                let next = finalize::promoted(done, found, candidate, sync_immediately);
                assert forall|i: int| 0 <= i < next.unresolved.len() implies (
                #[trigger] next.unresolved[i]).batch.after.0 == next.unresolved[i].batch.before.0
                    + 1 by {
                    let earlier = if i < found {
                        i
                    } else {
                        i + 1
                    };
                    assert(next.unresolved[i] == done.unresolved[earlier]);
                }
            }
        }
    }
}

proof fn lemma_promotion_keeps_the_frontiers(
    v: StreamView,
    w: StreamView,
    candidates: Seq<FinalizeCandidate>,
    sync_immediately: bool,
    n: int,
)
    requires
        stream::stream_kept(v),
        finalize::finalize_ready(v, candidates, sync_immediately),
        stream::stream_kept(w),
        w.batches == v.batches,
        w.header == v.header,
        finalize::batches_from(w, v),
        finalize::markers_present(w, candidates),
        members_advance(candidates),
        frontiers_kept(w),
        0 <= n <= candidates.len(),
    ensures
        match finalize::promotion(w, candidates, sync_immediately, n) {
            Ok(done) => {
                &&& frontiers_kept(done)
                &&& n > 0 ==> stream::current_of(done.header, done.batches) == candidates[n
                    - 1].1.after
            },
            Err(stopped) => frontiers_kept(stopped),
        },
    decreases n,
{
    if n > 0 {
        lemma_promotion_keeps_the_frontiers(v, w, candidates, sync_immediately, n - 1);
        finalize::lemma_promotion_kept(v, w, candidates, sync_immediately, n - 1);
        finalize::lemma_promotion_kept(v, w, candidates, sync_immediately, n);
        if let Ok(done) = finalize::promotion(w, candidates, sync_immediately, n - 1) {
            let candidate = candidates[n - 1];
            load::lemma_record_position(done.unresolved, candidate.0);
            if let Some(found) = load::record_position(done.unresolved, candidate.0) {
                finalize::lemma_no_finalize_error(
                    v,
                    candidates,
                    sync_immediately,
                    candidates.len() as int,
                    n - 1,
                );
                load::lemma_record_position(v.unresolved, candidate.0);
                let origin = load::record_position(v.unresolved, candidate.0)->0;
                let j = choose|j: int|
                    0 <= j < v.unresolved.len() && (#[trigger] v.unresolved[j]).batch
                        == done.unresolved[found].batch;
                if origin < j {
                    assert(v.unresolved[origin].batch.physical_txn_id
                        != v.unresolved[j].batch.physical_txn_id);
                }
                assert(origin == j);
                assert(stream::identity_of(done.unresolved[found].batch) == candidate.1);
                lemma_promoted_keeps_the_frontiers(done, found, candidate, sync_immediately);
            }
        }
    }
}

proof fn lemma_promoted_keeps_the_frontiers(
    v: StreamView,
    found: int,
    candidate: FinalizeCandidate,
    sync_immediately: bool,
)
    requires
        frontiers_kept(v),
        0 <= found < v.unresolved.len(),
        stream::identity_of(v.unresolved[found].batch) == candidate.1,
        candidate.1.before == stream::current_of(v.header, v.batches),
        candidate.1.after.0 == candidate.1.before.0 + 1,
    ensures
        frontiers_kept(finalize::promoted(v, found, candidate, sync_immediately)),
{
    let next = finalize::promoted(v, found, candidate, sync_immediately);
    assert(next.batches.last().after == candidate.1.after);
    assert forall|i: int| 0 <= i < next.batches.len() implies (#[trigger] next.batches[i]).after.0
        == next.batches[i].before.0 + 1 by {
        if i < v.batches.len() {
            assert(next.batches[i] == v.batches[i]);
        }
    }
    if !sync_immediately {
        let sequence = next.batches.last().sequence;
        assert(next.pending_finalize_checkpoints.dom()
            =~= v.pending_finalize_checkpoints.dom().insert(sequence));
        assert(next.pending_finalize_checkpoints.dom().contains(sequence));
        assert(next.pending_finalize_checkpoints.len() > 0);
    }
}

/// Giving up history keeps the frontiers.
pub proof fn law_gc_keeps_the_frontiers(v: StreamView, frontier: StorageDataVersion, size: u64)
    requires
        stream::stream_kept(v),
        frontiers_kept(v),
        reclaim::gc_refused(v, Map::empty(), frontier) is None,
    ensures
        frontiers_kept(reclaim::reclaimed(v, frontier, size)),
        reclaim::reclaimed(v, frontier, size).unresolved == v.unresolved,
{
    let w = reclaim::reclaimed(v, frontier, size);
    let first = reclaim::first_behind(v.batches, frontier);
    reclaim::lemma_first_behind(v.batches, frontier);
    reclaim::law_gc_keeps_the_stream(v, frontier, size);
    assert forall|i: int| 0 <= i < w.batches.len() implies (#[trigger] w.batches[i]).after.0
        == w.batches[i].before.0 + 1 by {
        assert(w.batches[i] == v.batches[first + i]);
    }
}

} // verus!
