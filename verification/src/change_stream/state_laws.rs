//! How a stream starts, stops and counts.
use super::durable;
use super::durable::{ChangeStreamSyncCounts, DurableCandidate, DurablePlan, SyncReason};
use super::error;
use super::finalize;
use super::finalize::FinalizeCandidate;
use super::load;
use super::load::{AuthoritativeOutcome, RecordView};
use super::log;
use super::log::Header;
use super::manager;
use super::manager::{ChangeStreamManager, GuardFile, StateView, StreamState};
use super::operations;
use super::pending;
use super::pins::ChangeStreamRetentionPin;
use super::publish;
use super::read_laws;
use super::reclaim;
use super::recover;
use super::stream::{ChangeStreamCursor, StreamView};
use super::types::{ChangeStorageKind, StorageChange, StorageVersionKey};
use crate::ids::{SchemaFingerprint, StorageDataVersion, StorageId, TableId, TxnId};
use vstd::prelude::*;

verus! {

// ---------------------------------------------------------------------------
// Opening
// ---------------------------------------------------------------------------
/// Whether a guard does not stand against a log: there is none, or it is of the same
/// active stream.
pub open spec fn guard_agrees(guard: GuardFile, header: Header) -> bool {
    match guard {
        GuardFile::Missing => true,
        GuardFile::Unreadable(_) => false,
        GuardFile::Found(bytes) => match log::header_of(bytes@, log::header_check(bytes@)) {
            Err(_) => false,
            Ok(found) => {
                &&& found.active && header.active
                &&& found.kind == header.kind
                &&& found.storage_id == header.storage_id
                &&& found.table_id == header.table_id
                &&& found.fingerprint == header.fingerprint
                &&& found.generation == header.generation
            },
        },
    }
}

/// Where a stream stands after its files were looked at. Without a log it is
/// disabled where there is no guard, and unavailable where there is one. A log that
/// cannot be read, or is of another storage, makes it unavailable. A log of a
/// disabled stream makes it disabled, with the generation of the log. A log of an
/// active stream is recovered, unless a guard stands against it.
pub proof fn law_how_files_open(
    kind: ChangeStorageKind,
    storage_id: StorageId,
    table_id: TableId,
    fingerprint: SchemaFingerprint,
    contents: Option<Seq<u8>>,
    guard: GuardFile,
    refused: Set<Seq<u8>>,
)
    ensures
        ({
            let opened = manager::opened_state(
                kind,
                storage_id,
                table_id,
                fingerprint,
                contents,
                guard,
                refused,
            );
            match contents {
                None => match opened {
                    Some(StateView::Disabled { generation }) => guard is Missing && generation.0
                        == 0,
                    Some(StateView::Unavailable { .. }) => !(guard is Missing),
                    _ => false,
                },
                Some(s) => {
                    let read = load::log_of(s, true, refused);
                    let header = read->Ok_0.header;
                    let ours = read is Ok && header.kind == kind && header.storage_id == storage_id
                        && header.table_id == table_id && header.fingerprint == fingerprint;
                    match opened {
                        None => ours && header.active && guard_agrees(guard, header),
                        Some(StateView::Disabled { generation }) => ours && !header.active
                            && generation == header.generation,
                        Some(StateView::Unavailable { generation, .. }) => {
                            &&& !ours || (header.active && !guard_agrees(guard, header))
                            &&& read is Ok ==> generation == Some(header.generation)
                        },
                        _ => false,
                    }
                },
            }
        }),
{
}

/// A record that has its finalize marker keeps its outcome; any other gets the one
/// that it is told. Nothing else of a record changes.
pub proof fn law_told_outcomes(records: Seq<RecordView>, outcomes: Seq<AuthoritativeOutcome>)
    ensures
        ({
            let told = load::with_outcomes(records, outcomes);
            &&& told.len() == records.len()
            &&& forall|i: int|
                0 <= i < records.len() ==> {
                    let entry = #[trigger] told[i];
                    &&& entry == RecordView { outcome: entry.outcome, ..records[i] }
                    &&& entry.outcome == if records[i].finalized {
                        records[i].outcome
                    } else {
                        outcomes[i]
                    }
                }
        }),
{
}

/// A log is recovered by the outcomes that its records are told. A stream that comes
/// of it is enabled; else it is unavailable, with the generation of the log and the
/// reason. One synchronization is counted where markers were put back.
pub proof fn law_recovered_state(
    header: Header,
    file_bytes: u64,
    records: Seq<RecordView>,
    outcomes: Seq<AuthoritativeOutcome>,
)
    ensures
        ({
            let scan = manager::recovery_of(header, file_bytes, records, outcomes);
            let counts = manager::recovery_syncs(scan);
            &&& scan == recover::scanned(
                load::with_outcomes(records, outcomes),
                header,
                file_bytes,
                records.len() as int,
            )
            &&& match recover::recovered(scan) {
                Ok(stream) => manager::recovered_state(scan, header) == StateView::Enabled {
                    stream,
                },
                Err(error) => manager::recovered_state(scan, header) == StateView::Unavailable {
                    generation: Some(header.generation),
                    reason: error::message(error),
                },
            }
            &&& counts.total == counts.recovery_finalize
            &&& counts.total == if recover::recovered(scan) is Ok && scan.repairs.len() > 0 {
                1
            } else {
                0int
            }
            &&& counts.member_prepare == 0 && counts.group_prepare == 0
            &&& counts.member_finalize == 0 && counts.group_finalize == 0
            &&& counts.pipelined_finalize_checkpoint == 0 && counts.combined_finalize_prepare == 0
            &&& counts.explicit_finalize_checkpoint == 0
        }),
{
}

// ---------------------------------------------------------------------------
// Enabling and disabling
// ---------------------------------------------------------------------------
/// The generation that a state knows, or zero.
pub open spec fn known_generation(state: StateView) -> int {
    match state {
        StateView::Disabled { generation } => generation.0 as int,
        StateView::Enabled { stream } => stream.header.generation.0 as int,
        StateView::Unavailable { generation: Some(known), .. } => known.0 as int,
        StateView::Unavailable { generation: None, .. } => 0,
    }
}

/// Enabling starts the next generation at the baseline, with nothing in it.
pub proof fn law_enabling_starts_a_generation(
    known: ChangeStreamManager,
    baseline: StorageDataVersion,
)
    requires
        known_generation(known.state@) < u64::MAX,
    ensures
        ({
            let header = operations::enabling_header(known, baseline);
            let stream = operations::fresh_stream(header);
            &&& header.version == 2
            &&& header.active
            &&& header.kind == known.kind
            &&& header.storage_id == known.storage_id
            &&& header.table_id == known.table_id
            &&& header.fingerprint == known.fingerprint
            &&& header.generation.0 == known_generation(known.state@) + 1
            &&& header.origin == baseline
            &&& header.earliest == baseline
            &&& header.current == baseline
            &&& header.next_sequence == 1
            &&& stream.header == header
            &&& stream.batches.len() == 0
            &&& stream.batch_file_bytes.len() == 0
            &&& stream.unresolved.len() == 0
            &&& stream.finalize_versions == Map::<
                u64,
                Option<crate::ids::LsmCommitSeq>,
            >::empty()
            &&& stream.pending_finalize_checkpoints == Map::<u64, TxnId>::empty()
            &&& stream.finalize_checkpointed_through == baseline
            &&& stream.next_sequence == 1
        }),
{
}

/// Disabling keeps the generation and leaves an inactive log with nothing in it.
pub proof fn law_disabling_keeps_the_generation(known: ChangeStreamManager)
    ensures
        ({
            let header = operations::disabling_header(known);
            &&& header.version == 2
            &&& !header.active
            &&& header.kind == known.kind
            &&& header.storage_id == known.storage_id
            &&& header.table_id == known.table_id
            &&& header.fingerprint == known.fingerprint
            &&& header.generation.0 == known_generation(known.state@)
            &&& header.origin.0 == 0 && header.earliest.0 == 0 && header.current.0 == 0
            &&& header.next_sequence == 1
        }),
{
}

// ---------------------------------------------------------------------------
// Counting
// ---------------------------------------------------------------------------
/// A count with one more, or the largest count.
pub open spec fn more(count: u64, counted: bool) -> int {
    if counted && count < u64::MAX {
        count + 1
    } else {
        count as int
    }
}

/// A synchronization is counted once in all, once under its reason, and under those
/// of finalize markers where some waited for one.
pub proof fn law_counted_synchronization(
    counts: ChangeStreamSyncCounts,
    reason: SyncReason,
    waited: bool,
)
    ensures
        ({
            let after = durable::counted(counts, reason, waited);
            &&& after.total == more(counts.total, true)
            &&& after.member_prepare == more(
                counts.member_prepare,
                reason == SyncReason::MemberPrepare,
            )
            &&& after.group_prepare == more(
                counts.group_prepare,
                reason == SyncReason::GroupPrepare,
            )
            &&& after.member_finalize == more(
                counts.member_finalize,
                reason == SyncReason::MemberFinalize,
            )
            &&& after.group_finalize == more(
                counts.group_finalize,
                reason == SyncReason::GroupFinalize,
            )
            &&& after.explicit_finalize_checkpoint == more(
                counts.explicit_finalize_checkpoint,
                reason == SyncReason::ExplicitFinalizeCheckpoint,
            )
            &&& after.pipelined_finalize_checkpoint == more(
                counts.pipelined_finalize_checkpoint,
                waited,
            )
            &&& after.combined_finalize_prepare == more(
                counts.combined_finalize_prepare,
                waited && (reason == SyncReason::MemberPrepare || reason
                    == SyncReason::GroupPrepare),
            )
            &&& after.recovery_finalize == counts.recovery_finalize
        }),
{
}

/// A synchronization covers all finalize markers that waited for one, and changes
/// nothing else.
pub proof fn law_synchronization_covers_all_markers(v: StreamView)
    requires
        v.pending_finalize_checkpoints.dom().finite(),
    ensures
        ({
            let w = durable::synced(v);
            &&& w.pending_finalize_checkpoints == Map::<u64, TxnId>::empty()
            &&& w.finalize_checkpointed_through == if v.pending_finalize_checkpoints == Map::<
                u64,
                TxnId,
            >::empty() {
                v.finalize_checkpointed_through
            } else {
                read_laws::committed_frontier(v)
            }
            &&& w == StreamView {
                pending_finalize_checkpoints: w.pending_finalize_checkpoints,
                finalize_checkpointed_through: w.finalize_checkpointed_through,
                ..v
            }
        }),
{
    if v.pending_finalize_checkpoints.len() == 0 {
        assert(v.pending_finalize_checkpoints.dom() =~= Set::<u64>::empty());
        assert(v.pending_finalize_checkpoints =~= Map::<u64, TxnId>::empty());
    } else {
        assert(Map::<u64, TxnId>::empty().dom() =~= Set::<u64>::empty());
    }
}

/// What is reported of members that were made durable: how many, their bytes, from
/// which sequence and frontier to which, whether it took a synchronization, and how
/// many finalize markers this covered.
pub proof fn law_reported_durability(
    v: StreamView,
    candidates: Seq<DurableCandidate>,
    plan: DurablePlan,
)
    requires
        0 < candidates.len() <= usize::MAX,
        v.pending_finalize_checkpoints.len() <= usize::MAX,
    ensures
        ({
            let report = durable::durable_report(v, candidates, plan);
            let n = candidates.len() as int;
            &&& report.changing_member_count == n
            &&& report.records_staged == n
            &&& report.record_bytes == plan.record_bytes
            &&& report.syncs == if plan.needs_sync {
                1
            } else {
                0int
            }
            &&& report.first_sequence == candidates[0].2.sequence
            &&& report.last_sequence == candidates[n - 1].2.sequence
            &&& report.before_frontier == candidates[0].2.before
            &&& report.after_reserved_frontier == candidates[n - 1].2.after
            &&& report.prior_finalize_checkpoints_checkpointed == if plan.needs_sync {
                v.pending_finalize_checkpoints.len() as int
            } else {
                0
            }
        }),
{
}

/// What is reported of members that were published before: how many, and from which
/// frontier to which; nothing was done for them.
pub proof fn law_reported_publication(v: StreamView, candidates: Seq<FinalizeCandidate>)
    requires
        0 < candidates.len() <= usize::MAX,
        v.pending_finalize_checkpoints.len() <= usize::MAX,
    ensures
        ({
            let report = finalize::published_report(v, candidates);
            let n = candidates.len() as int;
            &&& report.finalized_member_count == n
            &&& report.markers_staged == 0
            &&& report.marker_bytes == 0
            &&& report.syncs == 0
            &&& report.before_committed_frontier == candidates[0].1.before
            &&& report.after_committed_frontier == candidates[n - 1].1.after
            &&& report.pending_finalize_checkpoints_after
                == v.pending_finalize_checkpoints.len()
        }),
{
}

/// Each batch of the history is listed for maintenance, with where it starts and
/// ends, how many changes it holds, and how many bytes it takes.
pub proof fn law_listed_batches(v: StreamView, i: int)
    requires
        0 <= i < v.batches.len(),
        v.batches[i].mutations.len() <= u64::MAX,
    ensures
        publish::maintenance_batches(v).len() == v.batches.len(),
        ({
            let entry = publish::maintenance_batches(v)[i];
            &&& entry.before == v.batches[i].before
            &&& entry.after == v.batches[i].after
            &&& entry.mutation_count == v.batches[i].mutations.len()
            &&& entry.change_bytes == v.batch_file_bytes[i].change_bytes
            &&& entry.retained_file_bytes == v.batch_file_bytes[i].retained_file_bytes
        }),
{
}

// ---------------------------------------------------------------------------
// Pins
// ---------------------------------------------------------------------------
/// Whether a stream can be read from a frontier.
pub open spec fn can_be_read_from(v: StreamView, frontier: StorageDataVersion) -> bool {
    v.header.earliest.0 <= frontier.0 <= read_laws::committed_frontier(v).0
}

/// A frontier can be pinned exactly where the stream is enabled, the cursor is of it
/// and can be read from, and there is a number left.
pub proof fn law_when_a_frontier_can_be_pinned(
    known: ChangeStreamManager,
    cursor: ChangeStreamCursor,
)
    ensures
        operations::pin_refused(known, cursor) is None <==> match known.state {
            StreamState::Enabled { stream } => {
                &&& cursor.storage_id == stream@.header.storage_id
                &&& cursor.generation == stream@.header.generation
                &&& can_be_read_from(stream@, cursor.frontier)
                &&& known.retention_pins.next_id < u64::MAX
            },
            _ => false,
        },
{
}

/// A pin can be moved exactly where it is registered here, its stream is enabled,
/// and the frontier is not in front of where it is and can be read from.
pub proof fn law_when_a_pin_can_be_moved(
    known: ChangeStreamManager,
    pin: ChangeStreamRetentionPin,
    registered_here: bool,
    frontier: StorageDataVersion,
)
    ensures
        operations::advance_refused(known, pin, registered_here, frontier) is None <==> {
            let pins = known.retention_pins.pins@;
            &&& pin.frontier.0 <= frontier.0
            &&& known.state matches StreamState::Enabled { stream } && {
                &&& pin.storage_id == stream@.header.storage_id
                &&& pin.generation == stream@.header.generation
                &&& can_be_read_from(stream@, frontier)
            }
            &&& registered_here
            &&& pin.active
            &&& pins.contains_key(pin.id)
            &&& pins[pin.id].storage_id == pin.storage_id
            &&& pins[pin.id].generation == pin.generation
        },
{
}

// ---------------------------------------------------------------------------
// Folding
// ---------------------------------------------------------------------------
/// Whether a change of a transaction creates a row version.
pub open spec fn creates<R>(change: StorageChange<R>, key: StorageVersionKey) -> bool {
    match change {
        StorageChange::Insert { new_version, .. } => new_version == key,
        StorageChange::Update { new_version, .. } => new_version == key,
        StorageChange::Delete { .. } => false,
    }
}

proof fn lemma_position<R>(changes: Seq<StorageChange<R>>, key: StorageVersionKey)
    ensures
        match pending::position_of(changes, key) {
            Some(found) => {
                &&& 0 <= found < changes.len()
                &&& creates(changes[found], key)
                &&& forall|i: int| 0 <= i < found ==> !creates(#[trigger] changes[i], key)
            },
            None => forall|i: int| 0 <= i < changes.len() ==> !creates(#[trigger] changes[i], key),
        },
    decreases changes.len(),
{
    if changes.len() > 0 {
        let front = changes.drop_last();
        lemma_position(front, key);
        assert forall|i: int| 0 <= i < front.len() implies #[trigger] changes[i] == front[i] by {}
    }
}

/// A change of a row version that the transaction did not create goes behind its
/// other changes. One that it did create changes the first change that created it:
/// an update of it takes the new version and row over and still replaces what was
/// replaced; a deletion of it takes an insert away, and makes an update the deletion
/// of what was replaced. All other changes stay, in order.
pub proof fn law_folding<R>(
    changes: Seq<StorageChange<R>>,
    old_version: StorageVersionKey,
    new_version: StorageVersionKey,
    after: R,
)
    ensures
        (forall|i: int|
            0 <= i < changes.len() ==> !creates(#[trigger] changes[i], old_version)) ==> {
            &&& pending::after_update(changes, old_version, new_version, after) == changes.push(
                StorageChange::Update { old_version, new_version, after },
            )
            &&& pending::after_delete(changes, old_version) == changes.push(
                StorageChange::Delete { old_version },
            )
        },
        forall|found: int|
            0 <= found < changes.len() && #[trigger] creates(changes[found], old_version)
                && (forall|i: int|
                0 <= i < found ==> !creates(#[trigger] changes[i], old_version)) ==> {
                let updated = pending::after_update(changes, old_version, new_version, after);
                let deleted = pending::after_delete(changes, old_version);
                match changes[found] {
                    StorageChange::Insert { .. } => {
                        &&& updated == changes.update(
                            found,
                            StorageChange::Insert { new_version, after },
                        )
                        &&& deleted == changes.take(found) + changes.skip(found + 1)
                    },
                    StorageChange::Update { old_version: first, .. } => {
                        &&& updated == changes.update(
                            found,
                            StorageChange::Update { old_version: first, new_version, after },
                        )
                        &&& deleted == changes.update(
                            found,
                            StorageChange::Delete { old_version: first },
                        )
                    },
                    StorageChange::Delete { .. } => false,
                }
            },
{
    lemma_position(changes, old_version);
    assert forall|found: int|
        0 <= found < changes.len() && #[trigger] creates(changes[found], old_version) && (forall|
            i: int,
        | 0 <= i < found ==> !creates(#[trigger] changes[i], old_version)) implies {
        let updated = pending::after_update(changes, old_version, new_version, after);
        let deleted = pending::after_delete(changes, old_version);
        match changes[found] {
            StorageChange::Insert { .. } => {
                &&& updated == changes.update(found, StorageChange::Insert { new_version, after })
                &&& deleted == changes.take(found) + changes.skip(found + 1)
            },
            StorageChange::Update { old_version: first, .. } => {
                &&& updated == changes.update(
                    found,
                    StorageChange::Update { old_version: first, new_version, after },
                )
                &&& deleted == changes.update(found, StorageChange::Delete { old_version: first })
            },
            StorageChange::Delete { .. } => false,
        }
    } by {
        let place = pending::position_of(changes, old_version)->0;
        assert(pending::position_of(changes, old_version) is Some);
        if place < found {
            assert(!creates(changes[place], old_version));
        } else if found < place {
            assert(!creates(changes[found], old_version));
        }
        assert(changes.remove(found) =~= changes.take(found) + changes.skip(found + 1));
    }
}

// ---------------------------------------------------------------------------
// Checks
// ---------------------------------------------------------------------------
/// Whether the history has a batch of a transaction.
pub open spec fn has_batch_of(v: StreamView, txn_id: TxnId) -> bool {
    exists|k: int| 0 <= k < v.batches.len() && (#[trigger] v.batches[k]).physical_txn_id == txn_id
}

/// Members were published before exactly where the history has a batch of each.
pub proof fn law_published_members(v: StreamView, candidates: Seq<FinalizeCandidate>)
    ensures
        finalize::all_published(v, candidates) <==> forall|i: int|
            0 <= i < candidates.len() ==> has_batch_of(v, (#[trigger] candidates[i]).0),
{
    assert forall|txn_id: TxnId| #[trigger]
        finalize::is_published(v, txn_id) <==> has_batch_of(v, txn_id) by {}
}

/// A log passes the check for a table exactly where it can be read whole, is of the
/// table and its schema, and, where its stream is active, can be recovered.
pub proof fn law_checked_log(
    s: Seq<u8>,
    table_id: TableId,
    fingerprint: Option<SchemaFingerprint>,
    refused: Set<Seq<u8>>,
)
    ensures
        publish::log_refused(s, table_id, fingerprint, refused) is None <==> {
            let read = load::log_of(s, false, refused);
            let found = read->Ok_0;
            &&& read is Ok
            &&& found.header.table_id == table_id
            &&& fingerprint == Some(found.header.fingerprint)
            &&& found.header.active ==> recover::recovered(
                recover::scanned(
                    found.records,
                    found.header,
                    found.file_bytes as u64,
                    found.records.len() as int,
                ),
            ) is Ok
        },
{
}

/// What is reported where nothing was reclaimed: the log as it is.
pub proof fn law_reported_without_reclamation(v: StreamView)
    ensures
        ({
            let report = reclaim::gc_report_unchanged(v);
            &&& report.storage_id == v.header.storage_id
            &&& report.generation == v.header.generation
            &&& report.previous_earliest_frontier == v.header.earliest
            &&& report.new_earliest_frontier == v.header.earliest
            &&& report.current_frontier == read_laws::committed_frontier(v)
            &&& report.batches_removed == 0
            &&& report.mutations_removed == 0
            &&& report.bytes_before == v.file_bytes
            &&& report.bytes_after == v.file_bytes
            &&& report.bytes_reclaimed == 0
        }),
{
}

} // verus!
