//! Opening a log after a crash: finalize markers that did not reach it are
//! put back, and nothing else changes.
use super::error;
use super::error::ChangeStreamError;
use super::history;
use super::load;
use super::load::{AuthoritativeOutcome, LogView, RecordView};
use super::log;
use super::log::Header;
use super::log_laws;
use super::manager;
use super::manager::{GuardFile, StateView};
use super::record;
use super::recover;
use super::recover::Scan;
use super::stream;
use super::stream::MARKER_BYTES;
use super::types::{BatchView, ChangeStorageKind};
use crate::bytes;
use crate::ids::{LsmCommitSeq, SchemaFingerprint, StorageId, TableId, TxnId};
use vstd::prelude::*;

verus! {

broadcast use crate::bytes::group_le_len;

/// The commit number of a record whose transaction committed.
pub open spec fn commit_of(entry: RecordView) -> Option<LsmCommitSeq> {
    entry.outcome->Committed_0
}

/// The batch of a record whose transaction committed.
pub open spec fn committed_batch(entry: RecordView) -> BatchView {
    BatchView {
        mutations: record::resolved_changes(entry.batch.mutations, commit_of(entry)),
        ..entry.batch
    }
}

/// The batches of records whose transactions committed.
pub open spec fn committed_batches(records: Seq<RecordView>) -> Seq<BatchView> {
    records.map_values(|entry: RecordView| committed_batch(entry))
}

/// Whether the transactions of all records committed, in the order of the
/// records, each with one record.
pub open spec fn all_committed(records: Seq<RecordView>, kind: ChangeStorageKind) -> bool {
    &&& forall|i: int, j: int|
        0 <= i < j < records.len() ==> (#[trigger] records[i]).batch.sequence < (
        #[trigger] records[j]).batch.sequence && records[i].batch.physical_txn_id
            != records[j].batch.physical_txn_id
    &&& forall|i: int|
        0 <= i < records.len() ==> {
            let entry = #[trigger] records[i];
            &&& entry.outcome is Committed
            &&& entry.batch.physical_txn_id.0 != 0
            &&& commit_of(entry) != Some(LsmCommitSeq(0))
            &&& kind == ChangeStorageKind::Lsm ==> commit_of(entry) is Some
            &&& record::committed_errors(committed_batch(entry).mutations, kind) is None
        }
}

/// The finalize markers of the first `n` records that are not in the log.
pub open spec fn missing_markers(records: Seq<RecordView>, n: int) -> Seq<Seq<u8>>
    decreases n,
{
    if n <= 0 {
        Seq::empty()
    } else if records[n - 1].finalized {
        missing_markers(records, n - 1)
    } else {
        missing_markers(records, n - 1).push(
            record::finalize_bytes(records[n - 1].batch.physical_txn_id, commit_of(records[n - 1])),
        )
    }
}

/// Pieces behind each other.
pub open spec fn joined(pieces: Seq<Seq<u8>>) -> Seq<u8>
    decreases pieces.len(),
{
    if pieces.len() == 0 {
        Seq::empty()
    } else {
        joined(pieces.drop_last()) + pieces.last()
    }
}

/// The records with the finalize markers of the first `n` in the log.
pub open spec fn markers_restored(records: Seq<RecordView>, n: int) -> Seq<RecordView> {
    Seq::new(
        records.len(),
        |i: int|
            if i < n && !records[i].finalized {
                load::finalized_record(records[i], commit_of(records[i]), MARKER_BYTES)
            } else {
                records[i]
            },
    )
}

/// Recovery takes all committed batches into the history, whether their
/// finalize markers are in the log or not. It asks for exactly the missing
/// markers, and leaves none that waits for a synchronization.
pub proof fn law_recovery_takes_all_committed(
    records: Seq<RecordView>,
    header: Header,
    file_bytes: u64,
)
    requires
        recover::records_sized(records),
        all_committed(records, header.kind),
        recover::chain_error(
            committed_batches(records),
            header.earliest,
            records.len() as int,
        ) is None,
        records.len() == 0 ==> header.earliest == header.current,
        header.current.0 <= stream::current_of(header, committed_batches(records)).0,
        records.len() > 0 ==> records.last().batch.sequence < u64::MAX,
        file_bytes + MARKER_BYTES * missing_markers(records, records.len() as int).len()
            <= u64::MAX,
    ensures
        ({
            let n = records.len() as int;
            let scan = recover::scanned(records, header, file_bytes, n);
            let missing = missing_markers(records, n);
            &&& scan.repairs == missing
            &&& match recover::recovered(scan) {
                Ok(v) => {
                    &&& v.header == header
                    &&& v.batches == committed_batches(records)
                    &&& v.unresolved.len() == 0
                    &&& v.pending_finalize_checkpoints.len() == 0
                    &&& v.file_bytes == file_bytes + MARKER_BYTES * missing.len()
                    &&& v.finalize_checkpointed_through == stream::current_of(header, v.batches)
                    &&& stream::current_of(header, v.batches).0 == header.earliest.0 + n
                },
                Err(_) => false,
            }
        }),
{
    let n = records.len() as int;
    let batches = committed_batches(records);
    lemma_scan_all_committed(records, header, file_bytes, n);
    assert(batches.take(n) =~= batches);
    assert(Map::<u64, TxnId>::empty().dom() =~= Set::empty());
    recover::law_checked_chain_has_no_gap(batches, header.earliest);
    if n > 0 {
        history::lemma_frontier_at(batches, header.earliest, n - 1);
    }
}

proof fn lemma_missing_monotone(records: Seq<RecordView>, n: int, m: int)
    requires
        0 <= n <= m,
    ensures
        missing_markers(records, n).len() <= missing_markers(records, m).len(),
    decreases m,
{
    if n < m {
        lemma_missing_monotone(records, n, m - 1);
    }
}

proof fn lemma_slot_at_the_end(batches: Seq<BatchView>, sequence: u64)
    requires
        forall|i: int| 0 <= i < batches.len() ==> (#[trigger] batches[i]).sequence <= sequence,
    ensures
        recover::batch_slot(batches, sequence) == batches.len(),
{
    recover::lemma_batch_slot(batches, sequence);
}

proof fn lemma_scan_all_committed(
    records: Seq<RecordView>,
    header: Header,
    file_bytes: u64,
    n: int,
)
    requires
        all_committed(records, header.kind),
        0 <= n <= records.len(),
        file_bytes + MARKER_BYTES * missing_markers(records, n).len() <= u64::MAX,
    ensures
        ({
            let scan = recover::scanned(records, header, file_bytes, n);
            &&& scan.error is None
            &&& scan.v.header == header
            &&& scan.v.file_bytes == file_bytes + MARKER_BYTES * missing_markers(records, n).len()
            &&& scan.v.batches == committed_batches(records).take(n)
            &&& scan.v.unresolved == Seq::<RecordView>::empty()
            &&& scan.v.pending_finalize_checkpoints == Map::<u64, TxnId>::empty()
            &&& scan.repairs == missing_markers(records, n)
            &&& scan.max_sequence == if n == 0 {
                0
            } else {
                records[n - 1].batch.sequence
            }
        }),
    decreases n,
{
    let batches = committed_batches(records);
    if n == 0 {
        assert(batches.take(0) =~= Seq::empty());
    } else {
        lemma_missing_monotone(records, n - 1, n);
        lemma_scan_all_committed(records, header, file_bytes, n - 1);
        let entry = records[n - 1];
        let batch = committed_batch(entry);
        assert(batches[n - 1] == batch);
        if n > 1 {
            assert(records[n - 2].batch.sequence < records[n - 1].batch.sequence);
        }
        assert(!recover::seen(records, n - 1, entry.batch.physical_txn_id)) by {
            if recover::seen(records, n - 1, entry.batch.physical_txn_id) {
                let i = choose|i: int|
                    0 <= i < n - 1 && (#[trigger] records[i]).batch.physical_txn_id
                        == entry.batch.physical_txn_id;
                assert(records[i].batch.physical_txn_id != records[n - 1].batch.physical_txn_id);
            }
        }
        assert forall|i: int| 0 <= i < n - 1 implies (#[trigger] batches.take(n - 1)[i]).sequence
            <= batch.sequence by {
            assert(records[i].batch.sequence < records[n - 1].batch.sequence);
        }
        lemma_slot_at_the_end(batches.take(n - 1), batch.sequence);
        assert(batches.take(n - 1).insert(n - 1, batch) =~= batches.take(n));
    }
}

/// Where a log that recovery read ends, it can be cut: what is left is the
/// same log, and whole.
pub proof fn law_cut_log_is_whole(s: Seq<u8>, refused: Set<Seq<u8>>)
    requires
        load::log_of(s, true, refused) is Ok,
        load::log_of(s, true, refused)->Ok_0.header.active,
    ensures
        ({
            let found = load::log_of(s, true, refused)->Ok_0;
            &&& 0 <= found.file_bytes <= s.len()
            &&& load::log_of(s.take(found.file_bytes), true, refused) == load::log_of(
                s,
                true,
                refused,
            )
            &&& log_laws::whole_log(s.take(found.file_bytes), true, refused)
        }),
{
    let found = load::log_of(s, true, refused)->Ok_0;
    let header = found.header;
    let size = log::header_size(header.version);
    lemma_front_size(s);
    lemma_entries_end(s, size, header, Seq::empty(), refused);
    let cut = s.take(found.file_bytes);
    let rest = s.skip(found.file_bytes);
    assert(cut + rest =~= s);
    bytes::lemma_at_prefix(cut, rest, 4);
    assert(cut.subrange(0, 4) =~= s.subrange(0, 4));
    assert(cut.subrange(0, size) =~= s.subrange(0, size));
    lemma_entries_cut(s, size, header, Seq::empty(), found.file_bytes, refused);
}

proof fn lemma_front_size(s: Seq<u8>)
    ensures
        load::front_of(s) matches Ok(header) ==> header.version == bytes::u16_at(s, 4)
            && log::header_size(header.version) <= s.len(),
{
    if load::front_of(s) is Ok {
        let size = log::header_size(bytes::u16_at(s, 4));
        let front = s.subrange(0, size);
        let rest = s.subrange(size, s.len() as int);
        assert(front + rest =~= s);
        bytes::lemma_at_prefix(front, rest, 4);
    }
}

proof fn lemma_entries_end(
    s: Seq<u8>,
    at: int,
    header: Header,
    records: Seq<RecordView>,
    refused: Set<Seq<u8>>,
)
    requires
        0 <= at <= s.len(),
    ensures
        load::entries_from(s, at, header, records, true, refused) matches Ok((_, end)) ==> at <= end
            <= s.len(),
    decreases s.len() - at,
{
    let length = bytes::u32_at(s, at);
    let end = at + 4 + length;
    if at < s.len() && at + 4 <= s.len() && end + 4 <= s.len() {
        let payload = s.subrange(at + 4, end);
        if let Ok(next) = load::entry_applied(
            records,
            payload,
            header,
            (8 + length) as u64,
            refused,
        ) {
            lemma_entries_end(s, end + 4, header, next, refused);
        }
    }
}

proof fn lemma_entries_cut(
    s: Seq<u8>,
    at: int,
    header: Header,
    records: Seq<RecordView>,
    stop: int,
    refused: Set<Seq<u8>>,
)
    requires
        0 <= at <= stop <= s.len(),
        load::entries_from(
            s,
            at,
            header,
            records,
            true,
            refused,
        ) matches Ok((_, end)) && end == stop,
    ensures
        load::entries_from(s.take(stop), at, header, records, true, refused) == load::entries_from(
            s,
            at,
            header,
            records,
            true,
            refused,
        ),
    decreases s.len() - at,
{
    let cut = s.take(stop);
    let rest = s.skip(stop);
    assert(cut + rest =~= s);
    if at < stop {
        let length = bytes::u32_at(s, at);
        let end = at + 4 + length;
        let payload = s.subrange(at + 4, end);
        let next = load::entry_applied(
            records,
            payload,
            header,
            (8 + length) as u64,
            refused,
        )->Ok_0;
        lemma_entries_end(s, end + 4, header, next, refused);
        bytes::lemma_at_prefix(cut, rest, at);
        bytes::lemma_at_prefix(cut, rest, end);
        assert(cut.subrange(at + 4, end) =~= payload);
        lemma_entries_cut(s, end + 4, header, next, stop, refused);
    } else {
        let length = bytes::u32_at(s, at);
        let end = at + 4 + length;
        if at + 4 <= s.len() && end + 4 <= s.len() {
            let payload = s.subrange(at + 4, end);
            if let Ok(next) = load::entry_applied(
                records,
                payload,
                header,
                (8 + length) as u64,
                refused,
            ) {
                lemma_entries_end(s, end + 4, header, next, refused);
            }
        }
    }
}

/// Appending the missing finalize markers to a whole log finalizes exactly
/// the records that had none.
pub proof fn law_restored_markers_are_read_back(
    s: Seq<u8>,
    records: Seq<RecordView>,
    n: int,
    refused: Set<Seq<u8>>,
)
    requires
        log_laws::whole_log(s, true, refused),
        all_committed(records, load::log_of(s, true, refused)->Ok_0.header.kind),
        same_but_outcomes(load::log_of(s, true, refused)->Ok_0.records, records),
        0 <= n <= records.len(),
    ensures
        ({
            let found = load::log_of(s, true, refused)->Ok_0;
            let t = s + joined(missing_markers(records, n));
            &&& log_laws::whole_log(t, true, refused)
            &&& load::log_of(t, true, refused)->Ok_0.header == found.header
            &&& same_but_outcomes(load::log_of(
                t,
                true,
                refused,
            )->Ok_0.records, markers_restored(records, n))
            &&& t.len() == s.len() + MARKER_BYTES * missing_markers(records, n).len()
        }),
    decreases n,
{
    let found = load::log_of(s, true, refused)->Ok_0;
    if n == 0 {
        assert(s + Seq::<u8>::empty() =~= s);
        assert(markers_restored(records, 0) =~= records);
    } else {
        law_restored_markers_are_read_back(s, records, n - 1, refused);
        let t0 = s + joined(missing_markers(records, n - 1));
        let before = load::log_of(t0, true, refused)->Ok_0.records;
        let entry = records[n - 1];
        if entry.finalized {
            assert(markers_restored(records, n) =~= markers_restored(records, n - 1));
        } else {
            let txn_id = entry.batch.physical_txn_id;
            let commit = commit_of(entry);
            let marker = record::finalize_bytes(txn_id, commit);
            let restored = markers_restored(records, n - 1);
            assert(restored[n - 1] == entry);
            assert(before[n - 1].batch == restored[n - 1].batch);
            assert forall|i: int| 0 <= i < n - 1 implies (
            #[trigger] before[i]).batch.physical_txn_id != txn_id by {
                assert(before[i].batch == restored[i].batch);
                assert(restored[i].batch == records[i].batch);
                assert(records[i].batch.physical_txn_id != records[n - 1].batch.physical_txn_id);
            }
            load::lemma_record_position_is(before, txn_id, n - 1);
            log_laws::law_appended_marker_is_read_back(t0, txn_id, commit, true, refused);
            let missing = missing_markers(records, n);
            assert(missing.drop_last() =~= missing_markers(records, n - 1));
            let t = s + joined(missing);
            assert(t =~= t0 + marker);
            let after = load::log_of(t, true, refused)->Ok_0.records;
            let wanted = markers_restored(records, n);
            assert forall|i: int| 0 <= i < after.len() implies same_but_outcome(
                #[trigger] after[i],
                wanted[i],
            ) by {
                assert(same_but_outcome(before[i], restored[i]));
            }
            assert(record::finalize_payload(txn_id, commit).len() == 24);
        }
    }
}

/// Whether a record differs at most in the outcome of a transaction without a
/// finalize marker.
pub open spec fn same_but_outcome(left: RecordView, right: RecordView) -> bool {
    if left.finalized {
        left == right
    } else {
        left == RecordView { outcome: left.outcome, ..right }
    }
}

/// Whether two lists of records differ at most in the outcomes of transactions
/// without a finalize marker.
pub open spec fn same_but_outcomes(left: Seq<RecordView>, right: Seq<RecordView>) -> bool {
    &&& left.len() == right.len()
    &&& forall|i: int| 0 <= i < left.len() ==> same_but_outcome(#[trigger] left[i], right[i])
}

/// A log whose transactions all committed, opened after a crash, and opened
/// once more after the missing finalize markers were appended where it ends:
/// the second opening finds all markers in place, needs no other, and takes
/// the same batches into the history, whatever outcomes it is told.
pub proof fn law_second_opening_needs_no_recovery(
    s: Seq<u8>,
    outcomes: Seq<AuthoritativeOutcome>,
    later: Seq<AuthoritativeOutcome>,
    refused: Set<Seq<u8>>,
)
    requires
        load::log_of(s, true, refused) is Ok,
        load::log_of(s, true, refused)->Ok_0.header.active,
        all_committed(
            load::with_outcomes(load::log_of(s, true, refused)->Ok_0.records, outcomes),
            load::log_of(s, true, refused)->Ok_0.header.kind,
        ),
    ensures
        ({
            let found = load::log_of(s, true, refused)->Ok_0;
            let records = load::with_outcomes(found.records, outcomes);
            let n = records.len() as int;
            let t = s.take(found.file_bytes) + joined(missing_markers(records, n));
            match load::log_of(t, true, refused) {
                Ok(again) => {
                    &&& again.header == found.header
                    &&& again.file_bytes == t.len()
                    &&& t.len() == found.file_bytes + MARKER_BYTES * missing_markers(
                        records,
                        n,
                    ).len()
                    &&& load::with_outcomes(again.records, later) == again.records
                    &&& all_committed(again.records, found.header.kind)
                    &&& committed_batches(again.records) == committed_batches(records)
                    &&& missing_markers(again.records, n).len() == 0
                },
                Err(_) => false,
            }
        }),
{
    let found = load::log_of(s, true, refused)->Ok_0;
    let records = load::with_outcomes(found.records, outcomes);
    let n = records.len() as int;
    let cut = s.take(found.file_bytes);
    law_cut_log_is_whole(s, refused);
    assert(same_but_outcomes(found.records, records));
    law_restored_markers_are_read_back(cut, records, n, refused);
    let t = cut + joined(missing_markers(records, n));
    let again = load::log_of(t, true, refused)->Ok_0;
    let restored = markers_restored(records, n);
    assert forall|i: int| 0 <= i < n implies #[trigger] again.records[i] == restored[i]
        && again.records[i].finalized by {
        assert(same_but_outcome(again.records[i], restored[i]));
        assert(restored[i].finalized);
    }
    assert(again.records =~= restored);
    assert(load::with_outcomes(again.records, later) =~= again.records);
    assert forall|i: int| 0 <= i < n implies committed_batch(#[trigger] restored[i])
        == committed_batch(records[i]) && commit_of(restored[i]) == commit_of(records[i]) by {
        assert(records[i].outcome is Committed);
    }
    assert(committed_batches(again.records) =~= committed_batches(records));
    assert(all_committed(again.records, found.header.kind)) by {
        assert forall|i: int, j: int| 0 <= i < j < n implies (
        #[trigger] again.records[i]).batch.sequence < (#[trigger] again.records[j]).batch.sequence
            && again.records[i].batch.physical_txn_id
            != again.records[j].batch.physical_txn_id by {
            assert(records[i].batch.sequence < records[j].batch.sequence);
        }
        assert forall|i: int| 0 <= i < n implies ({
            let entry = #[trigger] again.records[i];
            &&& entry.outcome is Committed
            &&& entry.batch.physical_txn_id.0 != 0
            &&& commit_of(entry) != Some(LsmCommitSeq(0))
            &&& found.header.kind == ChangeStorageKind::Lsm ==> commit_of(entry) is Some
            &&& record::committed_errors(committed_batch(entry).mutations, found.header.kind) is None
        }) by {
            assert(records[i].outcome is Committed);
            assert(committed_batch(restored[i]) == committed_batch(records[i]));
        }
    }
    lemma_none_missing(again.records, n);
}

proof fn lemma_none_missing(records: Seq<RecordView>, n: int)
    requires
        0 <= n <= records.len(),
        forall|i: int| 0 <= i < records.len() ==> (#[trigger] records[i]).finalized,
    ensures
        missing_markers(records, n).len() == 0,
    decreases n,
{
    if n > 0 {
        lemma_none_missing(records, n - 1);
        assert(records[n - 1].finalized);
    }
}

/// What recovery asks of records whose transactions all committed: batches
/// that follow each other without a gap from the earliest frontier to the
/// committed one or beyond it, and sizes and numbers that can be counted.
pub open spec fn recoverable(records: Seq<RecordView>, header: Header, file_bytes: int) -> bool {
    let n = records.len() as int;
    &&& all_committed(records, header.kind)
    &&& recover::chain_error(committed_batches(records), header.earliest, n) is None
    &&& n == 0 ==> header.earliest == header.current
    &&& header.current.0 <= stream::current_of(header, committed_batches(records)).0
    &&& n > 0 ==> records.last().batch.sequence < u64::MAX
    &&& file_bytes + MARKER_BYTES * missing_markers(records, n).len() <= u64::MAX
}

/// Whether recovery ends with a stream that is enabled, holds the batches up
/// to a frontier, has neither reservations nor finalize markers that wait, and
/// asks for some finalize markers and their one synchronization.
pub open spec fn recovered_with(
    scan: Scan,
    header: Header,
    batches: Seq<BatchView>,
    frontier: int,
    markers: Seq<Seq<u8>>,
) -> bool {
    let syncs = if markers.len() == 0 {
        0int
    } else {
        1
    };
    &&& scan.repairs == markers
    &&& manager::recovery_syncs(scan).total == syncs
    &&& manager::recovery_syncs(scan).recovery_finalize == syncs
    &&& match manager::recovered_state(scan, header) {
        StateView::Enabled { stream: v } => {
            &&& v.header == header
            &&& v.batches == batches
            &&& stream::current_of(v.header, v.batches).0 == frontier
            &&& v.finalize_checkpointed_through.0 == frontier
            &&& v.unresolved.len() == 0
            &&& v.pending_finalize_checkpoints.len() == 0
        },
        _ => false,
    }
}

proof fn lemma_recovered_with(found: LogView, outcomes: Seq<AuthoritativeOutcome>)
    requires
        recover::records_sized(found.records),
        0 <= found.file_bytes,
        recoverable(
            load::with_outcomes(found.records, outcomes),
            found.header,
            found.file_bytes,
        ),
    ensures
        ({
            let records = load::with_outcomes(found.records, outcomes);
            let n = records.len() as int;
            recovered_with(
                manager::recovery_of(
                    found.header,
                    found.file_bytes as u64,
                    found.records,
                    outcomes,
                ),
                found.header,
                committed_batches(records),
                found.header.earliest.0 + n,
                missing_markers(records, n),
            )
        }),
{
    let records = load::with_outcomes(found.records, outcomes);
    assert forall|i: int| 0 <= i < records.len() implies recover::sizes_loaded(
        #[trigger] records[i],
    ) by {
        assert(recover::sizes_loaded(found.records[i]));
    }
    law_recovery_takes_all_committed(records, found.header, found.file_bytes as u64);
}

/// A crash in the middle of an append, and what two openings make of it. The
/// log held `n` records whose transactions committed, some perhaps without a
/// finalize marker, and behind them the first bytes of one more entry.
///
/// The first opening leaves the torn entry out and recovers a stream with the
/// `n` batches, whose frontier is `n` behind the earliest one. It asks for the
/// missing markers and synchronizes once for all of them, or not at all where
/// none is missing. The second opening, of the log that was cut where it ends
/// and got those markers, recovers the same batches and the same frontiers,
/// asks for nothing and does not synchronize, whatever outcomes it is told.
pub proof fn law_torn_log_is_recovered_and_reopened(
    s: Seq<u8>,
    payload: Seq<u8>,
    written: int,
    kind: ChangeStorageKind,
    storage_id: StorageId,
    table_id: TableId,
    fingerprint: SchemaFingerprint,
    guard: GuardFile,
    outcomes: Seq<AuthoritativeOutcome>,
    later_guard: GuardFile,
    later: Seq<AuthoritativeOutcome>,
    refused: Set<Seq<u8>>,
)
    requires
        log_laws::whole_log(s, true, refused),
        0 < payload.len() <= log::CHANGE_LOG_MAX_RECORD_BYTES,
        0 <= written < record::framed(payload).len(),
        ({
            let found = load::log_of(s, true, refused)->Ok_0;
            &&& manager::header_is_ours(found.header, kind, storage_id, table_id, fingerprint)
            &&& manager::guard_error(guard, found.header) is None
            &&& manager::guard_error(later_guard, found.header) is None
            &&& recoverable(
                load::with_outcomes(found.records, outcomes),
                found.header,
                found.file_bytes,
            )
        }),
    ensures
        ({
            let found = load::log_of(s, true, refused)->Ok_0;
            let records = load::with_outcomes(found.records, outcomes);
            let n = records.len() as int;
            let batches = committed_batches(records);
            let missing = missing_markers(records, n);
            let torn = s + record::framed(payload).take(written);
            let repaired = torn.take(found.file_bytes) + joined(missing);
            let frontier = found.header.earliest.0 + n;
            let first = manager::opened_state(
                kind,
                storage_id,
                table_id,
                fingerprint,
                Some(torn),
                guard,
                refused,
            );
            let second = manager::opened_state(
                kind,
                storage_id,
                table_id,
                fingerprint,
                Some(repaired),
                later_guard,
                refused,
            );
            &&& first is None
            &&& load::log_of(torn, true, refused) == Ok::<LogView, ChangeStreamError>(found)
            &&& recovered_with(
                manager::recovery_of(
                    found.header,
                    found.file_bytes as u64,
                    found.records,
                    outcomes,
                ),
                found.header,
                batches,
                frontier,
                missing,
            )
            &&& second is None
            &&& match load::log_of(repaired, true, refused) {
                Ok(again) => {
                    &&& again.header == found.header
                    &&& again.file_bytes == repaired.len()
                    &&& recovered_with(
                        manager::recovery_of(
                            again.header,
                            again.file_bytes as u64,
                            again.records,
                            later,
                        ),
                        found.header,
                        batches,
                        frontier,
                        Seq::empty(),
                    )
                },
                Err(_) => false,
            }
        }),
{
    let found = load::log_of(s, true, refused)->Ok_0;
    let records = load::with_outcomes(found.records, outcomes);
    let n = records.len() as int;
    let missing = missing_markers(records, n);
    let torn = s + record::framed(payload).take(written);
    let repaired = torn.take(found.file_bytes) + joined(missing);
    log_laws::law_torn_append_is_left_out(s, payload, written, refused);
    recover::lemma_log_sized(s, true, refused);
    lemma_recovered_with(found, outcomes);
    law_second_opening_needs_no_recovery(torn, outcomes, later, refused);
    let again = load::log_of(repaired, true, refused)->Ok_0;
    recover::lemma_log_sized(repaired, true, refused);
    assert(again.records.len() == n) by {
        assert(committed_batches(again.records).len() == committed_batches(records).len());
    }
    if n > 0 {
        assert(committed_batches(again.records).last() == committed_batch(again.records.last()));
        assert(committed_batches(records).last() == committed_batch(records.last()));
    }
    lemma_recovered_with(again, later);
    assert(missing_markers(again.records, n) =~= Seq::empty());
}

/// A log with a whole entry whose check value is wrong is refused, at the
/// offset of that entry, and its stream is unavailable.
pub proof fn law_bad_check_value_makes_unavailable(
    s: Seq<u8>,
    payload: Seq<u8>,
    check: u32,
    rest: Seq<u8>,
    kind: ChangeStorageKind,
    storage_id: StorageId,
    table_id: TableId,
    fingerprint: SchemaFingerprint,
    guard: GuardFile,
    refused: Set<Seq<u8>>,
)
    requires
        log_laws::whole_log(s, true, refused),
        0 < payload.len() <= log::CHANGE_LOG_MAX_RECORD_BYTES,
        check != crate::checksum::crc32c_of(payload),
    ensures
        ({
            let t = s + (bytes::u32_le(payload.len() as u32) + payload + bytes::u32_le(check))
                + rest;
            let refusal = ChangeStreamError::ChecksumMismatch { offset: s.len() as u64 };
            &&& load::log_of(t, true, refused) == Err::<LogView, ChangeStreamError>(refusal)
            &&& manager::opened_state(
                kind,
                storage_id,
                table_id,
                fingerprint,
                Some(t),
                guard,
                refused,
            )
                == Some(
                StateView::Unavailable {
                    generation: manager::guard_generation(guard),
                    reason: error::message(refusal),
                },
            )
        }),
{
    log_laws::lemma_bad_check_value(s, payload, check, rest, true, refused);
}

} // verus!
