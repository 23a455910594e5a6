//! Rebuilding an enabled stream from its log.
use super::error::ChangeStreamError;
use super::history;
use super::load;
use super::load::{AuthoritativeOutcome, PreparedRecord, RecordView};
use super::log::Header;
use super::record;
use super::record_laws;
use super::stream;
use super::stream::{BatchFileBytes, EnabledStream, StreamView, MARKER_BYTES};
use super::types;
use super::types::{BatchView, ChangeBatch, ChangeStorageKind};
use crate::ids::{LsmCommitSeq, StorageDataVersion, TxnId};
use std::collections::BTreeMap;
use vstd::prelude::*;

verus! {

broadcast use {
    crate::bytes::group_le_len,
    vstd::std_specs::btree::group_btree_axioms,
    vstd::laws_cmp::group_laws_cmp,
};

// ---------------------------------------------------------------------------
// The committed chain
// ---------------------------------------------------------------------------
/// Why the first `n` batches are no chain from a frontier: the reason of the
/// first that breaks it.
pub open spec fn chain_error(
    batches: Seq<BatchView>,
    baseline: StorageDataVersion,
    n: int,
) -> Option<ChangeStreamError>
    decreases n,
{
    if n <= 0 {
        None
    } else if let Some(error) = chain_error(batches, baseline, n - 1) {
        Some(error)
    } else {
        let batch = batches[n - 1];
        let expected = stream::frontier_before(batches, baseline, n - 1);
        if batch.before != expected {
            Some(ChangeStreamError::ChangeGap { expected, actual: batch.before })
        } else if batch.before.0 == u64::MAX {
            Some(ChangeStreamError::VersionExhausted)
        } else if batch.after.0 != batch.before.0 + 1 {
            Some(ChangeStreamError::InvalidRecord("data version does not advance by one"))
        } else {
            None
        }
    }
}

proof fn lemma_chain_error_prefix(
    batches: Seq<BatchView>,
    baseline: StorageDataVersion,
    n: int,
    m: int,
)
    requires
        0 <= n <= m,
        chain_error(batches, baseline, n) is Some,
    ensures
        chain_error(batches, baseline, m) == chain_error(batches, baseline, n),
    decreases m,
{
    if n < m {
        lemma_chain_error_prefix(batches, baseline, n, m - 1);
    }
}

/// Batches that pass the chain check follow each other without a gap, and each
/// advances the frontier by one.
pub proof fn law_checked_chain_has_no_gap(batches: Seq<BatchView>, baseline: StorageDataVersion)
    requires
        chain_error(batches, baseline, batches.len() as int) is None,
    ensures
        stream::contiguous(batches, baseline),
        history::advancing(batches),
{
    assert forall|i: int| 0 <= i < batches.len() implies batches[i].before
        == #[trigger] stream::frontier_before(batches, baseline, i) by {
        lemma_chain_link(batches, baseline, batches.len() as int, i);
    }
    assert forall|i: int| 0 <= i < batches.len() implies (#[trigger] batches[i]).after.0
        == batches[i].before.0 + 1 by {
        lemma_chain_link(batches, baseline, batches.len() as int, i);
    }
}

proof fn lemma_chain_link(
    batches: Seq<BatchView>,
    baseline: StorageDataVersion,
    n: int,
    i: int,
)
    requires
        chain_error(batches, baseline, n) is None,
        0 <= i < n,
    ensures
        batches[i].before == stream::frontier_before(batches, baseline, i),
        batches[i].after.0 == batches[i].before.0 + 1,
    decreases n,
{
    if i < n - 1 {
        lemma_chain_link(batches, baseline, n - 1, i);
    }
}

/// Checks that committed batches are a chain from a frontier.
pub fn validate_committed_chain(baseline: StorageDataVersion, batches: &[ChangeBatch]) -> (checked:
    Result<(), ChangeStreamError>)
    ensures
        match chain_error(types::batches_view(batches@), baseline, batches@.len() as int) {
            Some(error) => checked == Err::<(), ChangeStreamError>(error),
            None => checked == Ok::<(), ChangeStreamError>(()),
        },
{
    let ghost views = types::batches_view(batches@);
    let mut expected: StorageDataVersion = baseline;
    let mut i: usize = 0;
    while i < batches.len()
        invariant
            i <= batches@.len(),
            views == types::batches_view(batches@),
            expected == stream::frontier_before(views, baseline, i as int),
            chain_error(views, baseline, i as int) is None,
        decreases batches@.len() - i,
    {
        let batch = &batches[i];
        proof {
            assert(views[i as int] == batch@);
            if chain_error(views, baseline, i + 1) is Some {
                lemma_chain_error_prefix(views, baseline, i + 1, views.len() as int);
            }
        }
        if batch.before != expected {
            return Err(ChangeStreamError::ChangeGap { expected, actual: batch.before });
        }
        if batch.before.0 == u64::MAX {
            return Err(ChangeStreamError::VersionExhausted);
        }
        if batch.after.0 != batch.before.0 + 1 {
            return Err(ChangeStreamError::InvalidRecord("data version does not advance by one"));
        }
        expected = batch.after;
        i = i + 1;
    }
    Ok(())
}

// ---------------------------------------------------------------------------
// Scanning the records
// ---------------------------------------------------------------------------
/// Where a reservation belongs among ordered ones.
pub open spec fn reservation_slot(records: Seq<RecordView>, entry: RecordView) -> int
    decreases records.len(),
{
    if records.len() == 0 {
        0
    } else {
        let earlier = reservation_slot(records.drop_last(), entry);
        if earlier == records.len() - 1 && stream::ordered_before(records.last(), entry) {
            records.len() as int
        } else {
            earlier
        }
    }
}

pub proof fn lemma_reservation_slot(records: Seq<RecordView>, entry: RecordView)
    ensures
        ({
            let slot = reservation_slot(records, entry);
            &&& 0 <= slot <= records.len()
            &&& slot < records.len() ==> !stream::ordered_before(records[slot], entry)
            &&& forall|i: int|
                0 <= i < slot ==> stream::ordered_before(#[trigger] records[i], entry)
        }),
    decreases records.len(),
{
    if records.len() > 0 {
        let earlier = records.drop_last();
        lemma_reservation_slot(earlier, entry);
        assert forall|i: int| 0 <= i < earlier.len() implies #[trigger] records[i] == earlier[i] by {}
    }
}

/// Where a committed batch belongs among batches in the order of their
/// sequence: behind all that do not come after it.
pub open spec fn batch_slot(batches: Seq<BatchView>, sequence: u64) -> int
    decreases batches.len(),
{
    if batches.len() == 0 {
        0
    } else {
        let earlier = batch_slot(batches.drop_last(), sequence);
        if earlier == batches.len() - 1 && batches.last().sequence <= sequence {
            batches.len() as int
        } else {
            earlier
        }
    }
}

pub proof fn lemma_batch_slot(batches: Seq<BatchView>, sequence: u64)
    ensures
        ({
            let slot = batch_slot(batches, sequence);
            &&& 0 <= slot <= batches.len()
            &&& slot < batches.len() ==> batches[slot].sequence > sequence
            &&& forall|i: int| 0 <= i < slot ==> (#[trigger] batches[i]).sequence <= sequence
        }),
    decreases batches.len(),
{
    if batches.len() > 0 {
        let earlier = batches.drop_last();
        lemma_batch_slot(earlier, sequence);
        assert forall|i: int| 0 <= i < earlier.len() implies #[trigger] batches[i] == earlier[i] by {}
    }
}

/// What the records say so far.
pub struct Scan {
    pub v: StreamView,
    /// The finalize markers that are missing in the log.
    pub repairs: Seq<Seq<u8>>,
    pub max_sequence: u64,
    /// Why the records are refused, if they are.
    pub error: Option<ChangeStreamError>,
}

/// The scan before the first record.
pub open spec fn scan_start(header: Header, file_bytes: u64) -> Scan {
    Scan {
        v: StreamView {
            header,
            file_bytes,
            batches: Seq::empty(),
            batch_file_bytes: Seq::empty(),
            finalize_versions: Map::empty(),
            unresolved: Seq::empty(),
            pending_finalize_checkpoints: Map::empty(),
            finalize_checkpointed_through: header.current,
            next_sequence: header.next_sequence,
        },
        repairs: Seq::empty(),
        max_sequence: 0,
        error: None,
    }
}

/// Whether one of the first `n` records belongs to the transaction.
pub open spec fn seen(records: Seq<RecordView>, n: int, txn_id: TxnId) -> bool {
    exists|i: int| 0 <= i < n && (#[trigger] records[i]).batch.physical_txn_id == txn_id
}

/// The stream with a committed batch in its place.
pub open spec fn with_committed(
    v: StreamView,
    batch: BatchView,
    size: BatchFileBytes,
    commit: Option<LsmCommitSeq>,
) -> StreamView {
    let slot = batch_slot(v.batches, batch.sequence);
    StreamView {
        batches: v.batches.insert(slot, batch),
        batch_file_bytes: v.batch_file_bytes.insert(slot, size),
        finalize_versions: v.finalize_versions.insert(batch.physical_txn_id.0, commit),
        ..v
    }
}

/// The scan after a record whose transaction committed.
pub open spec fn scan_committed(
    scan: Scan,
    entry: RecordView,
    commit: Option<LsmCommitSeq>,
) -> Scan {
    let batch = BatchView {
        mutations: record::resolved_changes(entry.batch.mutations, commit),
        ..entry.batch
    };
    let kind = scan.v.header.kind;
    if kind == ChangeStorageKind::Lsm && commit is None {
        Scan {
            error: Some(
                ChangeStreamError::InvalidRecord("LSM finalize marker has no commit version"),
            ),
            ..scan
        }
    } else if let Some(error) = record::committed_errors(batch.mutations, kind) {
        Scan { error: Some(error), ..scan }
    } else if entry.finalized {
        let size = BatchFileBytes {
            change_bytes: entry.prepared_file_bytes,
            retained_file_bytes: entry.retained_file_bytes,
        };
        Scan { v: with_committed(scan.v, batch, size, commit), ..scan }
    } else if batch.physical_txn_id.0 == 0 {
        Scan {
            error: Some(ChangeStreamError::InvalidRecord("zero transaction identity")),
            ..scan
        }
    } else {
        let repairs = scan.repairs.push(record::finalize_bytes(batch.physical_txn_id, commit));
        if scan.v.file_bytes + MARKER_BYTES > u64::MAX {
            Scan {
                repairs,
                error: Some(ChangeStreamError::RecordTooLarge(u64::MAX)),
                ..scan
            }
        } else {
            let size = BatchFileBytes {
                change_bytes: entry.prepared_file_bytes,
                retained_file_bytes: (entry.retained_file_bytes + MARKER_BYTES) as u64,
            };
            let grown = StreamView {
                file_bytes: (scan.v.file_bytes + MARKER_BYTES) as u64,
                ..scan.v
            };
            Scan { repairs, v: with_committed(grown, batch, size, commit), ..scan }
        }
    }
}

/// The scan of the first `n` records.
pub open spec fn scanned(
    records: Seq<RecordView>,
    header: Header,
    file_bytes: u64,
    n: int,
) -> Scan
    decreases n,
{
    if n <= 0 {
        scan_start(header, file_bytes)
    } else {
        let earlier = scanned(records, header, file_bytes, n - 1);
        let entry = records[n - 1];
        let sequence = entry.batch.sequence;
        if earlier.error is Some {
            earlier
        } else {
            let scan = Scan {
                max_sequence: if sequence > earlier.max_sequence {
                    sequence
                } else {
                    earlier.max_sequence
                },
                ..earlier
            };
            if seen(records, n - 1, entry.batch.physical_txn_id) {
                Scan {
                    error: Some(
                        ChangeStreamError::InvalidRecord(
                            "duplicate physical transaction identity",
                        ),
                    ),
                    ..scan
                }
            } else {
                match entry.outcome {
                    AuthoritativeOutcome::Committed(commit) => scan_committed(scan, entry, commit),
                    AuthoritativeOutcome::Aborted => scan,
                    AuthoritativeOutcome::Unresolved => Scan {
                        v: StreamView {
                            unresolved: scan.v.unresolved.insert(
                                reservation_slot(scan.v.unresolved, entry),
                                entry,
                            ),
                            ..scan.v
                        },
                        ..scan
                    },
                }
            }
        }
    }
}

/// The stream that a whole scan tells of, or why there is none.
pub open spec fn recovered(scan: Scan) -> Result<StreamView, ChangeStreamError> {
    let header = scan.v.header;
    let batches = scan.v.batches;
    let current = stream::current_of(header, batches);
    if let Some(error) = scan.error {
        Err(error)
    } else if let Some(error) = chain_error(batches, header.earliest, batches.len() as int) {
        Err(error)
    } else if batches.len() == 0 && header.earliest != header.current {
        Err(
            ChangeStreamError::InvalidHeader(
                "empty retained log has unequal earliest and current frontiers",
            ),
        )
    } else if current.0 < header.current.0 {
        Err(
            ChangeStreamError::InvalidHeader(
                "retained history ends before the durable current frontier",
            ),
        )
    } else if scan.max_sequence == u64::MAX {
        Err(ChangeStreamError::VersionExhausted)
    } else {
        Ok(
            StreamView {
                finalize_checkpointed_through: current,
                next_sequence: if scan.max_sequence + 1 > header.next_sequence {
                    (scan.max_sequence + 1) as u64
                } else {
                    header.next_sequence
                },
                ..scan.v
            },
        )
    }
}

/// What every step of the scan keeps.
pub open spec fn scan_kept(scan: Scan, records: Seq<RecordView>, n: int) -> bool {
    let v = scan.v;
    &&& stream::batch_sizes_kept(v.batches, v.batch_file_bytes)
    &&& forall|i: int, j: int|
        0 <= i < j < v.unresolved.len() ==> stream::ordered_before(
            #[trigger] v.unresolved[i],
            #[trigger] v.unresolved[j],
        ) && v.unresolved[i].batch.physical_txn_id != v.unresolved[j].batch.physical_txn_id
    &&& forall|i: int|
        0 <= i < v.unresolved.len() ==> (#[trigger] v.unresolved[i]).batch.sequence
            <= scan.max_sequence && stream::sizes_kept(v.unresolved[i]) && seen(
            records,
            n,
            v.unresolved[i].batch.physical_txn_id,
        )
}

/// Whether the bytes that a record takes in its log are counted as they are,
/// and a finalize marker tells of a commit.
pub open spec fn sizes_loaded(entry: RecordView) -> bool {
    &&& entry.staged_finalize is None
    &&& entry.prepared_file_bytes == record::record_size(entry.batch)
    &&& entry.prepared_file_bytes <= 0x400_0008
    &&& entry.retained_file_bytes == entry.prepared_file_bytes + if entry.finalized {
        MARKER_BYTES as int
    } else {
        0
    }
    &&& entry.finalized ==> entry.outcome is Committed
}

/// Whether the bytes of all records are counted as they are.
pub open spec fn records_sized(records: Seq<RecordView>) -> bool {
    forall|i: int| 0 <= i < records.len() ==> sizes_loaded(#[trigger] records[i])
}

proof fn lemma_scan_kept(records: Seq<RecordView>, header: Header, file_bytes: u64, n: int)
    requires
        0 <= n <= records.len(),
        records_sized(records),
    ensures
        scan_kept(scanned(records, header, file_bytes, n), records, n),
        scanned(records, header, file_bytes, n).v.header == header,
        scanned(records, header, file_bytes, n).v.pending_finalize_checkpoints == Map::<
            u64,
            TxnId,
        >::empty(),
    decreases n,
{
    if n > 0 {
        lemma_scan_kept(records, header, file_bytes, n - 1);
        let earlier = scanned(records, header, file_bytes, n - 1);
        let scan = scanned(records, header, file_bytes, n);
        let entry = records[n - 1];
        assert forall|txn_id: TxnId| #[trigger] seen(records, n - 1, txn_id) implies seen(
            records,
            n,
            txn_id,
        ) by {
            let i = choose|i: int|
                0 <= i < n - 1 && (#[trigger] records[i]).batch.physical_txn_id == txn_id;
            assert(records[i].batch.physical_txn_id == txn_id);
        }
        assert(seen(records, n, entry.batch.physical_txn_id)) by {
            assert(records[n - 1].batch.physical_txn_id == entry.batch.physical_txn_id);
        }
        lemma_batch_slot(earlier.v.batches, entry.batch.sequence);
        assert(sizes_loaded(entry));
        if let AuthoritativeOutcome::Committed(commit) = entry.outcome {
            record_laws::law_resolving_keeps_record_size(entry.batch, commit);
            let batch = BatchView {
                mutations: record::resolved_changes(entry.batch.mutations, commit),
                ..entry.batch
            };
            let size = BatchFileBytes {
                change_bytes: entry.prepared_file_bytes,
                retained_file_bytes: (entry.prepared_file_bytes + MARKER_BYTES) as u64,
            };
            lemma_inserted_sizes(
                earlier.v.batches,
                earlier.v.batch_file_bytes,
                batch_slot(earlier.v.batches, batch.sequence),
                batch,
                size,
            );
        }
        if earlier.error is None && !seen(records, n - 1, entry.batch.physical_txn_id)
            && entry.outcome == AuthoritativeOutcome::Unresolved {
            lemma_inserted_in_order(earlier.v.unresolved, entry);
            let before = earlier.v.unresolved;
            let slot = reservation_slot(before, entry);
            lemma_reservation_slot(before, entry);
            assert forall|i: int| 0 <= i < scan.v.unresolved.len() implies (
            #[trigger] scan.v.unresolved[i]).batch.sequence <= scan.max_sequence
                && stream::sizes_kept(scan.v.unresolved[i]) && seen(
                records,
                n,
                scan.v.unresolved[i].batch.physical_txn_id,
            ) by {
                if i < slot {
                    assert(scan.v.unresolved[i] == before[i]);
                } else if i > slot {
                    assert(scan.v.unresolved[i] == before[i - 1]);
                } else {
                    assert(scan.v.unresolved[i] == entry);
                }
            }
        }
    }
}

proof fn lemma_inserted_sizes(
    batches: Seq<BatchView>,
    sizes: Seq<BatchFileBytes>,
    slot: int,
    batch: BatchView,
    size: BatchFileBytes,
)
    requires
        stream::batch_sizes_kept(batches, sizes),
        0 <= slot <= batches.len(),
        size.change_bytes == record::record_size(batch),
        size.retained_file_bytes == size.change_bytes + MARKER_BYTES,
    ensures
        stream::batch_sizes_kept(batches.insert(slot, batch), sizes.insert(slot, size)),
{
    let after = batches.insert(slot, batch);
    let counted = sizes.insert(slot, size);
    assert forall|i: int| 0 <= i < after.len() implies (#[trigger] counted[i]).change_bytes
        == record::record_size(after[i]) && counted[i].retained_file_bytes
        == counted[i].change_bytes + MARKER_BYTES by {
        if i < slot {
            assert(after[i] == batches[i] && counted[i] == sizes[i]);
        } else if i > slot {
            assert(after[i] == batches[i - 1] && counted[i] == sizes[i - 1]);
        }
    }
}

proof fn lemma_inserted_in_order(records: Seq<RecordView>, entry: RecordView)
    requires
        forall|i: int, j: int|
            0 <= i < j < records.len() ==> stream::ordered_before(
                #[trigger] records[i],
                #[trigger] records[j],
            ) && records[i].batch.physical_txn_id != records[j].batch.physical_txn_id,
        forall|i: int|
            0 <= i < records.len() ==> (#[trigger] records[i]).batch.physical_txn_id
                != entry.batch.physical_txn_id,
    ensures
        ({
            let after = records.insert(reservation_slot(records, entry), entry);
            forall|i: int, j: int|
                0 <= i < j < after.len() ==> stream::ordered_before(
                    #[trigger] after[i],
                    #[trigger] after[j],
                ) && after[i].batch.physical_txn_id != after[j].batch.physical_txn_id
        }),
{
    lemma_reservation_slot(records, entry);
    let slot = reservation_slot(records, entry);
    let after = records.insert(slot, entry);
    assert forall|i: int, j: int| 0 <= i < j < after.len() implies stream::ordered_before(
        #[trigger] after[i],
        #[trigger] after[j],
    ) && after[i].batch.physical_txn_id != after[j].batch.physical_txn_id by {
        if i == slot {
            assert(after[i] == entry);
            assert(after[j] == records[j - 1]);
            if j - 1 > slot {
                assert(stream::ordered_before(records[slot], records[j - 1]));
            }
        } else if j == slot {
            assert(after[j] == entry);
            assert(after[i] == records[i]);
        } else {
            let i2 = if i < slot { i } else { i - 1 };
            let j2 = if j < slot { j } else { j - 1 };
            assert(after[i] == records[i2] && after[j] == records[j2]);
            assert(stream::ordered_before(records[i2], records[j2]));
        }
    }
}

proof fn lemma_scan_error(
    records: Seq<RecordView>,
    header: Header,
    file_bytes: u64,
    n: int,
    m: int,
)
    requires
        0 <= n <= m,
        scanned(records, header, file_bytes, n).error is Some,
    ensures
        scanned(records, header, file_bytes, m) == scanned(records, header, file_bytes, n),
    decreases m,
{
    if n < m {
        lemma_scan_error(records, header, file_bytes, n, m - 1);
    }
}

/// A recovered stream has what every operation keeps.
pub proof fn law_recovery_gives_a_stream(records: Seq<RecordView>, header: Header, file_bytes: u64)
    requires
        records_sized(records),
        recovered(scanned(records, header, file_bytes, records.len() as int)) is Ok,
    ensures
        stream::stream_kept(
            recovered(scanned(records, header, file_bytes, records.len() as int))->Ok_0,
        ),
        history::advancing(
            recovered(scanned(records, header, file_bytes, records.len() as int))->Ok_0.batches,
        ),
{
    let scan = scanned(records, header, file_bytes, records.len() as int);
    lemma_scan_kept(records, header, file_bytes, records.len() as int);
    law_checked_chain_has_no_gap(scan.v.batches, header.earliest);
}

// ---------------------------------------------------------------------------
// The steps
// ---------------------------------------------------------------------------
/// What recovery found: markers that are to be appended to the log and, where
/// it succeeded, the stream.
pub struct Recovery {
    pub repairs: Vec<Vec<u8>>,
    pub stream: Result<EnabledStream, ChangeStreamError>,
}

fn find_reservation_slot(records: &Vec<PreparedRecord>, entry: &PreparedRecord) -> (slot: usize)
    ensures
        slot == reservation_slot(load::records_view(records@), entry@),
        slot <= records@.len(),
{
    let ghost views = load::records_view(records@);
    proof {
        lemma_reservation_slot(views, entry@);
    }
    let mut i: usize = 0;
    while i < records.len()
        invariant
            views == load::records_view(records@),
            i <= reservation_slot(views, entry@) <= records@.len(),
            reservation_slot(views, entry@) < records@.len() ==> !stream::ordered_before(
                views[reservation_slot(views, entry@)],
                entry@,
            ),
            forall|k: int|
                0 <= k < reservation_slot(views, entry@) ==> stream::ordered_before(
                    #[trigger] views[k],
                    entry@,
                ),
        ensures
            i == reservation_slot(views, entry@),
        decreases records@.len() - i,
    {
        assert(views[i as int] == records@[i as int]@);
        let other = &records[i];
        let before: bool = other.batch.sequence < entry.batch.sequence || (other.batch.sequence
            == entry.batch.sequence && other.batch.physical_txn_id.0
            < entry.batch.physical_txn_id.0);
        if !before {
            break;
        }
        i = i + 1;
    }
    i
}

fn find_batch_slot(batches: &Vec<ChangeBatch>, sequence: u64) -> (slot: usize)
    ensures
        slot == batch_slot(types::batches_view(batches@), sequence),
        slot <= batches@.len(),
{
    let ghost views = types::batches_view(batches@);
    proof {
        lemma_batch_slot(views, sequence);
    }
    let mut i: usize = 0;
    while i < batches.len()
        invariant
            views == types::batches_view(batches@),
            i <= batch_slot(views, sequence) <= batches@.len(),
            batch_slot(views, sequence) < batches@.len() ==> views[batch_slot(
                views,
                sequence,
            )].sequence > sequence,
            forall|k: int|
                0 <= k < batch_slot(views, sequence) ==> (#[trigger] views[k]).sequence
                    <= sequence,
        ensures
            i == batch_slot(views, sequence),
        decreases batches@.len() - i,
    {
        assert(views[i as int] == batches@[i as int]@);
        if batches[i].sequence > sequence {
            break;
        }
        i = i + 1;
    }
    i
}

impl EnabledStream {
    fn insert_committed(
        &mut self,
        batch: ChangeBatch,
        size: BatchFileBytes,
        commit: Option<LsmCommitSeq>,
    )
        requires
            old(self).batches@.len() == old(self).batch_file_bytes@.len(),
        ensures
            final(self)@ == with_committed(old(self)@, batch@, size, commit),
    {
        let ghost v = self@;
        let txn_id: u64 = batch.physical_txn_id.0;
        let slot: usize = find_batch_slot(&self.batches, batch.sequence);
        self.finalize_versions.insert(txn_id, commit);
        self.batch_file_bytes.insert(slot, size);
        self.batches.insert(slot, batch);
        assert(self@.batches =~= v.batches.insert(slot as int, batch@));
    }

    fn insert_reservation(&mut self, entry: PreparedRecord)
        ensures
            final(self)@ == (StreamView {
                unresolved: old(self)@.unresolved.insert(
                    reservation_slot(old(self)@.unresolved, entry@),
                    entry@,
                ),
                ..old(self)@
            }),
    {
        let ghost v = self@;
        let slot: usize = find_reservation_slot(&self.unresolved, &entry);
        self.unresolved.insert(slot, entry);
        assert(self@.unresolved =~= v.unresolved.insert(slot as int, entry@));
    }
}

/// One committed record of the scan.
fn recover_committed(
    stream: &mut EnabledStream,
    repairs: &mut Vec<Vec<u8>>,
    entry: PreparedRecord,
    commit: Option<LsmCommitSeq>,
) -> (done: Result<(), ChangeStreamError>)
    requires
        old(stream).batches@.len() == old(stream).batch_file_bytes@.len(),
        sizes_loaded(entry@),
    ensures
        ({
            let before = Scan {
                v: old(stream)@,
                repairs: super::finalize::markers_view(old(repairs)@),
                max_sequence: 0,
                error: None,
            };
            let after = scan_committed(before, entry@, commit);
            &&& super::finalize::markers_view(final(repairs)@) == after.repairs
            &&& match after.error {
                Some(error) => done == Err::<(), ChangeStreamError>(error),
                None => done == Ok::<(), ChangeStreamError>(()) && final(stream)@ == after.v,
            }
        }),
{
    if stream.header.kind == ChangeStorageKind::Lsm && commit.is_none() {
        return Err(ChangeStreamError::InvalidRecord("LSM finalize marker has no commit version"));
    }
    let mut batch = entry.batch;
    if let Some(number) = commit {
        record::resolve_lsm_versions(&mut batch, number);
    }
    proof {
        super::finalize::lemma_committed_errors_view(batch.mutations@, stream.header.kind);
    }
    record::validate_committed_versions(batch.mutations.as_slice(), stream.header.kind)?;
    let mut size = BatchFileBytes {
        change_bytes: entry.prepared_file_bytes,
        retained_file_bytes: entry.retained_file_bytes,
    };
    if !entry.finalized {
        let marker: Vec<u8> = record::encode_finalize(batch.physical_txn_id, commit)?;
        let ghost earlier = repairs@;
        repairs.push(marker);
        assert(super::finalize::markers_view(repairs@) =~= super::finalize::markers_view(
            earlier,
        ).push(marker@));
        match stream.file_bytes.checked_add(MARKER_BYTES) {
            None => {
                return Err(ChangeStreamError::RecordTooLarge(u64::MAX));
            },
            Some(total) => {
                stream.file_bytes = total;
            },
        }
        size.retained_file_bytes = size.retained_file_bytes + MARKER_BYTES;
    }
    stream.insert_committed(batch, size, commit);
    Ok(())
}

fn seen_before(txn_ids: &Vec<TxnId>, txn_id: TxnId) -> (found: bool)
    ensures
        found == txn_ids@.contains(txn_id),
{
    let mut i: usize = 0;
    while i < txn_ids.len()
        invariant
            i <= txn_ids@.len(),
            forall|k: int| 0 <= k < i ==> txn_ids@[k] != txn_id,
        decreases txn_ids@.len() - i,
    {
        if txn_ids[i] == txn_id {
            return true;
        }
        i = i + 1;
    }
    false
}

/// Rebuilds a stream from the records of its log, whose outcomes are known.
#[verifier::rlimit(40)]
pub fn build_enabled_state(header: Header, file_bytes: u64, records: Vec<PreparedRecord>) -> (
recovery: Recovery)
    requires
        records_sized(load::records_view(records@)),
    ensures
        ({
            let scan = scanned(
                load::records_view(records@),
                header,
                file_bytes,
                records@.len() as int,
            );
            &&& super::finalize::markers_view(recovery.repairs@) == scan.repairs
            &&& match recovered(scan) {
                Err(error) => recovery.stream is Err && recovery.stream->Err_0 == error,
                Ok(value) => recovery.stream is Ok && recovery.stream->Ok_0@ == value
                    && recovery.stream->Ok_0.wf(),
            }
        }),
{
    let ghost all = load::records_view(records@);
    let total: usize = records.len();
    let mut stream = EnabledStream {
        header,
        file_bytes,
        batches: Vec::new(),
        batch_file_bytes: Vec::new(),
        finalize_versions: BTreeMap::new(),
        unresolved: Vec::new(),
        pending_finalize_checkpoints: BTreeMap::new(),
        finalize_checkpointed_through: header.current,
        next_sequence: header.next_sequence,
    };
    let mut repairs: Vec<Vec<u8>> = Vec::new();
    let mut txn_ids: Vec<TxnId> = Vec::new();
    let mut max_sequence: u64 = 0;
    let mut rest: Vec<PreparedRecord> = reversed(records);
    proof {
        assert(stream@.batches =~= Seq::empty());
        assert(stream@.unresolved =~= Seq::empty());
        assert(stream@ == scan_start(header, file_bytes).v);
        assert(super::finalize::markers_view(repairs@) =~= Seq::empty());
    }
    let mut i: usize = 0;
    while i < total
        invariant
            i <= total,
            total == all.len(),
            all == load::records_view(records@),
            records_sized(all),
            rest@.len() == total - i,
            forall|k: int|
                0 <= k < rest@.len() ==> (#[trigger] rest@[k])@ == all[total - 1 - k],
            txn_ids@.len() == i,
            forall|k: int| 0 <= k < i ==> #[trigger] txn_ids@[k] == all[k].batch.physical_txn_id,
            scanned(all, header, file_bytes, i as int) == (Scan {
                v: stream@,
                repairs: super::finalize::markers_view(repairs@),
                max_sequence,
                error: None,
            }),
        decreases total - i,
    {
        let ghost before = stream@;
        proof {
            lemma_scan_kept(all, header, file_bytes, i as int);
            assert(rest@[rest@.len() - 1]@ == all[i as int]);
        }
        let entry: PreparedRecord = match rest.pop() {
            Some(entry) => entry,
            None => {
                return Recovery { repairs, stream: Ok(stream) };
            },
        };
        assert(entry@ == all[i as int]);
        assert(sizes_loaded(entry@));
        let txn_id = entry.batch.physical_txn_id;
        if entry.batch.sequence > max_sequence {
            max_sequence = entry.batch.sequence;
        }
        let duplicate: bool = seen_before(&txn_ids, txn_id);
        proof {
            assert(duplicate == seen(all, i as int, txn_id)) by {
                if duplicate {
                    let k = choose|k: int| 0 <= k < txn_ids@.len() && txn_ids@[k] == txn_id;
                    assert(all[k].batch.physical_txn_id == txn_id);
                }
                if seen(all, i as int, txn_id) {
                    let k = choose|k: int|
                        0 <= k < i && (#[trigger] all[k]).batch.physical_txn_id == txn_id;
                    assert(txn_ids@[k] == txn_id);
                }
            }
            if scanned(all, header, file_bytes, i + 1).error is Some {
                lemma_scan_error(all, header, file_bytes, i + 1, total as int);
            }
        }
        if duplicate {
            return Recovery {
                repairs,
                stream: Err(
                    ChangeStreamError::InvalidRecord("duplicate physical transaction identity"),
                ),
            };
        }
        txn_ids.push(txn_id);
        match entry.outcome {
            AuthoritativeOutcome::Committed(commit) => {
                match recover_committed(&mut stream, &mut repairs, entry, commit) {
                    Ok(()) => {},
                    Err(error) => {
                        return Recovery { repairs, stream: Err(error) };
                    },
                }
            },
            AuthoritativeOutcome::Aborted => {},
            AuthoritativeOutcome::Unresolved => {
                stream.insert_reservation(entry);
            },
        }
        i = i + 1;
    }
    proof {
        lemma_scan_kept(all, header, file_bytes, total as int);
        if recovered(scanned(all, header, file_bytes, total as int)) is Ok {
            law_recovery_gives_a_stream(all, header, file_bytes);
        }
    }
    match conclude(&mut stream, max_sequence) {
        Ok(()) => Recovery { repairs, stream: Ok(stream) },
        Err(error) => Recovery { repairs, stream: Err(error) },
    }
}

/// The records in reverse, so that they can be taken one by one.
fn reversed(records: Vec<PreparedRecord>) -> (rest: Vec<PreparedRecord>)
    ensures
        rest@.len() == records@.len(),
        forall|k: int|
            0 <= k < rest@.len() ==> (#[trigger] rest@[k]) == records@[records@.len() - 1 - k],
{
    let mut source = records;
    let mut rest: Vec<PreparedRecord> = Vec::new();
    let ghost n = records@.len();
    while source.len() > 0
        invariant
            n == records@.len(),
            source@.len() + rest@.len() == n,
            source@ == records@.take(source@.len() as int),
            forall|k: int| 0 <= k < rest@.len() ==> (#[trigger] rest@[k]) == records@[n - 1 - k],
        decreases source@.len(),
    {
        if let Some(entry) = source.pop() {
            rest.push(entry);
            assert(source@ =~= records@.take(source@.len() as int));
        }
    }
    rest
}

/// Checks a scanned stream and sets its next sequence.
fn conclude(stream: &mut EnabledStream, max_sequence: u64) -> (done: Result<(), ChangeStreamError>)
    ensures
        ({
            let scan = Scan {
                v: old(stream)@,
                repairs: Seq::empty(),
                max_sequence,
                error: None,
            };
            match recovered(scan) {
                Err(error) => done == Err::<(), ChangeStreamError>(error),
                Ok(value) => done == Ok::<(), ChangeStreamError>(()) && final(stream)@ == value,
            }
        }),
{
    validate_committed_chain(stream.header.earliest, stream.batches.as_slice())?;
    let current = stream.effective_current();
    if stream.batches.len() == 0 && stream.header.earliest != stream.header.current {
        return Err(
            ChangeStreamError::InvalidHeader(
                "empty retained log has unequal earliest and current frontiers",
            ),
        );
    }
    if current.0 < stream.header.current.0 {
        return Err(
            ChangeStreamError::InvalidHeader(
                "retained history ends before the durable current frontier",
            ),
        );
    }
    if max_sequence == u64::MAX {
        return Err(ChangeStreamError::VersionExhausted);
    }
    if max_sequence + 1 > stream.header.next_sequence {
        stream.next_sequence = max_sequence + 1;
    } else {
        stream.next_sequence = stream.header.next_sequence;
    }
    stream.finalize_checkpointed_through = current;
    Ok(())
}

// ---------------------------------------------------------------------------
// The bytes of the records of a log
// ---------------------------------------------------------------------------
proof fn lemma_entries_sized(
    s: Seq<u8>,
    at: int,
    header: Header,
    records: Seq<RecordView>,
    recover: bool,
    refused: Set<Seq<u8>>,
)
    requires
        0 <= at,
        records_sized(records),
    ensures
        load::entries_from(s, at, header, records, recover, refused) matches Ok((loaded, _))
            ==> records_sized(loaded),
    decreases s.len() - at,
{
    let length = crate::bytes::u32_at(s, at);
    let end = at + 4 + length;
    let payload = s.subrange(at + 4, end);
    if at < s.len() && at + 4 <= s.len() && length != 0 && length
        <= super::log::CHANGE_LOG_MAX_RECORD_BYTES && end + 4 <= s.len() {
        match load::entry_applied(records, payload, header, (8 + length) as u64, refused) {
            Err(_) => {},
            Ok(next) => {
                if payload[0] == super::log::PREPARED_TAG {
                    record_laws::law_read_record_length(payload, header, refused);
                } else {
                    assert(payload.len() == 24);
                    let txn_id = record::finalize_of(payload)->Ok_0.0;
                    load::lemma_record_position(records, txn_id);
                }
                assert forall|i: int| 0 <= i < next.len() implies sizes_loaded(
                    #[trigger] next[i],
                ) by {
                    if i < records.len() {
                        assert(sizes_loaded(records[i]));
                    }
                }
                lemma_entries_sized(s, end + 4, header, next, recover, refused);
            },
        }
    }
}

/// The bytes of the records of a log are counted as they are.
pub proof fn lemma_log_sized(s: Seq<u8>, recover: bool, refused: Set<Seq<u8>>)
    ensures
        load::log_of(s, recover, refused) matches Ok(value) ==> records_sized(value.records),
{
    match load::front_of(s) {
        Err(_) => {},
        Ok(header) => {
            lemma_entries_sized(
                s,
                super::log::header_size(header.version),
                header,
                Seq::empty(),
                recover,
                refused,
            );
        },
    }
}

} // verus!
