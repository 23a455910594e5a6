//! An enabled change stream: its committed history, its reservations, and the
//! steps that move one into the other.
use super::error::ChangeStreamError;
use super::load;
use super::load::{AuthoritativeOutcome, PreparedRecord, RecordView};
use super::log::Header;
use super::record;
use super::types;
use super::types::{BatchView, ChangeBatch, StorageChange, StoredChange};
use crate::ids::{
    ChangeStreamGeneration, DatabaseTxnId, LsmCommitSeq, StorageDataVersion, StorageId, TxnId,
};
use std::collections::BTreeMap;
use vstd::prelude::*;

verus! {

broadcast use {
    crate::bytes::group_le_len,
    vstd::std_specs::btree::group_btree_axioms,
};

/// A position in the history of one stream incarnation.
#[derive(Debug, Clone, Copy, PartialEq, Eq, Hash, Structural)]
pub struct ChangeStreamCursor {
    pub storage_id: StorageId,
    pub generation: ChangeStreamGeneration,
    pub frontier: StorageDataVersion,
}

/// A reservation in the chain of frontiers.
#[derive(Debug, Clone, Copy, PartialEq, Eq, Structural)]
pub struct PreparedChange {
    pub sequence: u64,
    pub before: StorageDataVersion,
    pub after: StorageDataVersion,
}

/// The bytes that a committed batch takes in the log.
#[derive(Debug, Clone, Copy, PartialEq, Eq, Structural)]
pub struct BatchFileBytes {
    pub change_bytes: u64,
    pub retained_file_bytes: u64,
}

/// The bytes of a finalize marker.
pub const MARKER_BYTES: u64 = 32;

/// An enabled change stream.
pub struct EnabledStream {
    pub header: Header,
    pub file_bytes: u64,
    /// Committed batches, in the order of their frontiers.
    pub batches: Vec<ChangeBatch>,
    pub batch_file_bytes: Vec<BatchFileBytes>,
    /// The commit number in the finalize marker of each committed transaction.
    pub finalize_versions: BTreeMap<u64, Option<LsmCommitSeq>>,
    /// Prepared batches without an outcome, by sequence and transaction.
    pub unresolved: Vec<PreparedRecord>,
    /// Committed batches, by sequence, whose finalize marker is appended but
    /// not synchronized.
    pub pending_finalize_checkpoints: BTreeMap<u64, TxnId>,
    pub finalize_checkpointed_through: StorageDataVersion,
    pub next_sequence: u64,
}

/// What an enabled change stream says.
pub struct StreamView {
    pub header: Header,
    pub file_bytes: u64,
    pub batches: Seq<BatchView>,
    pub batch_file_bytes: Seq<BatchFileBytes>,
    pub finalize_versions: Map<u64, Option<LsmCommitSeq>>,
    pub unresolved: Seq<RecordView>,
    pub pending_finalize_checkpoints: Map<u64, TxnId>,
    pub finalize_checkpointed_through: StorageDataVersion,
    pub next_sequence: u64,
}

impl View for EnabledStream {
    type V = StreamView;

    open spec fn view(&self) -> StreamView {
        StreamView {
            header: self.header,
            file_bytes: self.file_bytes,
            batches: types::batches_view(self.batches@),
            batch_file_bytes: self.batch_file_bytes@,
            finalize_versions: self.finalize_versions@,
            unresolved: load::records_view(self.unresolved@),
            pending_finalize_checkpoints: self.pending_finalize_checkpoints@,
            finalize_checkpointed_through: self.finalize_checkpointed_through,
            next_sequence: self.next_sequence,
        }
    }
}

/// Whether each batch begins where the one before it ended, the first one at
/// `start`.
pub open spec fn contiguous(batches: Seq<BatchView>, start: StorageDataVersion) -> bool {
    forall|i: int|
        0 <= i < batches.len() ==> batches[i].before == #[trigger] frontier_before(
            batches,
            start,
            i,
        )
}

/// The frontier that the batches in front of position `i` lead to.
pub open spec fn frontier_before(
    batches: Seq<BatchView>,
    start: StorageDataVersion,
    i: int,
) -> StorageDataVersion {
    if i <= 0 {
        start
    } else {
        batches[i - 1].after
    }
}

/// The committed frontier.
pub open spec fn current_of(header: Header, batches: Seq<BatchView>) -> StorageDataVersion {
    if batches.len() == 0 {
        header.current
    } else {
        batches.last().after
    }
}

/// Whether one record is ordered in front of another.
pub open spec fn ordered_before(left: RecordView, right: RecordView) -> bool {
    left.batch.sequence < right.batch.sequence || (left.batch.sequence == right.batch.sequence
        && left.batch.physical_txn_id.0 < right.batch.physical_txn_id.0)
}

/// Whether reservations are kept as they should be: in order, one for each
/// transaction, all below the next sequence.
pub open spec fn reservations_kept(records: Seq<RecordView>, next_sequence: u64) -> bool {
    &&& forall|i: int, j: int|
        0 <= i < j < records.len() ==> ordered_before(#[trigger] records[i], #[trigger] records[j])
            && records[i].batch.physical_txn_id != records[j].batch.physical_txn_id
    &&& forall|i: int|
        0 <= i < records.len() ==> (#[trigger] records[i]).batch.sequence < next_sequence
            && sizes_kept(records[i])
}

/// Whether the bytes that a reservation takes in the log are counted as they
/// are: those of its record and, once that is staged, those of its finalize
/// marker.
pub open spec fn sizes_kept(entry: RecordView) -> bool {
    &&& entry.prepared_file_bytes == record::record_size(entry.batch)
    &&& entry.prepared_file_bytes <= 0x800_0000
    &&& entry.retained_file_bytes == entry.prepared_file_bytes + if entry.staged_finalize is Some {
        MARKER_BYTES as int
    } else {
        0
    }
}

/// Whether the bytes that committed batches take in the log are counted as
/// they are: those of their records, and those with their finalize markers.
pub open spec fn batch_sizes_kept(batches: Seq<BatchView>, sizes: Seq<BatchFileBytes>) -> bool {
    &&& batches.len() == sizes.len()
    &&& forall|i: int|
        0 <= i < batches.len() ==> (#[trigger] sizes[i]).change_bytes == record::record_size(
            batches[i],
        ) && sizes[i].retained_file_bytes == sizes[i].change_bytes + MARKER_BYTES
}

/// What every operation keeps of a stream.
pub open spec fn stream_kept(v: StreamView) -> bool {
    &&& batch_sizes_kept(v.batches, v.batch_file_bytes)
    &&& contiguous(v.batches, v.header.earliest)
    &&& v.batches.len() == 0 ==> v.header.earliest == v.header.current
    &&& reservations_kept(v.unresolved, v.next_sequence)
}

impl EnabledStream {
    /// What every operation keeps of a stream.
    pub open spec fn wf(&self) -> bool {
        stream_kept(self@)
    }

    /// The committed frontier.
    pub fn effective_current(&self) -> (frontier: StorageDataVersion)
        ensures
            frontier == current_of(self.header, self@.batches),
    {
        if self.batches.len() == 0 {
            self.header.current
        } else {
            self.batches[self.batches.len() - 1].after
        }
    }

    /// The cursor at the committed frontier.
    pub fn cursor(&self) -> (cursor: ChangeStreamCursor)
        ensures
            cursor == cursor_at(self.header, current_of(self.header, self@.batches)),
    {
        ChangeStreamCursor {
            storage_id: self.header.storage_id,
            generation: self.header.generation,
            frontier: self.effective_current(),
        }
    }
}

/// The cursor of a stream at a frontier.
pub open spec fn cursor_at(header: Header, frontier: StorageDataVersion) -> ChangeStreamCursor {
    ChangeStreamCursor { storage_id: header.storage_id, generation: header.generation, frontier }
}

/// The reservation that a batch holds.
pub open spec fn identity_of(batch: BatchView) -> PreparedChange {
    PreparedChange { sequence: batch.sequence, before: batch.before, after: batch.after }
}

/// The reservation that a batch holds.
pub fn prepared_identity(batch: &ChangeBatch) -> (identity: PreparedChange)
    ensures
        identity == identity_of(batch@),
{
    PreparedChange { sequence: batch.sequence, before: batch.before, after: batch.after }
}

// ---------------------------------------------------------------------------
// Preparing
// ---------------------------------------------------------------------------
/// The frontier that the next reservation starts from: the end of the chain of
/// reservations, or else the committed frontier.
pub open spec fn reservation_base(v: StreamView) -> StorageDataVersion {
    if v.unresolved.len() == 0 {
        current_of(v.header, v.batches)
    } else {
        v.unresolved.last().batch.after
    }
}

/// The batch that a transaction's changes would be prepared as.
pub open spec fn batch_to_prepare(
    v: StreamView,
    txn_id: TxnId,
    database_txn_id: Option<DatabaseTxnId>,
    changes: Seq<StorageChange<Seq<u8>>>,
) -> BatchView {
    BatchView {
        sequence: v.next_sequence,
        physical_txn_id: txn_id,
        database_txn_id,
        table_id: v.header.table_id,
        storage_id: v.header.storage_id,
        schema_fingerprint: v.header.fingerprint,
        before: reservation_base(v),
        after: StorageDataVersion((reservation_base(v).0 + 1) as u64),
        mutations: changes,
    }
}

/// Why a transaction without a reservation cannot get one.
pub open spec fn prepare_error(
    v: StreamView,
    txn_id: TxnId,
    database_txn_id: Option<DatabaseTxnId>,
    changes: Seq<StorageChange<Seq<u8>>>,
) -> Option<ChangeStreamError> {
    let batch = batch_to_prepare(v, txn_id, database_txn_id, changes);
    if reservation_base(v).0 == u64::MAX || v.next_sequence == u64::MAX {
        Some(ChangeStreamError::VersionExhausted)
    } else if let Some(error) = record::record_error(batch) {
        Some(error)
    } else if v.file_bytes + record::framed(record::record_payload(batch)).len() > u64::MAX {
        Some(ChangeStreamError::RecordTooLarge(u64::MAX))
    } else {
        None
    }
}

/// What is to be done to prepare a transaction.
pub enum PreparePlan {
    /// The transaction has this reservation already.
    Existing(PreparedChange),
    /// `record` is to be appended to the log; `batch` is then prepared.
    Append { batch: ChangeBatch, record: Vec<u8> },
}

/// The record of a batch whose bytes were appended but not synchronized.
pub open spec fn staged_record(batch: BatchView, size: u64) -> RecordView {
    RecordView {
        batch,
        outcome: AuthoritativeOutcome::Unresolved,
        finalized: false,
        prepared_durable: false,
        staged_finalize: None,
        prepared_file_bytes: size,
        retained_file_bytes: size,
    }
}

/// The stream after `batch` was appended in `size` bytes.
pub open spec fn prepared(v: StreamView, batch: BatchView, size: u64) -> StreamView {
    StreamView {
        file_bytes: (v.file_bytes + size) as u64,
        next_sequence: (v.next_sequence + 1) as u64,
        unresolved: v.unresolved.push(staged_record(batch, size)),
        ..v
    }
}

impl EnabledStream {
    /// Decides how to prepare the changes of a transaction.
    pub fn plan_prepare(
        &self,
        txn_id: TxnId,
        database_txn_id: Option<DatabaseTxnId>,
        changes: &[StoredChange],
    ) -> (plan: Result<PreparePlan, ChangeStreamError>)
        requires
            self.wf(),
        ensures
            match load::record_position(self@.unresolved, txn_id) {
                Some(found) => plan == Ok::<PreparePlan, ChangeStreamError>(
                    PreparePlan::Existing(identity_of(self@.unresolved[found].batch)),
                ),
                None => match prepare_error(
                    self@,
                    txn_id,
                    database_txn_id,
                    types::changes_view(changes@),
                ) {
                    Some(error) => plan == Err::<PreparePlan, ChangeStreamError>(error),
                    None => {
                        &&& plan is Ok
                        &&& plan->Ok_0 is Append
                        &&& plan->Ok_0->batch@ == batch_to_prepare(
                            self@,
                            txn_id,
                            database_txn_id,
                            types::changes_view(changes@),
                        )
                        &&& plan->Ok_0->record@ == record::framed(
                            record::record_payload(plan->Ok_0->batch@),
                        )
                    },
                },
            },
    {
        match load::find_record(&self.unresolved, txn_id) {
            Some(found) => {
                assert(self@.unresolved[found as int] == self.unresolved@[found as int]@);
                return Ok(PreparePlan::Existing(prepared_identity(&self.unresolved[found].batch)));
            },
            None => {},
        }
        let before: StorageDataVersion = if self.unresolved.len() == 0 {
            self.effective_current()
        } else {
            let last: usize = self.unresolved.len() - 1;
            assert(self@.unresolved.last() == self.unresolved@[last as int]@);
            self.unresolved[last].batch.after
        };
        if before.0 == u64::MAX || self.next_sequence == u64::MAX {
            return Err(ChangeStreamError::VersionExhausted);
        }
        let batch = ChangeBatch {
            sequence: self.next_sequence,
            physical_txn_id: txn_id,
            database_txn_id,
            table_id: self.header.table_id,
            storage_id: self.header.storage_id,
            schema_fingerprint: self.header.fingerprint,
            before,
            after: StorageDataVersion(before.0 + 1),
            mutations: types::copy_changes(changes),
        };
        assert(batch@ == batch_to_prepare(
            self@,
            txn_id,
            database_txn_id,
            types::changes_view(changes@),
        ));
        let record: Vec<u8> = record::encode_record(&batch)?;
        match self.file_bytes.checked_add(record.len() as u64) {
            None => Err(ChangeStreamError::RecordTooLarge(u64::MAX)),
            Some(_) => Ok(PreparePlan::Append { batch, record }),
        }
    }

    /// Takes note that the batch of a plan was appended in `size` bytes.
    pub fn complete_prepare(&mut self, batch: ChangeBatch, size: u64) -> (reservation: PreparedChange)
        requires
            old(self).wf(),
            load::record_position(old(self)@.unresolved, batch@.physical_txn_id) is None,
            batch@.sequence == old(self).next_sequence,
            old(self).next_sequence < u64::MAX,
            old(self).file_bytes + size <= u64::MAX,
            size == record::record_size(batch@),
            size <= 0x800_0000,
        ensures
            final(self).wf(),
            final(self)@ == prepared(old(self)@, batch@, size),
            reservation == identity_of(batch@),
    {
        let reservation = prepared_identity(&batch);
        let entry = PreparedRecord {
            batch,
            outcome: AuthoritativeOutcome::Unresolved,
            finalized: false,
            prepared_durable: false,
            staged_finalize: None,
            prepared_file_bytes: size,
            retained_file_bytes: size,
        };
        self.file_bytes = self.file_bytes + size;
        self.next_sequence = self.next_sequence + 1;
        self.unresolved.push(entry);
        proof {
            load::lemma_record_position(old(self)@.unresolved, batch@.physical_txn_id);
            assert(self@.unresolved =~= old(self)@.unresolved.push(staged_record(batch@, size)));
        }
        reservation
    }
}

} // verus!
