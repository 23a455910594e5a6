//! Change streams over a log in memory.
use netbadb_storage::change_stream::durable::{
    ChangePrepareBatchReport, ChangeStreamSyncCounts, DurableCandidate, SyncReason,
};
use netbadb_storage::change_stream::finalize::{
    ChangeFinalizeBatchReport, FinalizeCandidate, FinalizePlan,
};
use netbadb_storage::change_stream::history::ChangeReadResult;
use netbadb_storage::change_stream::images::row_images;
use netbadb_storage::change_stream::load::{load_file, AuthoritativeOutcome};
use netbadb_storage::change_stream::log::{
    decode_header, encode_header, Header, CHANGE_LOG_FORMAT_VERSION, CHANGE_LOG_MAX_MUTATIONS,
    CHANGE_LOG_MAX_RECORD_BYTES, CHANGE_LOG_MAX_ROW_BYTES, V2_HEADER_SIZE,
};
use netbadb_storage::change_stream::manager::{
    ChangeStreamInspection, ChangeStreamManager, ChangeStreamStatus, GuardFile, OpenStep,
};
use netbadb_storage::change_stream::operations::{DisablePlan, EnablePlan};
use netbadb_storage::change_stream::path::{
    change_stream_guard_path, heap_change_log_path, lsm_change_log_path,
};
use netbadb_storage::change_stream::pending::PendingChangeSet;
use netbadb_storage::change_stream::publish::validate_change_log_file;
use netbadb_storage::change_stream::reclaim::{ChangeStreamGcStorageReport, GcPlan};
use netbadb_storage::change_stream::record::{
    decode_finalize, decode_record, encode_finalize, encode_record, resolve_lsm_versions,
};
use netbadb_storage::change_stream::recover::validate_committed_chain;
use netbadb_storage::change_stream::stream::{ChangeStreamCursor, PreparePlan, PreparedChange};
use netbadb_storage::change_stream::{
    ChangeBatch, ChangeStorageKind, ChangeStreamError, StorageChange, StorageVersionKey,
};
use netbadb_storage::ids::{
    ChangeStreamGeneration, DatabaseTxnId, LsmCommitSeq, LsmRowId, PageId, RowId,
    SchemaFingerprint, StorageDataVersion, StorageId, TableId, TxnId,
};

fn fingerprint() -> SchemaFingerprint {
    SchemaFingerprint::from_bytes([0x5A; 32])
}

fn row(value: i64) -> Vec<u8> {
    let mut bytes = vec![2];
    bytes.extend_from_slice(&value.to_le_bytes());
    bytes
}

fn header() -> Header {
    Header {
        version: CHANGE_LOG_FORMAT_VERSION,
        active: true,
        kind: ChangeStorageKind::Heap,
        storage_id: StorageId(8),
        table_id: TableId(9),
        fingerprint: fingerprint(),
        generation: ChangeStreamGeneration(3),
        origin: StorageDataVersion(11),
        earliest: StorageDataVersion(11),
        current: StorageDataVersion(11),
        next_sequence: 1,
    }
}

fn encode_v1_header(header: &Header) -> Vec<u8> {
    let mut bytes = vec![0_u8; 80];
    bytes[0..4].copy_from_slice(b"NBCL");
    bytes[4..6].copy_from_slice(&1_u16.to_le_bytes());
    bytes[6] = u8::from(header.active);
    bytes[7] = header.kind.tag();
    bytes[8..16].copy_from_slice(&header.storage_id.0.to_le_bytes());
    bytes[16..24].copy_from_slice(&header.table_id.0.to_le_bytes());
    bytes[24..56].copy_from_slice(header.fingerprint.as_bytes());
    bytes[56..64].copy_from_slice(&header.generation.0.to_le_bytes());
    bytes[64..72].copy_from_slice(&header.origin.0.to_le_bytes());
    let checksum = crc32c::crc32c(&bytes[..76]);
    bytes[76..80].copy_from_slice(&checksum.to_le_bytes());
    bytes
}

fn heap_key(page: u64, slot: u16, generation: u32) -> StorageVersionKey {
    StorageVersionKey::Heap {
        storage_id: StorageId(8),
        row_id: RowId { page: PageId(page), slot, generation },
    }
}

fn insert(page: u64, value: i64) -> StorageChange<Vec<u8>> {
    StorageChange::Insert { new_version: heap_key(page, 1, 1), after: row(value) }
}

fn batch() -> ChangeBatch {
    let header = header();
    ChangeBatch {
        sequence: 1,
        physical_txn_id: TxnId(4),
        database_txn_id: Some(DatabaseTxnId(5)),
        table_id: header.table_id,
        storage_id: header.storage_id,
        schema_fingerprint: header.fingerprint,
        before: header.current,
        after: StorageDataVersion(12),
        mutations: vec![StorageChange::Insert {
            new_version: heap_key(2, 1, 7),
            after: row(42),
        }],
    }
}

/// A manager with its files.
struct Stream {
    manager: ChangeStreamManager,
    file: Vec<u8>,
    guard: Option<Vec<u8>>,
    fail_sync: bool,
}

impl Stream {
    fn open(
        file: Vec<u8>,
        guard: Option<Vec<u8>>,
        outcome: fn(TxnId) -> AuthoritativeOutcome,
    ) -> Stream {
        let step = ChangeStreamManager::open(
            ChangeStorageKind::Heap,
            StorageId(8),
            TableId(9),
            fingerprint(),
            Some(&file),
            match &guard {
                Some(bytes) => GuardFile::Found(bytes),
                None => GuardFile::Missing,
            },
            &[],
        );
        match step {
            OpenStep::Done { manager, remove_guard } => Stream {
                manager,
                file,
                guard: if remove_guard { None } else { guard },
                fail_sync: false,
            },
            OpenStep::Recover { loaded, guard } => {
                let mut file = file;
                file.truncate(loaded.file_bytes as usize);
                let outcomes: Vec<AuthoritativeOutcome> = loaded
                    .records
                    .iter()
                    .map(|record| {
                        if record.finalized {
                            record.outcome
                        } else {
                            outcome(record.batch.physical_txn_id)
                        }
                    })
                    .collect();
                let (manager, repairs) = ChangeStreamManager::recover(
                    ChangeStorageKind::Heap,
                    StorageId(8),
                    TableId(9),
                    fingerprint(),
                    loaded,
                    &outcomes,
                );
                for repair in repairs {
                    file.extend(repair);
                }
                Stream { manager, file, guard: Some(guard), fail_sync: false }
            }
        }
    }

    fn fresh() -> Stream {
        Stream::open(encode_header(&header()), None, |_| AuthoritativeOutcome::Unresolved)
    }

    fn reopened(&self, outcome: fn(TxnId) -> AuthoritativeOutcome) -> Stream {
        Stream::open(self.file.clone(), self.guard.clone(), outcome)
    }

    fn sync(&mut self) -> Result<(), ChangeStreamError> {
        if self.fail_sync {
            self.fail_sync = false;
            let error = ChangeStreamError::Io(String::from("injected sync failure"));
            self.manager.poison_after_io_error(&error);
            return Err(error);
        }
        Ok(())
    }

    fn stage(
        &mut self,
        txn: u64,
        database: Option<u64>,
        changes: &[StorageChange<Vec<u8>>],
    ) -> Result<Option<PreparedChange>, ChangeStreamError> {
        match self.manager.plan_prepare(TxnId(txn), database.map(DatabaseTxnId), changes)? {
            None => Ok(None),
            Some(PreparePlan::Existing(prepared)) => Ok(Some(prepared)),
            Some(PreparePlan::Append { batch, record }) => {
                self.file.extend_from_slice(&record);
                Ok(Some(self.manager.complete_prepare(batch, record.len() as u64)))
            }
        }
    }

    fn durable(
        &mut self,
        candidates: &[DurableCandidate],
        exact: bool,
        reason: SyncReason,
    ) -> Result<ChangePrepareBatchReport, ChangeStreamError> {
        let plan = self.manager.plan_durable(candidates, exact)?;
        if plan.needs_sync {
            self.sync()?;
        }
        Ok(self.manager.complete_durable(candidates, plan, reason))
    }

    fn group_durable(
        &mut self,
        candidates: &[DurableCandidate],
    ) -> Result<ChangePrepareBatchReport, ChangeStreamError> {
        self.durable(candidates, true, SyncReason::GroupPrepare)
    }

    fn prepare(
        &mut self,
        txn: u64,
        database: Option<u64>,
        changes: &[StorageChange<Vec<u8>>],
    ) -> Result<Option<PreparedChange>, ChangeStreamError> {
        let prepared = self.stage(txn, database, changes)?;
        if let Some(known) = prepared {
            let candidate = (TxnId(txn), database.map(DatabaseTxnId), known);
            self.durable(&[candidate], false, SyncReason::MemberPrepare)?;
        }
        Ok(prepared)
    }

    fn finalize(
        &mut self,
        candidates: &[FinalizeCandidate],
        sync_immediately: bool,
        reason: SyncReason,
    ) -> Result<ChangeFinalizeBatchReport, ChangeStreamError> {
        match self.manager.plan_finalize(candidates, sync_immediately)? {
            FinalizePlan::Published(report) => Ok(report),
            FinalizePlan::Append { markers } => {
                for marker in markers {
                    self.file.extend(marker);
                }
                if sync_immediately {
                    self.sync()?;
                }
                self.manager.complete_finalize(candidates, sync_immediately, reason)
            }
        }
    }

    fn publish(&mut self, txn: u64, prepared: PreparedChange) -> Result<(), ChangeStreamError> {
        self.finalize(&[(TxnId(txn), prepared, None)], true, SyncReason::MemberFinalize)?;
        Ok(())
    }

    fn checkpoint(&mut self) -> Result<u64, ChangeStreamError> {
        if self.manager.pending_finalizes() > 0 {
            self.sync()?;
        }
        Ok(self.manager.complete_checkpoint())
    }

    fn gc(
        &mut self,
        frontier: StorageDataVersion,
    ) -> Result<ChangeStreamGcStorageReport, ChangeStreamError> {
        match self.manager.plan_gc(frontier)? {
            GcPlan::Unchanged(report) => Ok(report),
            GcPlan::Rewrite { contents, guard } => {
                let size = contents.len() as u64;
                self.file = contents;
                self.guard = Some(guard);
                Ok(self.manager.complete_gc(frontier, size))
            }
        }
    }

    fn inspection(&self) -> ChangeStreamInspection {
        self.manager.inspection(self.file.len() as u64)
    }

    fn counts(&self) -> ChangeStreamSyncCounts {
        self.manager.sync_counts()
    }

    fn read(&self, frontier: StorageDataVersion) -> ChangeReadResult {
        let cursor = ChangeStreamCursor {
            storage_id: StorageId(8),
            generation: ChangeStreamGeneration(3),
            frontier,
        };
        self.manager.read(cursor, 10, 1_000_000).expect("read")
    }
}

#[test]
fn header_rejects_magic_version_checksum_reserved_and_zero_identity() {
    let valid = encode_header(&header());
    let cases = [(0, b'X'), (4, 99), (96, 1), (8, 0), (16, 0), (24, valid[24] ^ 1)];
    for (offset, value) in cases {
        let mut bytes = valid.clone();
        bytes[offset] = value;
        assert!(decode_header(&bytes).is_err(), "offset {offset}");
    }
    assert!(matches!(decode_header(&valid[..20]), Err(ChangeStreamError::Truncated { .. })));
}

#[test]
fn v1_header_remains_readable_and_v2_frontiers_are_validated() {
    let expected = header();
    let decoded = decode_header(&encode_v1_header(&expected)).expect("decode NBCL v1");
    assert_eq!(decoded.version, 1);
    assert_eq!(decoded.origin, expected.origin);
    assert_eq!(decoded.earliest, expected.origin);
    assert_eq!(decoded.current, expected.origin);
    assert_eq!(decoded.next_sequence, 1);

    let mut invalid_order = encode_header(&expected);
    invalid_order[72..80].copy_from_slice(&StorageDataVersion(12).0.to_le_bytes());
    invalid_order[80..88].copy_from_slice(&StorageDataVersion(11).0.to_le_bytes());
    let checksum = crc32c::crc32c(&invalid_order[..100]);
    invalid_order[100..104].copy_from_slice(&checksum.to_le_bytes());
    assert!(matches!(
        decode_header(&invalid_order),
        Err(ChangeStreamError::InvalidHeader(
            "origin, earliest, and current frontiers are out of order"
        ))
    ));

    let mut zero_sequence = encode_header(&expected);
    zero_sequence[88..96].fill(0);
    let checksum = crc32c::crc32c(&zero_sequence[..100]);
    zero_sequence[100..104].copy_from_slice(&checksum.to_le_bytes());
    assert!(matches!(
        decode_header(&zero_sequence),
        Err(ChangeStreamError::InvalidHeader("zero next sequence"))
    ));
}

#[test]
fn record_rejects_checksum_unknown_tags_oversized_counts_and_bad_versions() {
    let header = header();
    let encoded = encode_record(&batch()).unwrap();
    let payload_length = u32::from_le_bytes(encoded[..4].try_into().unwrap()) as usize;
    let payload = &encoded[4..4 + payload_length];
    assert!(decode_record(payload, &header, &[]).unwrap() == batch());

    let mut unknown_record = payload.to_vec();
    unknown_record[0] = 99;
    assert!(decode_record(&unknown_record, &header, &[]).is_err());
    let mut unknown_mutation = payload.to_vec();
    unknown_mutation[104] = 99;
    assert!(decode_record(&unknown_mutation, &header, &[]).is_err());
    let mut oversized = payload.to_vec();
    oversized[96..100].copy_from_slice(&(CHANGE_LOG_MAX_MUTATIONS + 1).to_le_bytes());
    assert!(matches!(
        decode_record(&oversized, &header, &[]),
        Err(ChangeStreamError::MutationCountTooLarge(_))
    ));
    let mut zero_generation = payload.to_vec();
    zero_generation[116..120].fill(0);
    assert!(decode_record(&zero_generation, &header, &[]).is_err());
    let mut invalid_version_tag = payload.to_vec();
    invalid_version_tag[105] = 99;
    assert!(decode_record(&invalid_version_tag, &header, &[]).is_err());
    let mut oversized_row = payload.to_vec();
    oversized_row[120..124].copy_from_slice(&(CHANGE_LOG_MAX_ROW_BYTES + 1).to_le_bytes());
    assert!(matches!(
        decode_record(&oversized_row, &header, &[]),
        Err(ChangeStreamError::RowPayloadTooLarge(_))
    ));
    let mut wrong_context = payload.to_vec();
    wrong_context[32..40].fill(0);
    assert!(decode_record(&wrong_context, &header, &[]).is_err());
    let mut wrong_schema = payload.to_vec();
    wrong_schema[48] ^= 1;
    assert!(decode_record(&wrong_schema, &header, &[]).is_err());
    let mut zero_txn = payload.to_vec();
    zero_txn[16..24].fill(0);
    assert!(decode_record(&zero_txn, &header, &[]).is_err());
    let mut trailing = payload.to_vec();
    trailing.push(0);
    assert!(decode_record(&trailing, &header, &[]).is_err());

    let mut lsm_header = header;
    lsm_header.kind = ChangeStorageKind::Lsm;
    let mut invalid_lsm = batch();
    invalid_lsm.mutations = vec![StorageChange::Delete {
        old_version: StorageVersionKey::Lsm {
            storage_id: lsm_header.storage_id,
            row_id: LsmRowId(0),
            version: LsmCommitSeq(1),
        },
    }];
    assert!(encode_record(&invalid_lsm).is_err());
    invalid_lsm.mutations = vec![StorageChange::Delete {
        old_version: StorageVersionKey::Lsm {
            storage_id: lsm_header.storage_id,
            row_id: LsmRowId(1),
            version: LsmCommitSeq(0),
        },
    }];
    let invalid_lsm = encode_record(&invalid_lsm).unwrap();
    let length = u32::from_le_bytes(invalid_lsm[..4].try_into().unwrap()) as usize;
    assert!(decode_record(&invalid_lsm[4..4 + length], &lsm_header, &[]).is_err());
}

#[test]
fn strict_file_validation_rejects_truncation_checksum_and_trailing_garbage() {
    let check = |bytes: &[u8]| {
        validate_change_log_file(bytes, TableId(9), Some(fingerprint()), &[])
    };
    let mut bytes = encode_header(&header());
    bytes.extend_from_slice(&encode_record(&batch()).unwrap());
    bytes.extend_from_slice(&encode_finalize(TxnId(4), None).unwrap());
    check(&bytes).unwrap();
    assert!(matches!(
        check(&bytes[..bytes.len() - 1]),
        Err(ChangeStreamError::Truncated { .. })
    ));
    let mut corrupt = bytes.clone();
    corrupt[V2_HEADER_SIZE + 10] ^= 1;
    assert!(matches!(check(&corrupt), Err(ChangeStreamError::ChecksumMismatch { .. })));
    let mut trailing = bytes;
    trailing.push(1);
    assert!(matches!(check(&trailing), Err(ChangeStreamError::Truncated { .. })));

    let mut oversized = encode_header(&header());
    oversized.extend_from_slice(&(CHANGE_LOG_MAX_RECORD_BYTES + 1).to_le_bytes());
    assert!(matches!(check(&oversized), Err(ChangeStreamError::RecordTooLarge(_))));

    let mut duplicate = encode_header(&header());
    duplicate.extend_from_slice(&encode_record(&batch()).unwrap());
    duplicate.extend_from_slice(&encode_record(&batch()).unwrap());
    assert!(matches!(
        check(&duplicate),
        Err(ChangeStreamError::InvalidRecord("duplicate physical transaction identity"))
    ));

    assert!(matches!(
        validate_change_log_file(
            &encode_header(&header()),
            TableId(9),
            Some(SchemaFingerprint::from_bytes([1; 32])),
            &[],
        ),
        Err(ChangeStreamError::InvalidHeader("schema identity mismatch"))
    ));
    assert!(matches!(
        validate_change_log_file(&encode_header(&header()), TableId(9), None, &[]),
        Err(ChangeStreamError::InvalidHeader("schema fingerprint cannot be computed"))
    ));
}

#[test]
fn committed_chain_detects_gaps() {
    let first = batch();
    let mut second = batch();
    second.sequence = 2;
    second.physical_txn_id = TxnId(6);
    second.before = StorageDataVersion(99);
    second.after = StorageDataVersion(100);
    assert!(matches!(
        validate_committed_chain(StorageDataVersion(11), &[first, second]),
        Err(ChangeStreamError::ChangeGap { .. })
    ));
}

#[test]
fn prepared_reservations_chain_and_require_head_publish_tail_abort() {
    let mut stream = Stream::fresh();
    let first = stream.prepare(5, Some(50), &batch().mutations).unwrap().unwrap();
    let second = stream.prepare(6, Some(60), &[insert(3, 42)]).unwrap().unwrap();
    assert_eq!(second.before, first.after);
    assert!(stream.publish(6, second).is_err());
    assert!(stream.manager.abandon(TxnId(5)).is_err());
    stream.manager.abandon(TxnId(6)).unwrap();
    stream.publish(5, first).unwrap();
    assert_eq!(stream.inspection().prepared_unresolved_count, 0);
}

#[test]
fn grouped_prepare_and_finalize_barriers_preserve_independent_batches() {
    let mut stream = Stream::fresh();
    let first = stream.stage(5, Some(50), &batch().mutations).unwrap().unwrap();
    let second = stream.stage(6, Some(60), &[insert(3, 42)]).unwrap().unwrap();
    assert_eq!(stream.manager.sync_count(), 0);
    assert_eq!(stream.inspection().prepared_unresolved_count, 2);
    assert_eq!(stream.inspection().current_data_version, first.before);
    let one = (TxnId(5), Some(DatabaseTxnId(50)), first);
    let two = (TxnId(6), Some(DatabaseTxnId(60)), second);
    assert!(stream.group_durable(&[two, one]).is_err());
    let prepare = stream.group_durable(&[one, two]).unwrap();
    assert_eq!(prepare.syncs, 1);
    assert_eq!(prepare.first_sequence, first.sequence);
    assert_eq!(prepare.last_sequence, second.sequence);
    assert_eq!(prepare.before_frontier, first.before);
    assert_eq!(prepare.after_reserved_frontier, second.after);
    assert_eq!(stream.inspection().current_data_version, first.before);
    let done_one = (TxnId(5), first, None);
    let done_two = (TxnId(6), second, None);
    assert!(stream.finalize(&[done_two, done_one], true, SyncReason::GroupFinalize).is_err());
    let finalize =
        stream.finalize(&[done_one, done_two], true, SyncReason::GroupFinalize).unwrap();
    assert_eq!(finalize.syncs, 1);
    assert_eq!(finalize.finalized_member_count, 2);
    assert_eq!(finalize.before_committed_frontier, first.before);
    assert_eq!(finalize.after_committed_frontier, second.after);
    let inspection = stream.inspection();
    assert_eq!(inspection.prepared_unresolved_count, 0);
    assert_eq!(inspection.current_data_version, second.after);
    assert_eq!(inspection.committed_batch_count, 2);
    let counts = stream.counts();
    assert_eq!(counts.total, 2);
    assert_eq!(counts.member_prepare, 0);
    assert_eq!(counts.group_prepare, 1);
    assert_eq!(counts.member_finalize, 0);
    assert_eq!(counts.group_finalize, 1);
    let change =
        StorageChange::Insert { new_version: heap_key(3, 2, 1), after: row(42) };
    let ordinary = stream.prepare(7, Some(70), &[change]).unwrap().unwrap();
    stream.publish(7, ordinary).unwrap();
    let counts = stream.counts();
    assert_eq!(counts.total, 4);
    assert_eq!(counts.member_prepare, 1);
    assert_eq!(counts.group_prepare, 1);
    assert_eq!(counts.member_finalize, 1);
    assert_eq!(counts.group_finalize, 1);
    let again = stream.reopened(|_| AuthoritativeOutcome::Unresolved);
    assert_eq!(again.inspection().committed_batch_count, 3);
}

#[test]
fn pipelined_finalize_promotes_before_sync_and_next_prepare_checkpoints_it() {
    let mut stream = Stream::fresh();
    let first = stream.stage(10, Some(110), &[insert(20, 0)]).unwrap().unwrap();
    let second = stream.stage(11, Some(111), &[insert(21, 1)]).unwrap().unwrap();
    stream
        .group_durable(&[
            (TxnId(10), Some(DatabaseTxnId(110)), first),
            (TxnId(11), Some(DatabaseTxnId(111)), second),
        ])
        .unwrap();
    let members = [(TxnId(10), first, None), (TxnId(11), second, None)];
    let finalize = stream.finalize(&members, false, SyncReason::GroupFinalize).unwrap();
    assert_eq!(finalize.syncs, 0);
    assert_eq!(finalize.pending_finalize_checkpoints_after, 2);
    let inspection = stream.inspection();
    assert_eq!(inspection.current_data_version, second.after);
    assert_eq!(inspection.finalize_checkpointed_through, Some(first.before));
    assert_eq!(inspection.pending_finalize_checkpoint_count, 2);
    assert_eq!(inspection.prepared_unresolved_count, 0);
    let before_retry = inspection.file_bytes;
    let retry = stream.finalize(&members, false, SyncReason::GroupFinalize).unwrap();
    assert_eq!(retry.markers_staged, 0);
    assert_eq!(retry.syncs, 0);
    assert_eq!(retry.pending_finalize_checkpoints_after, 2);
    assert_eq!(stream.inspection().file_bytes, before_retry);
    assert!(matches!(stream.gc(first.after), Err(ChangeStreamError::FinalizeCheckpointPending)));

    let third = stream.stage(12, Some(112), &[insert(22, 2)]).unwrap().unwrap();
    let prepare =
        stream.group_durable(&[(TxnId(12), Some(DatabaseTxnId(112)), third)]).unwrap();
    assert_eq!(prepare.syncs, 1);
    assert_eq!(prepare.prior_finalize_checkpoints_checkpointed, 2);
    let inspection = stream.inspection();
    assert_eq!(inspection.finalize_checkpointed_through, Some(second.after));
    assert_eq!(inspection.pending_finalize_checkpoint_count, 0);
    let counts = stream.counts();
    assert_eq!(counts.total, 2);
    assert_eq!(counts.group_prepare, 2);
    assert_eq!(counts.group_finalize, 0);
    assert_eq!(counts.pipelined_finalize_checkpoint, 1);
    assert_eq!(counts.combined_finalize_prepare, 1);
    stream.publish(12, third).unwrap();
    let counts = stream.counts();
    assert_eq!(counts.total, 3);
    assert_eq!(counts.member_finalize, 1);
    assert_eq!(stream.inspection().current_data_version, third.after);
}

fn pipelined(stream: &mut Stream, txn: u64, changes: &[StorageChange<Vec<u8>>]) -> PreparedChange {
    let prepared = stream.stage(txn, Some(txn + 100), changes).unwrap().unwrap();
    stream
        .group_durable(&[(TxnId(txn), Some(DatabaseTxnId(txn + 100)), prepared)])
        .unwrap();
    stream
        .finalize(&[(TxnId(txn), prepared, None)], false, SyncReason::GroupFinalize)
        .unwrap();
    prepared
}

#[test]
fn explicit_checkpoint_flushes_one_pipelined_finalize_batch() {
    let mut stream = Stream::fresh();
    let prepared = pipelined(&mut stream, 20, &batch().mutations);
    assert_eq!(stream.checkpoint().unwrap(), 1);
    assert_eq!(stream.checkpoint().unwrap(), 0);
    let inspection = stream.inspection();
    assert_eq!(inspection.finalize_checkpointed_through, Some(prepared.after));
    assert_eq!(inspection.pending_finalize_checkpoint_count, 0);
    let counts = stream.counts();
    assert_eq!(counts.total, 2);
    assert_eq!(counts.explicit_finalize_checkpoint, 1);
    assert_eq!(counts.pipelined_finalize_checkpoint, 1);
}

#[test]
fn explicit_disable_abandons_a_pending_finalize_checkpoint() {
    let mut stream = Stream::fresh();
    pipelined(&mut stream, 25, &batch().mutations);
    assert_eq!(stream.inspection().pending_finalize_checkpoint_count, 1);
    match stream.manager.plan_disable() {
        DisablePlan::Disabled => panic!("the stream is enabled"),
        DisablePlan::Rewrite { generation, contents } => {
            stream.file = contents;
            stream.guard = None;
            stream.manager.complete_disable(generation);
        }
    }
    let inspection = stream.inspection();
    assert_eq!(inspection.status, ChangeStreamStatus::Disabled);
    assert_eq!(inspection.pending_finalize_checkpoint_count, 0);
    assert_eq!(inspection.finalize_checkpointed_through, None);
    let again = stream.reopened(|_| AuthoritativeOutcome::Committed(None));
    assert_eq!(again.inspection().status, ChangeStreamStatus::Disabled);
    assert_eq!(again.inspection().committed_batch_count, 0);
    assert!(matches!(again.manager.plan_disable(), DisablePlan::Disabled));
    assert!(matches!(again.manager.cursor(), Err(ChangeStreamError::Disabled)));
}

#[test]
fn explicit_checkpoint_failure_never_uncommits_promoted_change() {
    let mut stream = Stream::fresh();
    let prepared = pipelined(&mut stream, 30, &batch().mutations);
    stream.fail_sync = true;
    assert!(stream.checkpoint().is_err());
    assert_eq!(stream.inspection().status, ChangeStreamStatus::Unavailable);
    let again = stream.reopened(|txn_id| {
        assert_eq!(txn_id, TxnId(30));
        AuthoritativeOutcome::Committed(None)
    });
    assert_eq!(again.inspection().current_data_version, prepared.after);
    assert_eq!(again.inspection().committed_batch_count, 1);
    assert_eq!(again.inspection().pending_finalize_checkpoint_count, 0);
}

#[test]
fn recovery_repairs_many_missing_finalizes_with_one_sync() {
    let header = header();
    let mut bytes = encode_header(&header);
    for index in 0..1024_u64 {
        let batch = ChangeBatch {
            sequence: index + 1,
            physical_txn_id: TxnId(index + 1),
            database_txn_id: Some(DatabaseTxnId(index + 1)),
            table_id: header.table_id,
            storage_id: header.storage_id,
            schema_fingerprint: header.fingerprint,
            before: StorageDataVersion(header.current.0 + index),
            after: StorageDataVersion(header.current.0 + index + 1),
            mutations: vec![insert(index + 1, index as i64)],
        };
        bytes.extend_from_slice(&encode_record(&batch).unwrap());
    }
    let stream = Stream::open(bytes, None, |_| AuthoritativeOutcome::Committed(None));
    let inspection = stream.inspection();
    assert_eq!(inspection.committed_batch_count, 1024);
    assert_eq!(
        inspection.current_data_version,
        StorageDataVersion(header.current.0 + 1024)
    );
    assert_eq!(inspection.pending_finalize_checkpoint_count, 0);
    assert_eq!(stream.counts().total, 1);
    assert_eq!(stream.counts().recovery_finalize, 1);
    let again = stream.reopened(|_| AuthoritativeOutcome::Committed(None));
    assert_eq!(again.inspection().committed_batch_count, 1024);
    assert_eq!(again.counts().recovery_finalize, 0);
}

#[test]
fn grouped_torn_finalize_tail_is_repaired_but_full_checksum_corruption_is_rejected() {
    let mut stream = Stream::fresh();
    let prepared = stream.prepare(40, Some(140), &batch().mutations).unwrap().unwrap();
    stream.publish(40, prepared).unwrap();
    let whole = stream.file.clone();
    stream.file.truncate(whole.len() - 3);
    let again = stream.reopened(|_| AuthoritativeOutcome::Committed(None));
    assert_eq!(again.inspection().current_data_version, prepared.after);
    assert_eq!(again.file, whole);
    let mut corrupt = whole;
    let last = corrupt.len() - 1;
    corrupt[last] ^= 1;
    let refused = Stream::open(corrupt, stream.guard.clone(), |_| {
        AuthoritativeOutcome::Committed(None)
    });
    assert_eq!(refused.inspection().status, ChangeStreamStatus::Unavailable);
}

#[test]
fn batch_debug_and_inspection_do_not_dump_row_payloads() {
    let batch = batch();
    let inspection = batch.inspection();
    assert_eq!(inspection.mutation_count, 1);
    let debug = format!("{inspection:?}");
    assert!(debug.contains("mutation_count: 1"));
    assert!(!debug.contains("42"));
}

#[test]
fn v1_gc_migrates_to_v2_and_future_sequence_stays_monotonic() {
    let first = batch();
    let mut fixture = header();
    fixture.version = 1;
    let mut bytes = encode_v1_header(&fixture);
    bytes.extend_from_slice(&encode_record(&first).unwrap());
    bytes.extend_from_slice(&encode_finalize(first.physical_txn_id, None).unwrap());
    let mut stream = Stream::open(bytes, None, |_| AuthoritativeOutcome::Unresolved);
    let report = stream.gc(first.after).expect("migrate v1 through current");
    assert_eq!(report.batches_removed, 1);
    assert_eq!(report.mutations_removed, 1);
    assert_eq!(report.new_earliest_frontier, first.after);
    assert_eq!(report.bytes_after, V2_HEADER_SIZE as u64);
    assert_eq!(u16::from_le_bytes([stream.file[4], stream.file[5]]), 2);

    let mut again = stream.reopened(|_| AuthoritativeOutcome::Unresolved);
    let change = StorageChange::Insert { new_version: heap_key(3, 0, 1), after: row(99) };
    let prepared = again.prepare(5, None, &[change]).unwrap().expect("prepared identity");
    again.publish(5, prepared).expect("publish post-GC");
    let result = again.read(first.after);
    assert_eq!(result.batches[0].sequence, 2);
    assert_eq!(result.batches[0].before, first.after);
}

#[test]
fn aborted_and_unresolved_records_are_told_apart() {
    let mut stream = Stream::fresh();
    let kept = stream.prepare(5, None, &[insert(3, 1)]).unwrap().unwrap();
    let aborted = stream.reopened(|_| AuthoritativeOutcome::Aborted);
    assert_eq!(aborted.inspection().prepared_unresolved_count, 0);
    assert_eq!(aborted.inspection().current_data_version, kept.before);
    let unresolved = stream.reopened(|_| AuthoritativeOutcome::Unresolved);
    assert_eq!(unresolved.inspection().prepared_unresolved_count, 1);
    let committed = stream.reopened(|_| AuthoritativeOutcome::Committed(None));
    assert_eq!(committed.inspection().current_data_version, kept.after);
}

#[test]
fn reads_are_bounded_and_checked_against_the_stream() {
    let mut stream = Stream::fresh();
    for number in 0..3_u64 {
        let prepared = stream.prepare(10 + number, None, &[insert(20 + number, 1)]).unwrap().unwrap();
        stream.publish(10 + number, prepared).unwrap();
    }
    let start = ChangeStreamCursor {
        storage_id: StorageId(8),
        generation: ChangeStreamGeneration(3),
        frontier: StorageDataVersion(11),
    };
    let two = stream.manager.read(start, 2, 1_000_000).expect("read");
    assert_eq!(two.batches.len(), 2);
    assert!(two.has_more);
    assert_eq!(two.current_frontier, StorageDataVersion(14));
    let all = stream.manager.read(start, 10, 1_000_000).expect("read");
    assert_eq!(all.batches.len(), 3);
    assert!(!all.has_more);
    let refused = |cursor: ChangeStreamCursor| stream.manager.read(cursor, 1, 100).err();
    assert_eq!(
        refused(ChangeStreamCursor { storage_id: StorageId(9), ..start }),
        Some(ChangeStreamError::ContextMismatch)
    );
    assert_eq!(
        refused(ChangeStreamCursor { generation: ChangeStreamGeneration(4), ..start }),
        Some(ChangeStreamError::StreamIdentityMismatch)
    );
    assert_eq!(
        refused(ChangeStreamCursor { frontier: StorageDataVersion(2), ..start }),
        Some(ChangeStreamError::HistoryUnavailable)
    );
    assert_eq!(stream.manager.cursor().unwrap().frontier, StorageDataVersion(14));
}

#[test]
fn retention_pins_hold_history_back() {
    let mut stream = Stream::fresh();
    for number in 0..2_u64 {
        let prepared = stream.prepare(10 + number, None, &[insert(20 + number, 1)]).unwrap().unwrap();
        stream.publish(10 + number, prepared).unwrap();
    }
    let start = ChangeStreamCursor {
        storage_id: StorageId(8),
        generation: ChangeStreamGeneration(3),
        frontier: StorageDataVersion(11),
    };
    let mut pin = stream.manager.acquire_retention_pin(start).expect("pin");
    assert_eq!(pin.frontier(), StorageDataVersion(11));
    assert_eq!(pin.cursor(), start);
    assert_eq!(
        stream.gc(StorageDataVersion(12)).err(),
        Some(ChangeStreamError::RetentionPinned {
            requested: StorageDataVersion(12),
            pinned: StorageDataVersion(11),
        })
    );
    stream.manager.advance_retention_pin(&mut pin, true, StorageDataVersion(12)).expect("advance");
    assert!(matches!(
        stream.manager.advance_retention_pin(&mut pin, true, StorageDataVersion(11)),
        Err(ChangeStreamError::RetentionPinFrontierRegression { .. })
    ));
    let report = stream.gc(StorageDataVersion(12)).expect("gc");
    assert_eq!(report.batches_removed, 1);
    pin.release(&mut stream.manager.retention_pins);
    assert_eq!(stream.gc(StorageDataVersion(13)).expect("gc").batches_removed, 1);
    assert!(matches!(
        stream.manager.acquire_retention_pin(start),
        Err(ChangeStreamError::HistoryUnavailable)
    ));
}

#[test]
fn streams_are_enabled_with_a_new_generation() {
    let mut manager = ChangeStreamManager::disabled(
        ChangeStorageKind::Heap,
        StorageId(8),
        TableId(9),
        fingerprint(),
    );
    assert!(!manager.requires_changes());
    match manager.plan_enable(StorageDataVersion(40)).expect("plan") {
        EnablePlan::Enabled(_) => panic!("the stream is disabled"),
        EnablePlan::Rewrite { header, contents } => {
            assert_eq!(decode_header(&contents).expect("header").origin, StorageDataVersion(40));
            let cursor = manager.complete_enable(header);
            assert_eq!(cursor.generation, ChangeStreamGeneration(1));
            assert_eq!(cursor.frontier, StorageDataVersion(40));
        }
    }
    assert!(manager.requires_changes());
    assert!(matches!(
        manager.plan_enable(StorageDataVersion(41)).expect("plan"),
        EnablePlan::Enabled(_)
    ));
    let error = ChangeStreamError::Io(String::from("disk"));
    manager.poison_after_io_error(&error);
    assert!(matches!(
        manager.ensure_mutation_available(),
        Err(ChangeStreamError::Unavailable(reason)) if reason == "change-log I/O error: disk"
    ));
}

#[test]
fn a_missing_or_foreign_log_makes_the_stream_unavailable() {
    let open = |contents: Option<&[u8]>, guard: GuardFile| match ChangeStreamManager::open(
        ChangeStorageKind::Heap,
        StorageId(8),
        TableId(9),
        fingerprint(),
        contents,
        guard,
        &[],
    ) {
        OpenStep::Done { manager, .. } => manager.inspection(0),
        OpenStep::Recover { .. } => panic!("nothing to recover"),
    };
    assert_eq!(open(None, GuardFile::Missing).status, ChangeStreamStatus::Disabled);
    let guard = encode_header(&header());
    let lost = open(None, GuardFile::Found(&guard));
    assert_eq!(lost.status, ChangeStreamStatus::Unavailable);
    assert_eq!(lost.last_error, Some(String::from("active change log is missing")));
    assert_eq!(lost.generation, Some(ChangeStreamGeneration(3)));
    let mut foreign = header();
    foreign.storage_id = StorageId(77);
    let bytes = encode_header(&foreign);
    assert_eq!(
        open(Some(&bytes), GuardFile::Missing).last_error,
        Some(String::from("persisted identity does not match authoritative storage"))
    );
}

#[test]
fn pending_changes_of_one_row_fold_into_one() {
    let mut set: PendingChangeSet<i64> = PendingChangeSet::new();
    set.record_insert(heap_key(1, 1, 1), 10);
    set.record_update(heap_key(1, 1, 1), heap_key(1, 1, 2), 20);
    assert_eq!(
        set.as_slice(),
        &[StorageChange::Insert { new_version: heap_key(1, 1, 2), after: 20 }]
    );
    set.record_delete(heap_key(1, 1, 2));
    assert!(set.as_slice().is_empty());
    set.record_update(heap_key(2, 1, 1), heap_key(2, 1, 2), 30);
    set.record_update(heap_key(2, 1, 2), heap_key(2, 1, 3), 40);
    assert_eq!(
        set.as_slice(),
        &[StorageChange::Update {
            old_version: heap_key(2, 1, 1),
            new_version: heap_key(2, 1, 3),
            after: 40,
        }]
    );
    set.record_delete(heap_key(2, 1, 3));
    assert_eq!(set.as_slice(), &[StorageChange::Delete { old_version: heap_key(2, 1, 1) }]);
    set.clear();
    assert!(set.as_slice().is_empty());
}

#[test]
fn log_structured_versions_are_resolved_at_commit() {
    let key = |version: u64| StorageVersionKey::Lsm {
        storage_id: StorageId(8),
        row_id: LsmRowId(5),
        version: LsmCommitSeq(version),
    };
    assert_eq!(key(1).storage_id(), StorageId(8));
    let mut lsm = batch();
    lsm.mutations = vec![StorageChange::Insert { new_version: key(0), after: row(1) }];
    resolve_lsm_versions(&mut lsm, LsmCommitSeq(33));
    assert!(lsm.mutations[0] == StorageChange::Insert { new_version: key(33), after: row(1) });
}

#[test]
fn finalize_markers_round_trip() {
    for commit in [None, Some(LsmCommitSeq(9))] {
        let marker = encode_finalize(TxnId(4), commit).unwrap();
        assert_eq!(marker.len(), 32);
        assert_eq!(decode_finalize(&marker[4..28]).unwrap(), (TxnId(4), commit));
        assert_eq!(
            crc32c::crc32c(&marker[4..28]).to_le_bytes(),
            marker[28..32],
        );
    }
}

#[test]
fn loading_a_log_gives_back_what_was_written() {
    let mut bytes = encode_header(&header());
    bytes.extend_from_slice(&encode_record(&batch()).unwrap());
    let whole = bytes.len() as u64;
    bytes.extend_from_slice(&[1, 2]);
    let loaded = load_file(&bytes, true, &[]).unwrap();
    assert_eq!(loaded.file_bytes, whole);
    assert_eq!(loaded.records.len(), 1);
    assert!(loaded.records[0].batch == batch());
    assert!(load_file(&bytes, false, &[]).is_err());
}

#[test]
fn files_of_a_stream_lie_beside_the_storage() {
    assert_eq!(heap_change_log_path("/data/t.heap"), "/data/t.heap.change");
    assert_eq!(lsm_change_log_path("/data/lsm"), "/data/lsm/change.nbcl");
    assert_eq!(lsm_change_log_path("/data/lsm/"), "/data/lsm/change.nbcl");
    assert_eq!(change_stream_guard_path("/data/t.heap.change"), "/data/t.heap.change.active");
}

#[test]
fn errors_say_what_was_wrong() {
    assert_eq!(ChangeStreamError::UnsupportedVersion(7).to_text(), "unsupported change-log format version 7");
    assert_eq!(ChangeStreamError::Truncated { offset: 104 }.to_text(), "change-log is truncated at byte 104");
    assert_eq!(
        ChangeStreamError::ChangeGap {
            expected: StorageDataVersion(11),
            actual: StorageDataVersion(99),
        }
        .to_text(),
        "change stream has a frontier gap: expected 11, found 99"
    );
}

#[test]
fn row_images_that_are_no_rows_are_not_read() {
    let encoded = encode_record(&batch()).unwrap();
    let payload = &encoded[4..encoded.len() - 4];
    let refused = [row(7), row(42)];
    let error = ChangeStreamError::InvalidRecord("invalid canonical row payload");
    assert!(decode_record(payload, &header(), &[row(7)]).unwrap() == batch());
    assert!(matches!(decode_record(payload, &header(), &refused), Err(found) if found == error));
    let mut bytes = encode_header(&header());
    bytes.extend_from_slice(&encoded);
    assert!(matches!(load_file(&bytes, true, &refused), Err(found) if found == error));
    assert_eq!(
        validate_change_log_file(&bytes, TableId(9), Some(fingerprint()), &refused),
        Err(error)
    );
    let step = ChangeStreamManager::open(
        ChangeStorageKind::Heap,
        StorageId(8),
        TableId(9),
        fingerprint(),
        Some(&bytes),
        GuardFile::Missing,
        &refused,
    );
    match step {
        OpenStep::Done { manager, .. } => {
            assert_eq!(manager.inspection(0).status, ChangeStreamStatus::Unavailable);
        }
        OpenStep::Recover { .. } => panic!("the log is refused"),
    }
}

#[test]
fn maintenance_tells_the_exact_bytes_of_every_batch() {
    let mut stream = Stream::fresh();
    let mut sizes = Vec::new();
    for number in 0..3_u64 {
        let changes: Vec<StorageChange<Vec<u8>>> =
            (0..number + 1).map(|place| insert(10 * number + place + 1, 5)).collect();
        let before = stream.file.len() as u64;
        let prepared = stream.prepare(30 + number, None, &changes).unwrap().unwrap();
        sizes.push(stream.file.len() as u64 - before);
        stream.publish(30 + number, prepared).unwrap();
    }
    let check = |stream: &Stream, sizes: &[u64]| {
        let found = stream.manager.maintenance_inspection(stream.file.len() as u64);
        assert_eq!(found.batches.len(), sizes.len());
        let mut total = V2_HEADER_SIZE as u64;
        for (batch, size) in found.batches.iter().zip(sizes) {
            assert_eq!(batch.change_bytes, *size);
            assert_eq!(batch.retained_file_bytes, *size + 32);
            total += batch.retained_file_bytes;
        }
        assert_eq!(found.rewrite_header_bytes, V2_HEADER_SIZE as u64);
        assert_eq!(stream.file.len() as u64, total);
        assert_eq!(found.stream, stream.inspection());
    };
    check(&stream, &sizes);
    check(&stream.reopened(|_| AuthoritativeOutcome::Unresolved), &sizes);
    let mut cut = stream.reopened(|_| AuthoritativeOutcome::Unresolved);
    cut.file.truncate(cut.file.len() - 32);
    check(&cut.reopened(|_| AuthoritativeOutcome::Committed(None)), &sizes);
    let report = stream.gc(StorageDataVersion(12)).expect("gc");
    assert_eq!(report.bytes_after, stream.file.len() as u64);
    check(&stream, &sizes[1..]);
}

#[test]
fn frontiers_are_as_far_apart_as_there_are_batches() {
    let mut stream = Stream::fresh();
    let check = |stream: &Stream| {
        let found = stream.inspection();
        let earliest = found.earliest_available_frontier.expect("earliest");
        let origin = found.stream_origin_frontier.expect("origin");
        let checkpointed = found.finalize_checkpointed_through.expect("checkpointed");
        assert!(origin <= earliest && earliest <= checkpointed);
        assert!(checkpointed <= found.current_data_version);
        assert_eq!(
            found.current_data_version.0 - earliest.0,
            found.committed_batch_count
        );
        for frontier in earliest.0..found.current_data_version.0 + 1 {
            let read = stream.read(StorageDataVersion(frontier));
            assert_eq!(read.batches.len() as u64, found.current_data_version.0 - frontier);
        }
    };
    check(&stream);
    for number in 0..4_u64 {
        pipelined(&mut stream, 50 + number, &[insert(40 + number, 1)]);
        check(&stream);
    }
    stream.checkpoint().expect("checkpoint");
    check(&stream);
    stream.gc(StorageDataVersion(13)).expect("gc");
    check(&stream);
    check(&stream.reopened(|_| AuthoritativeOutcome::Unresolved));
}

fn chained(number: u64) -> ChangeBatch {
    ChangeBatch {
        sequence: number,
        physical_txn_id: TxnId(number),
        database_txn_id: None,
        before: StorageDataVersion(10 + number),
        after: StorageDataVersion(11 + number),
        mutations: vec![insert(number, number as i64)],
        ..batch()
    }
}

#[test]
fn a_torn_log_is_recovered_with_one_sync_and_reopened_without() {
    let mut bytes = encode_header(&header());
    for number in 1..4_u64 {
        bytes.extend_from_slice(&encode_record(&chained(number)).unwrap());
    }
    bytes.extend_from_slice(&encode_finalize(TxnId(2), None).unwrap());
    let whole = bytes.len();
    let torn = encode_record(&chained(4)).unwrap();
    for written in 0..torn.len() {
        bytes.truncate(whole);
        bytes.extend_from_slice(&torn[..written]);
        let first = Stream::open(bytes.clone(), None, |_| AuthoritativeOutcome::Committed(None));
        let found = first.inspection();
        assert_eq!(found.status, ChangeStreamStatus::Enabled);
        assert_eq!(found.committed_batch_count, 3);
        assert_eq!(found.current_data_version, StorageDataVersion(14));
        assert_eq!(found.finalize_checkpointed_through, Some(StorageDataVersion(14)));
        assert_eq!(found.pending_finalize_checkpoint_count, 0);
        assert_eq!(found.prepared_unresolved_count, 0);
        assert_eq!((first.counts().total, first.counts().recovery_finalize), (1, 1));
        let mut repaired = bytes[..whole].to_vec();
        repaired.extend_from_slice(&encode_finalize(TxnId(1), None).unwrap());
        repaired.extend_from_slice(&encode_finalize(TxnId(3), None).unwrap());
        assert_eq!(first.file, repaired);
        let second = first.reopened(|_| AuthoritativeOutcome::Unresolved);
        assert_eq!(second.inspection(), found);
        assert_eq!((second.counts().total, second.counts().recovery_finalize), (0, 0));
        assert_eq!(second.file, repaired);
        let origin = StorageDataVersion(11);
        assert!(second.read(origin).batches == first.read(origin).batches);
        assert!(second.read(origin).batches == vec![chained(1), chained(2), chained(3)]);
    }
}

#[test]
fn only_a_logged_reservation_can_skip_a_frontier() {
    let mut skipping = batch();
    skipping.after = StorageDataVersion(13);
    let mut bytes = encode_header(&header());
    bytes.extend_from_slice(&encode_record(&skipping).unwrap());
    let mut stream = Stream::open(bytes, None, |_| AuthoritativeOutcome::Unresolved);
    let found = stream.inspection();
    assert_eq!(found.prepared_unresolved_count, 1);
    assert_eq!(found.current_data_version, StorageDataVersion(11));
    assert_eq!(found.committed_batch_count, 0);
    let prepared = PreparedChange {
        sequence: 1,
        before: StorageDataVersion(11),
        after: StorageDataVersion(13),
    };
    stream.publish(4, prepared).expect("publish");
    let found = stream.inspection();
    assert_eq!(found.current_data_version, StorageDataVersion(13));
    assert_eq!(found.committed_batch_count, 1);
    let again = stream.reopened(|_| AuthoritativeOutcome::Unresolved);
    assert_eq!(again.inspection().status, ChangeStreamStatus::Unavailable);
}

#[test]
fn row_images_in_front_of_damage_are_judged() {
    let mut bytes = encode_header(&header());
    bytes.extend_from_slice(&encode_record(&chained(1)).unwrap());
    let offset = bytes.len() as u64;
    let mut update = chained(2);
    update.mutations = vec![
        StorageChange::Update {
            old_version: heap_key(1, 1, 1),
            new_version: heap_key(2, 1, 1),
            after: row(20),
        },
        StorageChange::Delete { old_version: heap_key(3, 1, 1) },
        insert(4, 21),
    ];
    bytes.extend_from_slice(&encode_record(&update).unwrap());
    assert_eq!(row_images(&bytes), vec![row(1), row(20), row(21)]);
    let last = bytes.len() - 1;
    bytes[last] ^= 1;
    assert_eq!(row_images(&bytes), vec![row(1)]);
    let damage = ChangeStreamError::ChecksumMismatch { offset };
    assert!(matches!(load_file(&bytes, true, &[]), Err(found) if found == damage));
    let refusal = ChangeStreamError::InvalidRecord("invalid canonical row payload");
    assert!(matches!(load_file(&bytes, true, &[row(1)]), Err(found) if found == refusal));
    // Images that are not in the log make no difference.
    assert!(matches!(load_file(&bytes, true, &[row(7)]), Err(found) if found == damage));
    assert_eq!(row_images(&bytes[..50]), Vec::<Vec<u8>>::new());
}
