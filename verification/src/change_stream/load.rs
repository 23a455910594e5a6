//! Reading a whole change log.
use super::error::ChangeStreamError;
use super::log;
use super::log::{
    Header, CHANGE_LOG_FORMAT_VERSION, CHANGE_LOG_MAX_RECORD_BYTES, FINALIZE_TAG, PREPARED_TAG,
    V1_HEADER_SIZE, V2_HEADER_SIZE,
};
use super::record;
use super::types::{BatchView, ChangeBatch};
use crate::bytes;
use crate::checksum;
use crate::ids::{LsmCommitSeq, TxnId};
use vstd::prelude::*;

verus! {

broadcast use crate::bytes::group_le_len;

/// What the transaction log says of a prepared transaction.
#[derive(Debug, Clone, Copy, PartialEq, Eq, Structural)]
pub enum AuthoritativeOutcome {
    Committed(Option<LsmCommitSeq>),
    Aborted,
    Unresolved,
}

/// A prepared batch with what is known of its transaction.
#[derive(PartialEq, Eq)]
pub struct PreparedRecord {
    pub batch: ChangeBatch,
    pub outcome: AuthoritativeOutcome,
    pub finalized: bool,
    pub prepared_durable: bool,
    pub staged_finalize: Option<Option<LsmCommitSeq>>,
    pub prepared_file_bytes: u64,
    pub retained_file_bytes: u64,
}

/// What a prepared record says.
pub struct RecordView {
    pub batch: BatchView,
    pub outcome: AuthoritativeOutcome,
    pub finalized: bool,
    pub prepared_durable: bool,
    pub staged_finalize: Option<Option<LsmCommitSeq>>,
    pub prepared_file_bytes: u64,
    pub retained_file_bytes: u64,
}

impl View for PreparedRecord {
    type V = RecordView;

    open spec fn view(&self) -> RecordView {
        RecordView {
            batch: self.batch@,
            outcome: self.outcome,
            finalized: self.finalized,
            prepared_durable: self.prepared_durable,
            staged_finalize: self.staged_finalize,
            prepared_file_bytes: self.prepared_file_bytes,
            retained_file_bytes: self.retained_file_bytes,
        }
    }
}

/// What a list of prepared records says.
pub open spec fn records_view(records: Seq<PreparedRecord>) -> Seq<RecordView> {
    records.map_values(|entry: PreparedRecord| entry@)
}

/// The first record of a transaction.
pub open spec fn record_position(records: Seq<RecordView>, txn_id: TxnId) -> Option<int>
    decreases records.len(),
{
    if records.len() == 0 {
        None
    } else if let Some(earlier) = record_position(records.drop_last(), txn_id) {
        Some(earlier)
    } else if records.last().batch.physical_txn_id == txn_id {
        Some(records.len() - 1)
    } else {
        None
    }
}

/// The record that the first one of its transaction is: nothing before it
/// belongs to the transaction, and without one nothing does.
pub proof fn lemma_record_position(records: Seq<RecordView>, txn_id: TxnId)
    ensures
        match record_position(records, txn_id) {
            Some(found) => {
                &&& 0 <= found < records.len()
                &&& records[found].batch.physical_txn_id == txn_id
                &&& forall|i: int|
                    0 <= i < found ==> (#[trigger] records[i]).batch.physical_txn_id != txn_id
            },
            None => forall|i: int|
                0 <= i < records.len() ==> (#[trigger] records[i]).batch.physical_txn_id != txn_id,
        },
    decreases records.len(),
{
    if records.len() > 0 {
        let earlier = records.drop_last();
        lemma_record_position(earlier, txn_id);
        assert forall|i: int| 0 <= i < records.len() - 1 implies #[trigger] records[i]
            == earlier[i] by {}
    }
}

/// A position is the first of its transaction where nothing before it belongs
/// to the transaction.
pub proof fn lemma_record_position_is(records: Seq<RecordView>, txn_id: TxnId, found: int)
    requires
        0 <= found < records.len(),
        records[found].batch.physical_txn_id == txn_id,
        forall|i: int| 0 <= i < found ==> (#[trigger] records[i]).batch.physical_txn_id != txn_id,
    ensures
        record_position(records, txn_id) == Some(found),
{
    lemma_record_position(records, txn_id);
    match record_position(records, txn_id) {
        Some(other) => {
            if other < found {
                assert(records[other].batch.physical_txn_id != txn_id);
            }
        },
        None => {
            assert(records[found].batch.physical_txn_id != txn_id);
        },
    }
}

/// The first record of a transaction.
pub fn find_record(records: &Vec<PreparedRecord>, txn_id: TxnId) -> (found: Option<usize>)
    ensures
        match record_position(records_view(records@), txn_id) {
            Some(position) => found is Some && found->0 == position,
            None => found is None,
        },
        found matches Some(position) ==> position < records@.len()
            && records@[position as int].batch.physical_txn_id == txn_id,
{
    let ghost views = records_view(records@);
    let mut i: usize = 0;
    while i < records.len()
        invariant
            i <= records@.len(),
            views == records_view(records@),
            forall|k: int| 0 <= k < i ==> (#[trigger] views[k]).batch.physical_txn_id != txn_id,
        decreases records@.len() - i,
    {
        assert(views[i as int] == records@[i as int]@);
        if records[i].batch.physical_txn_id == txn_id {
            proof {
                lemma_record_position_is(views, txn_id, i as int);
            }
            return Some(i);
        }
        i = i + 1;
    }
    proof {
        lemma_record_position(views, txn_id);
    }
    None
}

/// The record that a newly read batch starts with.
pub open spec fn loaded_record(batch: BatchView, size: u64) -> RecordView {
    RecordView {
        batch,
        outcome: AuthoritativeOutcome::Unresolved,
        finalized: false,
        prepared_durable: true,
        staged_finalize: None,
        prepared_file_bytes: size,
        retained_file_bytes: size,
    }
}

/// A record after its finalize marker of `size` bytes was read.
pub open spec fn finalized_record(
    entry: RecordView,
    commit: Option<LsmCommitSeq>,
    size: u64,
) -> RecordView {
    RecordView {
        finalized: true,
        outcome: AuthoritativeOutcome::Committed(commit),
        retained_file_bytes: (entry.retained_file_bytes + size) as u64,
        ..entry
    }
}

/// The records after one more payload, which takes `size` bytes of the log; or
/// why the payload is refused.
pub open spec fn entry_applied(
    records: Seq<RecordView>,
    payload: Seq<u8>,
    header: Header,
    size: u64,
    refused: Set<Seq<u8>>,
) -> Result<Seq<RecordView>, ChangeStreamError> {
    if payload.len() > 0 && payload[0] == PREPARED_TAG {
        match record::record_of(payload, header, refused) {
            Err(error) => Err(error),
            Ok(batch) => Ok(records.push(loaded_record(batch, size))),
        }
    } else if payload.len() > 0 && payload[0] == FINALIZE_TAG {
        match record::finalize_of(payload) {
            Err(error) => Err(error),
            Ok((txn_id, commit)) => match record_position(records, txn_id) {
                None => Err(
                    ChangeStreamError::InvalidRecord("finalize marker has no prepared batch"),
                ),
                Some(found) => if records[found].finalized {
                    Err(ChangeStreamError::InvalidRecord("duplicate finalize marker"))
                } else if records[found].retained_file_bytes + size > u64::MAX {
                    Err(ChangeStreamError::RecordTooLarge(u64::MAX))
                } else {
                    Ok(records.update(found, finalized_record(records[found], commit, size)))
                },
            },
        }
    } else {
        Err(ChangeStreamError::InvalidRecord("unknown record tag"))
    }
}

/// Adds one more payload, which takes `size` bytes of the log, to the records.
pub fn apply_entry(
    records: &mut Vec<PreparedRecord>,
    payload: &[u8],
    header: &Header,
    size: u64,
    refused: &[Vec<u8>],
) -> (done: Result<(), ChangeStreamError>)
    ensures
        match entry_applied(
            records_view(old(records)@),
            payload@,
            *header,
            size,
            record::refused_rows(refused@),
        ) {
            Err(error) => done == Err::<(), ChangeStreamError>(error) && final(records)@ == old(
                records,
            )@,
            Ok(value) => done == Ok::<(), ChangeStreamError>(()) && records_view(final(records)@)
                == value,
        },
{
    if payload.len() > 0 && payload[0] == PREPARED_TAG {
        let batch = record::decode_record(payload, header, refused)?;
        let entry = PreparedRecord {
            batch,
            outcome: AuthoritativeOutcome::Unresolved,
            finalized: false,
            prepared_durable: true,
            staged_finalize: None,
            prepared_file_bytes: size,
            retained_file_bytes: size,
        };
        records.push(entry);
        assert(records_view(records@) =~= records_view(old(records)@).push(entry@));
        Ok(())
    } else if payload.len() > 0 && payload[0] == FINALIZE_TAG {
        let (txn_id, commit): (TxnId, Option<LsmCommitSeq>) = record::decode_finalize(payload)?;
        match find_record(records, txn_id) {
            None => Err(ChangeStreamError::InvalidRecord("finalize marker has no prepared batch")),
            Some(found) => {
                assert(records_view(records@)[found as int] == records@[found as int]@);
                if records[found].finalized {
                    return Err(ChangeStreamError::InvalidRecord("duplicate finalize marker"));
                }
                match records[found].retained_file_bytes.checked_add(size) {
                    None => Err(ChangeStreamError::RecordTooLarge(u64::MAX)),
                    Some(retained) => {
                        records[found].finalized = true;
                        records[found].outcome = AuthoritativeOutcome::Committed(commit);
                        records[found].retained_file_bytes = retained;
                        assert(records_view(records@) =~= records_view(old(records)@).update(
                            found as int,
                            finalized_record(records_view(old(records)@)[found as int], commit, size),
                        ));
                        Ok(())
                    },
                }
            },
        }
    } else {
        Err(ChangeStreamError::InvalidRecord("unknown record tag"))
    }
}

/// The records of the log `s` from `at` on, added to `records`, with the
/// number of bytes that hold them; or why the log is refused. With `recover` a
/// last entry that the log does not hold whole is left out.
pub open spec fn entries_from(
    s: Seq<u8>,
    at: int,
    header: Header,
    records: Seq<RecordView>,
    recover: bool,
    refused: Set<Seq<u8>>,
) -> Result<(Seq<RecordView>, int), ChangeStreamError>
    decreases s.len() - at,
{
    let length = bytes::u32_at(s, at);
    let end = at + 4 + length;
    let payload = s.subrange(at + 4, end);
    if at >= s.len() {
        Ok((records, s.len() as int))
    } else if at + 4 > s.len() {
        torn_tail(records, at, recover)
    } else if length == 0 || length > CHANGE_LOG_MAX_RECORD_BYTES {
        Err(ChangeStreamError::RecordTooLarge(length as u64))
    } else if end + 4 > s.len() {
        torn_tail(records, at, recover)
    } else if checksum::crc32c_of(payload) != bytes::u32_at(s, end) {
        Err(ChangeStreamError::ChecksumMismatch { offset: at as u64 })
    } else {
        match entry_applied(records, payload, header, (8 + length) as u64, refused) {
            Err(error) => Err(error),
            Ok(next) => entries_from(s, end + 4, header, next, recover, refused),
        }
    }
}

/// What becomes of a last entry that the log does not hold whole.
pub open spec fn torn_tail(records: Seq<RecordView>, at: int, recover: bool) -> Result<
    (Seq<RecordView>, int),
    ChangeStreamError,
> {
    if recover {
        Ok((records, at))
    } else {
        Err(ChangeStreamError::Truncated { offset: at as u64 })
    }
}

/// The header at the front of a log, or why there is none.
pub open spec fn front_of(s: Seq<u8>) -> Result<Header, ChangeStreamError> {
    let version = bytes::u16_at(s, 4);
    let front = s.subrange(0, log::header_size(version));
    if s.len() < 6 {
        Err(ChangeStreamError::Truncated { offset: 0 })
    } else if s.subrange(0, 4) != log::magic() {
        Err(ChangeStreamError::InvalidMagic)
    } else if version != 1 && version != CHANGE_LOG_FORMAT_VERSION {
        Err(ChangeStreamError::UnsupportedVersion(version))
    } else if s.len() < log::header_size(version) {
        Err(ChangeStreamError::Truncated { offset: 0 })
    } else {
        log::header_of(front, log::header_check(front))
    }
}

/// A change log as its bytes tell it.
pub struct LogView {
    pub header: Header,
    pub records: Seq<RecordView>,
    /// The bytes that hold the header and the records.
    pub file_bytes: int,
}

/// The log in `s`, or why it is refused. The log of a disabled stream has no
/// records.
pub open spec fn log_of(
    s: Seq<u8>,
    recover: bool,
    refused: Set<Seq<u8>>,
) -> Result<LogView, ChangeStreamError> {
    match front_of(s) {
        Err(error) => Err(error),
        Ok(header) => if !header.active {
            Ok(LogView { header, records: Seq::empty(), file_bytes: s.len() as int })
        } else {
            match entries_from(
                s,
                log::header_size(header.version),
                header,
                Seq::empty(),
                recover,
                refused,
            ) {
                Err(error) => Err(error),
                Ok((records, file_bytes)) => Ok(LogView { header, records, file_bytes }),
            }
        },
    }
}

/// A change log that was read.
pub struct LoadedLog {
    pub header: Header,
    pub records: Vec<PreparedRecord>,
    pub file_bytes: u64,
}

/// Reads the header at the front of a log.
pub(crate) fn read_front(input: &[u8]) -> (header: Result<Header, ChangeStreamError>)
    ensures
        header == front_of(input@),
        header is Ok ==> log::header_size(header->Ok_0.version) <= input@.len(),
{
    if input.len() < 6 {
        return Err(ChangeStreamError::Truncated { offset: 0 });
    }
    let magic_matches: bool = input[0] == 78 && input[1] == 66 && input[2] == 67 && input[3] == 76;
    proof {
        if magic_matches {
            assert(input@.subrange(0, 4) =~= log::magic());
        } else {
            assert(input@.subrange(0, 4)[0] == input@[0]);
            assert(input@.subrange(0, 4)[1] == input@[1]);
            assert(input@.subrange(0, 4)[2] == input@[2]);
            assert(input@.subrange(0, 4)[3] == input@[3]);
        }
    }
    if !magic_matches {
        return Err(ChangeStreamError::InvalidMagic);
    }
    let version: u16 = bytes::u16_from(input, 4);
    if version != 1 && version != CHANGE_LOG_FORMAT_VERSION {
        return Err(ChangeStreamError::UnsupportedVersion(version));
    }
    let size: usize = if version == 1 { V1_HEADER_SIZE } else { V2_HEADER_SIZE };
    if input.len() < size {
        return Err(ChangeStreamError::Truncated { offset: 0 });
    }
    let front = &input[0..size];
    proof {
        reveal(bytes::u16_at);
        assert(front@[4] == input@[4] && front@[5] == input@[5]);
        assert(bytes::u16_at(front@, 4) == version);
    }
    log::decode_header(front)
}

fn read_entries(
    input: &[u8],
    header: &Header,
    start: usize,
    recover: bool,
    refused: &[Vec<u8>],
) -> (loaded: Result<
    (Vec<PreparedRecord>, usize),
    ChangeStreamError,
>)
    requires
        start <= input@.len(),
    ensures
        match entries_from(
            input@,
            start as int,
            *header,
            Seq::empty(),
            recover,
            record::refused_rows(refused@),
        ) {
            Err(error) => loaded == Err::<(Vec<PreparedRecord>, usize), ChangeStreamError>(error),
            Ok((records, file_bytes)) => loaded is Ok && records_view(loaded->Ok_0.0@) == records
                && loaded->Ok_0.1 == file_bytes,
        },
{
    let mut records: Vec<PreparedRecord> = Vec::new();
    let mut offset: usize = start;
    let ghost goal = entries_from(
        input@,
        start as int,
        *header,
        Seq::empty(),
        recover,
        record::refused_rows(refused@),
    );
    assert(records_view(records@) =~= Seq::empty());
    while offset < input.len()
        invariant
            offset <= input@.len(),
            input@.len() == input.len(),
            goal == entries_from(
                input@,
                start as int,
                *header,
                Seq::empty(),
                recover,
                record::refused_rows(refused@),
            ),
            goal == entries_from(
                input@,
                offset as int,
                *header,
                records_view(records@),
                recover,
                record::refused_rows(refused@),
            ),
        decreases input@.len() - offset,
    {
        let left: usize = input.len() - offset;
        if left < 4 {
            if recover {
                return Ok((records, offset));
            }
            return Err(ChangeStreamError::Truncated { offset: offset as u64 });
        }
        let length: u32 = bytes::u32_from(input, offset);
        if length == 0 || length > CHANGE_LOG_MAX_RECORD_BYTES {
            return Err(ChangeStreamError::RecordTooLarge(length as u64));
        }
        if left - 4 < length as usize + 4 {
            if recover {
                return Ok((records, offset));
            }
            return Err(ChangeStreamError::Truncated { offset: offset as u64 });
        }
        let end: usize = offset + 4 + length as usize;
        let payload = &input[offset + 4..end];
        if checksum::crc32c(payload) != bytes::u32_from(input, end) {
            return Err(ChangeStreamError::ChecksumMismatch { offset: offset as u64 });
        }
        apply_entry(&mut records, payload, header, 8 + length as u64, refused)?;
        offset = end + 4;
    }
    Ok((records, offset))
}

/// Reads a change log. Row images that are no canonical rows of the table, which
/// `refused` lists, are refused. Which row images there are to judge,
/// `images::row_images` tells.
pub fn load_file(input: &[u8], recover_partial_tail: bool, refused: &[Vec<u8>]) -> (loaded: Result<
    LoadedLog,
    ChangeStreamError,
>)
    ensures
        match log_of(input@, recover_partial_tail, record::refused_rows(refused@)) {
            Err(error) => loaded == Err::<LoadedLog, ChangeStreamError>(error),
            Ok(value) => {
                &&& loaded is Ok
                &&& loaded->Ok_0.header == value.header
                &&& records_view(loaded->Ok_0.records@) == value.records
                &&& loaded->Ok_0.file_bytes == value.file_bytes
            },
        },
{
    let header = read_front(input)?;
    if !header.active {
        let records: Vec<PreparedRecord> = Vec::new();
        assert(records_view(records@) =~= Seq::empty());
        return Ok(LoadedLog { header, records, file_bytes: input.len() as u64 });
    }
    let start: usize = if header.version == 1 { V1_HEADER_SIZE } else { V2_HEADER_SIZE };
    let (records, file_bytes): (Vec<PreparedRecord>, usize) = read_entries(
        input,
        &header,
        start,
        recover_partial_tail,
        refused,
    )?;
    Ok(LoadedLog { header, records, file_bytes: file_bytes as u64 })
}

/// A log's header has one of the two formats.
pub proof fn lemma_front_version(s: Seq<u8>)
    ensures
        front_of(s) matches Ok(header) ==> header.version == 1 || header.version
            == CHANGE_LOG_FORMAT_VERSION,
{
}

/// The records with the outcomes of those that have no finalize marker.
pub open spec fn with_outcomes(
    records: Seq<RecordView>,
    outcomes: Seq<AuthoritativeOutcome>,
) -> Seq<RecordView> {
    Seq::new(
        records.len(),
        |i: int|
            if records[i].finalized {
                records[i]
            } else {
                RecordView { outcome: outcomes[i], ..records[i] }
            },
    )
}

/// Sets the outcomes of the records that have no finalize marker.
pub fn assign_outcomes(records: &mut Vec<PreparedRecord>, outcomes: &[AuthoritativeOutcome])
    requires
        old(records)@.len() == outcomes@.len(),
    ensures
        records_view(final(records)@) == with_outcomes(records_view(old(records)@), outcomes@),
        final(records)@.len() == old(records)@.len(),
{
    let ghost before = records@;
    let mut i: usize = 0;
    while i < records.len()
        invariant
            i <= records@.len(),
            records@.len() == before.len(),
            before.len() == outcomes@.len(),
            before == old(records)@,
            forall|k: int|
                0 <= k < i ==> (#[trigger] records@[k])@ == with_outcomes(
                    records_view(before),
                    outcomes@,
                )[k],
            forall|k: int| i <= k < before.len() ==> (#[trigger] records@[k]) == before[k],
        decreases before.len() - i,
    {
        let ghost previous = records@;
        if !records[i].finalized {
            records[i].outcome = outcomes[i];
        }
        assert forall|k: int| 0 <= k < previous.len() && k != i implies #[trigger] records@[k]
            == previous[k] by {}
        assert(records@[i as int]@ == with_outcomes(records_view(before), outcomes@)[i as int]) by {
            assert(previous[i as int] == before[i as int]);
            assert(records_view(before)[i as int] == before[i as int]@);
        }
        i = i + 1;
    }
    assert(records_view(records@) =~= with_outcomes(records_view(before), outcomes@));
}

} // verus!
