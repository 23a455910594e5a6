//! The bytes of prepared batches and finalize markers.
use super::error::ChangeStreamError;
use super::log::{
    Header, CHANGE_LOG_MAX_MUTATIONS, CHANGE_LOG_MAX_RECORD_BYTES, CHANGE_LOG_MAX_ROW_BYTES,
    DELETE_TAG, FINALIZE_TAG, HEAP_TAG, INSERT_TAG, LSM_TAG, PREPARED_TAG, RECORD_FIXED, UPDATE_TAG,
};
use super::types;
use super::types::{
    BatchView, ChangeBatch, ChangeStorageKind, StorageChange, StorageVersionKey, StoredChange,
};
use crate::bytes;
use crate::checksum;
use crate::ids;
use crate::ids::{
    DatabaseTxnId, LsmCommitSeq, LsmRowId, PageId, RowId, SchemaFingerprint, StorageDataVersion,
    StorageId, TableId, TxnId,
};
use vstd::prelude::*;

verus! {

broadcast use crate::bytes::group_le_len;

// ---------------------------------------------------------------------------
// Taking bytes from a payload
// ---------------------------------------------------------------------------
/// Why `n` bytes cannot be taken from `s` at `at`, if they cannot.
pub open spec fn short(s: Seq<u8>, at: int, n: int) -> Option<ChangeStreamError> {
    if at + n > usize::MAX {
        Some(ChangeStreamError::RecordTooLarge(u64::MAX))
    } else if at + n > s.len() {
        Some(ChangeStreamError::Truncated { offset: at as u64 })
    } else {
        None
    }
}

/// Takes the next `count` bytes and moves the offset behind them.
pub fn take<'a>(input: &'a [u8], offset: &mut usize, count: usize) -> (taken: Result<
    &'a [u8],
    ChangeStreamError,
>)
    ensures
        match short(input@, *old(offset) as int, count as int) {
            Some(error) => taken == Err::<&'a [u8], ChangeStreamError>(error) && *final(offset)
                == *old(offset),
            None => {
                &&& taken is Ok
                &&& taken->Ok_0@ == input@.subrange(*old(offset) as int, *old(offset) + count)
                &&& *final(offset) == *old(offset) + count
            },
        },
{
    match (*offset).checked_add(count) {
        None => Err(ChangeStreamError::RecordTooLarge(u64::MAX)),
        Some(end) => {
            if end > input.len() {
                return Err(ChangeStreamError::Truncated { offset: *offset as u64 });
            }
            let taken = &input[*offset..end];
            *offset = end;
            Ok(taken)
        },
    }
}

/// Takes the next eight bytes as an integer.
pub fn read_take_u64(input: &[u8], offset: &mut usize) -> (value: Result<u64, ChangeStreamError>)
    ensures
        match short(input@, *old(offset) as int, 8) {
            Some(error) => value == Err::<u64, ChangeStreamError>(error) && *final(offset) == *old(
                offset,
            ),
            None => value == Ok::<u64, ChangeStreamError>(
                bytes::u64_at(input@, *old(offset) as int),
            ) && *final(offset) == *old(offset) + 8,
        },
{
    let start: usize = *offset;
    let taken = take(input, offset, 8)?;
    Ok(bytes::u64_from(input, start))
}

/// The integer in the eight bytes from `offset`.
pub fn read_u64(input: &[u8], offset: usize) -> (value: Result<u64, ChangeStreamError>)
    requires
        offset + 8 <= usize::MAX,
    ensures
        value == if offset + 8 <= input@.len() {
            Ok::<u64, ChangeStreamError>(bytes::u64_at(input@, offset as int))
        } else {
            Err(ChangeStreamError::Truncated { offset: offset as u64 })
        },
{
    if offset + 8 > input.len() {
        return Err(ChangeStreamError::Truncated { offset: offset as u64 });
    }
    Ok(bytes::u64_from(input, offset))
}

// ---------------------------------------------------------------------------
// Row versions
// ---------------------------------------------------------------------------
/// Why a row version cannot be written into a batch of `storage_id`.
pub open spec fn key_error(key: StorageVersionKey, storage_id: StorageId) -> Option<
    ChangeStreamError,
> {
    if types::owner(key) != storage_id {
        Some(ChangeStreamError::ContextMismatch)
    } else {
        match key {
            StorageVersionKey::Heap { row_id, .. } => if row_id.generation == 0 {
                Some(ChangeStreamError::InvalidRecord("zero Heap row generation"))
            } else {
                None
            },
            StorageVersionKey::Lsm { row_id, .. } => if row_id.0 == 0 {
                Some(ChangeStreamError::InvalidRecord("zero LSM row identity"))
            } else {
                None
            },
        }
    }
}

/// The bytes of a row version. Its storage is that of the batch around it.
pub open spec fn key_bytes(key: StorageVersionKey) -> Seq<u8> {
    match key {
        StorageVersionKey::Heap { row_id, .. } => seq![HEAP_TAG] + bytes::u64_le(row_id.page.0)
            + bytes::u16_le(row_id.slot) + bytes::u32_le(row_id.generation),
        StorageVersionKey::Lsm { row_id, version, .. } => seq![LSM_TAG] + bytes::u64_le(row_id.0)
            + bytes::u64_le(version.0),
    }
}

/// The row version in `s` at `at` with the offset behind it, or why there is
/// none.
pub open spec fn key_at(s: Seq<u8>, at: int, storage_id: StorageId) -> Result<
    (StorageVersionKey, int),
    ChangeStreamError,
> {
    if let Some(error) = short(s, at, 1) {
        Err(error)
    } else if s[at] == HEAP_TAG {
        if let Some(error) = short(s, at + 1, 8) {
            Err(error)
        } else if let Some(error) = short(s, at + 9, 2) {
            Err(error)
        } else if let Some(error) = short(s, at + 11, 4) {
            Err(error)
        } else if bytes::u32_at(s, at + 11) == 0 {
            Err(ChangeStreamError::InvalidRecord("zero Heap row generation"))
        } else {
            let row_id = RowId {
                page: PageId(bytes::u64_at(s, at + 1)),
                slot: bytes::u16_at(s, at + 9),
                generation: bytes::u32_at(s, at + 11),
            };
            Ok((StorageVersionKey::Heap { storage_id, row_id }, at + 15))
        }
    } else if s[at] == LSM_TAG {
        if let Some(error) = short(s, at + 1, 8) {
            Err(error)
        } else if let Some(error) = short(s, at + 9, 8) {
            Err(error)
        } else if bytes::u64_at(s, at + 1) == 0 {
            Err(ChangeStreamError::InvalidRecord("zero LSM row identity"))
        } else {
            Ok(
                (
                    StorageVersionKey::Lsm {
                        storage_id,
                        row_id: LsmRowId(bytes::u64_at(s, at + 1)),
                        version: LsmCommitSeq(bytes::u64_at(s, at + 9)),
                    },
                    at + 17,
                ),
            )
        }
    } else {
        Err(ChangeStreamError::InvalidRecord("invalid row-version tag"))
    }
}

fn check_key(key: StorageVersionKey, storage_id: StorageId) -> (checked: Result<
    (),
    ChangeStreamError,
>)
    ensures
        match key_error(key, storage_id) {
            Some(error) => checked == Err::<(), ChangeStreamError>(error),
            None => checked == Ok::<(), ChangeStreamError>(()),
        },
{
    if key.storage_id() != storage_id {
        return Err(ChangeStreamError::ContextMismatch);
    }
    match key {
        StorageVersionKey::Heap { row_id, .. } => {
            if row_id.generation == 0 {
                return Err(ChangeStreamError::InvalidRecord("zero Heap row generation"));
            }
        },
        StorageVersionKey::Lsm { row_id, .. } => {
            if row_id.0 == 0 {
                return Err(ChangeStreamError::InvalidRecord("zero LSM row identity"));
            }
        },
    }
    Ok(())
}

/// Appends a row version. Nothing is appended where it is refused.
pub fn encode_key(output: &mut Vec<u8>, key: StorageVersionKey, storage_id: StorageId) -> (done:
    Result<(), ChangeStreamError>)
    ensures
        match key_error(key, storage_id) {
            Some(error) => done == Err::<(), ChangeStreamError>(error) && final(output)@ == old(
                output,
            )@,
            None => done == Ok::<(), ChangeStreamError>(()) && final(output)@ == old(output)@
                + key_bytes(key),
        },
{
    check_key(key, storage_id)?;
    match key {
        StorageVersionKey::Heap { row_id, .. } => {
            output.push(HEAP_TAG);
            bytes::push_u64(output, row_id.page.0);
            bytes::push_u16(output, row_id.slot);
            bytes::push_u32(output, row_id.generation);
        },
        StorageVersionKey::Lsm { row_id, version, .. } => {
            output.push(LSM_TAG);
            bytes::push_u64(output, row_id.0);
            bytes::push_u64(output, version.0);
        },
    }
    assert(output@ =~= old(output)@ + key_bytes(key));
    Ok(())
}

/// Takes a row version.
pub fn decode_key(input: &[u8], offset: &mut usize, storage_id: StorageId) -> (key: Result<
    StorageVersionKey,
    ChangeStreamError,
>)
    ensures
        match key_at(input@, *old(offset) as int, storage_id) {
            Err(error) => key == Err::<StorageVersionKey, ChangeStreamError>(error),
            Ok((value, end)) => key == Ok::<StorageVersionKey, ChangeStreamError>(value)
                && *final(offset) == end,
        },
{
    let start: usize = *offset;
    let tag: u8 = take(input, offset, 1)?[0];
    assert(tag == input@[start as int]);
    if tag == HEAP_TAG {
        let page = PageId(read_take_u64(input, offset)?);
        let at_slot: usize = *offset;
        let _slot = take(input, offset, 2)?;
        let slot: u16 = bytes::u16_from(input, at_slot);
        let at_generation: usize = *offset;
        let _generation = take(input, offset, 4)?;
        let generation: u32 = bytes::u32_from(input, at_generation);
        if generation == 0 {
            return Err(ChangeStreamError::InvalidRecord("zero Heap row generation"));
        }
        Ok(StorageVersionKey::Heap { storage_id, row_id: RowId { page, slot, generation } })
    } else if tag == LSM_TAG {
        let row_id = LsmRowId(read_take_u64(input, offset)?);
        let version = LsmCommitSeq(read_take_u64(input, offset)?);
        if row_id.0 == 0 {
            return Err(ChangeStreamError::InvalidRecord("zero LSM row identity"));
        }
        Ok(StorageVersionKey::Lsm { storage_id, row_id, version })
    } else {
        Err(ChangeStreamError::InvalidRecord("invalid row-version tag"))
    }
}

// ---------------------------------------------------------------------------
// Row images and mutations
// ---------------------------------------------------------------------------
/// The bytes of a row image: its length and the canonical row.
pub open spec fn after_bytes(row: Seq<u8>) -> Seq<u8> {
    bytes::u32_le(row.len() as u32) + row
}

/// The row images that are refused, as no canonical rows of the table.
pub open spec fn refused_rows(refused: Seq<Vec<u8>>) -> Set<Seq<u8>> {
    Set::new(
        |row: Seq<u8>| exists|i: int| 0 <= i < refused.len() && (#[trigger] refused[i])@ == row,
    )
}

fn is_refused(refused: &[Vec<u8>], row: &[u8]) -> (found: bool)
    ensures
        found == refused_rows(refused@).contains(row@),
{
    let mut i: usize = 0;
    while i < refused.len()
        invariant
            i <= refused@.len(),
            forall|k: int| 0 <= k < i ==> (#[trigger] refused@[k])@ != row@,
        decreases refused@.len() - i,
    {
        if bytes::same_bytes(refused[i].as_slice(), row) {
            return true;
        }
        i = i + 1;
    }
    false
}

/// The row image in `s` at `at` with the offset behind it, or why there is
/// none.
pub open spec fn after_at(
    s: Seq<u8>,
    at: int,
    refused: Set<Seq<u8>>,
) -> Result<(Seq<u8>, int), ChangeStreamError> {
    let length = bytes::u32_at(s, at);
    if let Some(error) = short(s, at, 4) {
        Err(error)
    } else if length > CHANGE_LOG_MAX_ROW_BYTES {
        Err(ChangeStreamError::RowPayloadTooLarge(length as u64))
    } else if let Some(error) = short(s, at + 4, length as int) {
        Err(error)
    } else if refused.contains(s.subrange(at + 4, at + 4 + length)) {
        Err(ChangeStreamError::InvalidRecord("invalid canonical row payload"))
    } else {
        Ok((s.subrange(at + 4, at + 4 + length), at + 4 + length))
    }
}

/// Appends a row image. Nothing is appended where it is too long.
pub fn encode_after(output: &mut Vec<u8>, row: &[u8]) -> (done: Result<(), ChangeStreamError>)
    ensures
        if row@.len() > CHANGE_LOG_MAX_ROW_BYTES {
            done == Err::<(), ChangeStreamError>(
                ChangeStreamError::RowPayloadTooLarge(row@.len() as u64),
            ) && final(output)@ == old(output)@
        } else {
            done == Ok::<(), ChangeStreamError>(()) && final(output)@ == old(output)@
                + after_bytes(row@)
        },
{
    if row.len() > CHANGE_LOG_MAX_ROW_BYTES as usize {
        return Err(ChangeStreamError::RowPayloadTooLarge(row.len() as u64));
    }
    bytes::push_u32(output, row.len() as u32);
    bytes::push_bytes(output, row);
    assert(output@ =~= old(output)@ + after_bytes(row@));
    Ok(())
}

/// Takes a row image. Which images are no canonical rows of the table is told
/// by `refused`.
pub fn decode_after(
    input: &[u8],
    offset: &mut usize,
    refused: &[Vec<u8>],
) -> (row: Result<Vec<u8>, ChangeStreamError>)
    ensures
        match after_at(input@, *old(offset) as int, refused_rows(refused@)) {
            Err(error) => row == Err::<Vec<u8>, ChangeStreamError>(error),
            Ok((value, end)) => row is Ok && row->Ok_0@ == value && *final(offset) == end,
        },
{
    let start: usize = *offset;
    let _length = take(input, offset, 4)?;
    let length: u32 = bytes::u32_from(input, start);
    if length > CHANGE_LOG_MAX_ROW_BYTES {
        return Err(ChangeStreamError::RowPayloadTooLarge(length as u64));
    }
    let row = take(input, offset, length as usize)?;
    if is_refused(refused, row) {
        return Err(ChangeStreamError::InvalidRecord("invalid canonical row payload"));
    }
    Ok(bytes::copy_bytes(row))
}

/// Why a change cannot be written into a batch of `storage_id`.
pub open spec fn mutation_error(change: StorageChange<Seq<u8>>, storage_id: StorageId) -> Option<
    ChangeStreamError,
> {
    match change {
        StorageChange::Insert { new_version, after } => if let Some(error) = key_error(
            new_version,
            storage_id,
        ) {
            Some(error)
        } else {
            row_error(after)
        },
        StorageChange::Update { old_version, new_version, after } => if let Some(error) = key_error(
            old_version,
            storage_id,
        ) {
            Some(error)
        } else if let Some(error) = key_error(new_version, storage_id) {
            Some(error)
        } else {
            row_error(after)
        },
        StorageChange::Delete { old_version } => key_error(old_version, storage_id),
    }
}

/// Why a row image cannot be written.
pub open spec fn row_error(row: Seq<u8>) -> Option<ChangeStreamError> {
    if row.len() > CHANGE_LOG_MAX_ROW_BYTES {
        Some(ChangeStreamError::RowPayloadTooLarge(row.len() as u64))
    } else {
        None
    }
}

/// The bytes of a change.
pub open spec fn mutation_bytes(change: StorageChange<Seq<u8>>) -> Seq<u8> {
    match change {
        StorageChange::Insert { new_version, after } => seq![INSERT_TAG] + key_bytes(new_version)
            + after_bytes(after),
        StorageChange::Update { old_version, new_version, after } => seq![UPDATE_TAG] + key_bytes(
            old_version,
        ) + key_bytes(new_version) + after_bytes(after),
        StorageChange::Delete { old_version } => seq![DELETE_TAG] + key_bytes(old_version),
    }
}

/// The change in `s` at `at` with the offset behind it, or why there is none.
pub open spec fn mutation_at(
    s: Seq<u8>,
    at: int,
    storage_id: StorageId,
    refused: Set<Seq<u8>>,
) -> Result<
    (StorageChange<Seq<u8>>, int),
    ChangeStreamError,
> {
    if let Some(error) = short(s, at, 1) {
        Err(error)
    } else if s[at] == INSERT_TAG {
        match key_at(s, at + 1, storage_id) {
            Err(error) => Err(error),
            Ok((new_version, next)) => match after_at(s, next, refused) {
                Err(error) => Err(error),
                Ok((after, end)) => Ok((StorageChange::Insert { new_version, after }, end)),
            },
        }
    } else if s[at] == UPDATE_TAG {
        match key_at(s, at + 1, storage_id) {
            Err(error) => Err(error),
            Ok((old_version, middle)) => match key_at(s, middle, storage_id) {
                Err(error) => Err(error),
                Ok((new_version, next)) => match after_at(s, next, refused) {
                    Err(error) => Err(error),
                    Ok((after, end)) => Ok(
                        (StorageChange::Update { old_version, new_version, after }, end),
                    ),
                },
            },
        }
    } else if s[at] == DELETE_TAG {
        match key_at(s, at + 1, storage_id) {
            Err(error) => Err(error),
            Ok((old_version, end)) => Ok((StorageChange::Delete { old_version }, end)),
        }
    } else {
        Err(ChangeStreamError::InvalidRecord("unknown mutation tag"))
    }
}

fn check_mutation(change: &StoredChange, storage_id: StorageId) -> (checked: Result<
    (),
    ChangeStreamError,
>)
    ensures
        match mutation_error(types::change_view(*change), storage_id) {
            Some(error) => checked == Err::<(), ChangeStreamError>(error),
            None => checked == Ok::<(), ChangeStreamError>(()),
        },
{
    let row = match change {
        StorageChange::Insert { new_version, after } => {
            check_key(*new_version, storage_id)?;
            after
        },
        StorageChange::Update { old_version, new_version, after } => {
            check_key(*old_version, storage_id)?;
            check_key(*new_version, storage_id)?;
            after
        },
        StorageChange::Delete { old_version } => {
            return check_key(*old_version, storage_id);
        },
    };
    if row.len() > CHANGE_LOG_MAX_ROW_BYTES as usize {
        return Err(ChangeStreamError::RowPayloadTooLarge(row.len() as u64));
    }
    Ok(())
}

/// Appends a change. Nothing is appended where it is refused.
pub fn encode_mutation(output: &mut Vec<u8>, change: &StoredChange, storage_id: StorageId) -> (done:
    Result<(), ChangeStreamError>)
    ensures
        match mutation_error(types::change_view(*change), storage_id) {
            Some(error) => done == Err::<(), ChangeStreamError>(error) && final(output)@ == old(
                output,
            )@,
            None => done == Ok::<(), ChangeStreamError>(()) && final(output)@ == old(output)@
                + mutation_bytes(types::change_view(*change)),
        },
{
    check_mutation(change, storage_id)?;
    match change {
        StorageChange::Insert { new_version, after } => {
            output.push(INSERT_TAG);
            encode_key(output, *new_version, storage_id)?;
            encode_after(output, after.as_slice())?;
        },
        StorageChange::Update { old_version, new_version, after } => {
            output.push(UPDATE_TAG);
            encode_key(output, *old_version, storage_id)?;
            encode_key(output, *new_version, storage_id)?;
            encode_after(output, after.as_slice())?;
        },
        StorageChange::Delete { old_version } => {
            output.push(DELETE_TAG);
            encode_key(output, *old_version, storage_id)?;
        },
    }
    assert(output@ =~= old(output)@ + mutation_bytes(types::change_view(*change)));
    Ok(())
}

/// Takes a change.
pub fn decode_mutation(
    input: &[u8],
    offset: &mut usize,
    storage_id: StorageId,
    refused: &[Vec<u8>],
) -> (change: Result<
    StoredChange,
    ChangeStreamError,
>)
    ensures
        match mutation_at(input@, *old(offset) as int, storage_id, refused_rows(refused@)) {
            Err(error) => change == Err::<StoredChange, ChangeStreamError>(error),
            Ok((value, end)) => change is Ok && types::change_view(change->Ok_0) == value
                && *final(offset) == end,
        },
{
    let start: usize = *offset;
    let tag: u8 = take(input, offset, 1)?[0];
    assert(tag == input@[start as int]);
    if tag == INSERT_TAG {
        let new_version = decode_key(input, offset, storage_id)?;
        let after = decode_after(input, offset, refused)?;
        Ok(StorageChange::Insert { new_version, after })
    } else if tag == UPDATE_TAG {
        let old_version = decode_key(input, offset, storage_id)?;
        let new_version = decode_key(input, offset, storage_id)?;
        let after = decode_after(input, offset, refused)?;
        Ok(StorageChange::Update { old_version, new_version, after })
    } else if tag == DELETE_TAG {
        let old_version = decode_key(input, offset, storage_id)?;
        Ok(StorageChange::Delete { old_version })
    } else {
        Err(ChangeStreamError::InvalidRecord("unknown mutation tag"))
    }
}

// ---------------------------------------------------------------------------
// Row versions against the storage engine
// ---------------------------------------------------------------------------
/// Why a row version does not suit a storage of this kind. Only a version that
/// the transaction creates may still lack its commit number.
pub open spec fn version_error(
    key: StorageVersionKey,
    kind: ChangeStorageKind,
    allow_pending: bool,
) -> Option<ChangeStreamError> {
    match (kind, key) {
        (ChangeStorageKind::Heap, StorageVersionKey::Heap { .. }) => None,
        (ChangeStorageKind::Lsm, StorageVersionKey::Lsm { version, .. }) => if allow_pending
            || version.0 != 0 {
            None
        } else {
            Some(ChangeStreamError::InvalidRecord("zero committed LSM version identity"))
        },
        _ => Some(
            ChangeStreamError::InvalidRecord("row-version kind differs from storage engine"),
        ),
    }
}

/// Why a change does not suit a storage of this kind before its commit.
pub open spec fn pending_error<R>(change: StorageChange<R>, kind: ChangeStorageKind) -> Option<
    ChangeStreamError,
> {
    match change {
        StorageChange::Insert { new_version, .. } => version_error(new_version, kind, true),
        StorageChange::Update { old_version, new_version, .. } => if let Some(error) =
            version_error(old_version, kind, false) {
            Some(error)
        } else {
            version_error(new_version, kind, true)
        },
        StorageChange::Delete { old_version } => version_error(old_version, kind, false),
    }
}

/// Whether the change creates a version that still lacks its commit number.
pub open spec fn creates_pending<R>(change: StorageChange<R>) -> bool {
    match change {
        StorageChange::Insert { new_version, .. } => is_pending(new_version),
        StorageChange::Update { new_version, .. } => is_pending(new_version),
        StorageChange::Delete { .. } => false,
    }
}

/// Whether a row version still lacks its commit number.
pub open spec fn is_pending(key: StorageVersionKey) -> bool {
    key matches StorageVersionKey::Lsm { version, .. } && version.0 == 0
}

/// Why a change does not suit a storage of this kind after its commit.
pub open spec fn committed_error<R>(change: StorageChange<R>, kind: ChangeStorageKind) -> Option<
    ChangeStreamError,
> {
    if let Some(error) = pending_error(change, kind) {
        Some(error)
    } else if creates_pending(change) {
        Some(ChangeStreamError::InvalidRecord("zero committed LSM version identity"))
    } else {
        None
    }
}

/// Why a list of changes does not suit a storage of this kind after its
/// commit: the reason of the first change that does not.
pub open spec fn committed_errors<R>(
    changes: Seq<StorageChange<R>>,
    kind: ChangeStorageKind,
) -> Option<ChangeStreamError>
    decreases changes.len(),
{
    if changes.len() == 0 {
        None
    } else if let Some(error) = committed_errors(changes.drop_last(), kind) {
        Some(error)
    } else {
        committed_error(changes.last(), kind)
    }
}

fn check_version(key: StorageVersionKey, kind: ChangeStorageKind, allow_pending: bool) -> (checked:
    Result<(), ChangeStreamError>)
    ensures
        match version_error(key, kind, allow_pending) {
            Some(error) => checked == Err::<(), ChangeStreamError>(error),
            None => checked == Ok::<(), ChangeStreamError>(()),
        },
{
    match (kind, key) {
        (ChangeStorageKind::Heap, StorageVersionKey::Heap { .. }) => Ok(()),
        (ChangeStorageKind::Lsm, StorageVersionKey::Lsm { version, .. }) => if allow_pending
            || version.0 != 0 {
            Ok(())
        } else {
            Err(ChangeStreamError::InvalidRecord("zero committed LSM version identity"))
        },
        _ => Err(
            ChangeStreamError::InvalidRecord("row-version kind differs from storage engine"),
        ),
    }
}

/// Checks a change that is not committed yet.
pub fn validate_pending_mutation<R>(change: &StorageChange<R>, kind: ChangeStorageKind) -> (checked:
    Result<(), ChangeStreamError>)
    ensures
        match pending_error(*change, kind) {
            Some(error) => checked == Err::<(), ChangeStreamError>(error),
            None => checked == Ok::<(), ChangeStreamError>(()),
        },
{
    match change {
        StorageChange::Insert { new_version, .. } => check_version(*new_version, kind, true),
        StorageChange::Update { old_version, new_version, .. } => {
            check_version(*old_version, kind, false)?;
            check_version(*new_version, kind, true)
        },
        StorageChange::Delete { old_version } => check_version(*old_version, kind, false),
    }
}

proof fn lemma_committed_errors_prefix<R>(
    changes: Seq<StorageChange<R>>,
    kind: ChangeStorageKind,
    n: int,
)
    requires
        0 <= n <= changes.len(),
        committed_errors(changes.take(n), kind) is Some,
    ensures
        committed_errors(changes, kind) == committed_errors(changes.take(n), kind),
    decreases changes.len(),
{
    if n == changes.len() {
        assert(changes.take(n) =~= changes);
    } else {
        assert(changes.drop_last().take(n) =~= changes.take(n));
        lemma_committed_errors_prefix(changes.drop_last(), kind, n);
    }
}

/// Checks the changes of a committed batch, in order.
pub fn validate_committed_versions<R>(changes: &[StorageChange<R>], kind: ChangeStorageKind) -> (
checked: Result<(), ChangeStreamError>)
    ensures
        match committed_errors(changes@, kind) {
            Some(error) => checked == Err::<(), ChangeStreamError>(error),
            None => checked == Ok::<(), ChangeStreamError>(()),
        },
{
    let mut i: usize = 0;
    while i < changes.len()
        invariant
            i <= changes@.len(),
            committed_errors(changes@.take(i as int), kind) is None,
        decreases changes@.len() - i,
    {
        let change = &changes[i];
        proof {
            assert(changes@.take(i + 1).drop_last() =~= changes@.take(i as int));
            assert(changes@.take(i + 1).last() == *change);
            if committed_errors(changes@.take(i + 1), kind) is Some {
                lemma_committed_errors_prefix(changes@, kind, i + 1);
            }
        }
        validate_pending_mutation(change, kind)?;
        let pending: bool = match change {
            StorageChange::Insert { new_version: StorageVersionKey::Lsm { version, .. }, .. } => {
                version.0 == 0
            },
            StorageChange::Update { new_version: StorageVersionKey::Lsm { version, .. }, .. } => {
                version.0 == 0
            },
            _ => false,
        };
        if pending {
            return Err(ChangeStreamError::InvalidRecord("zero committed LSM version identity"));
        }
        i = i + 1;
    }
    assert(changes@.take(i as int) =~= changes@);
    Ok(())
}

/// A row version with its commit number filled in.
pub open spec fn resolved_key(key: StorageVersionKey, commit: LsmCommitSeq) -> StorageVersionKey {
    match key {
        StorageVersionKey::Lsm { storage_id, row_id, version } => if version.0 == 0 {
            StorageVersionKey::Lsm { storage_id, row_id, version: commit }
        } else {
            key
        },
        _ => key,
    }
}

/// A change with the commit number filled in where it creates a version.
pub open spec fn resolved_change<R>(change: StorageChange<R>, commit: LsmCommitSeq) -> StorageChange<
    R,
> {
    match change {
        StorageChange::Insert { new_version, after } => StorageChange::Insert {
            new_version: resolved_key(new_version, commit),
            after,
        },
        StorageChange::Update { old_version, new_version, after } => StorageChange::Update {
            old_version,
            new_version: resolved_key(new_version, commit),
            after,
        },
        StorageChange::Delete { old_version } => change,
    }
}

/// The changes of a batch after its commit.
pub open spec fn resolved_changes<R>(
    changes: Seq<StorageChange<R>>,
    commit: Option<LsmCommitSeq>,
) -> Seq<StorageChange<R>> {
    match commit {
        None => changes,
        Some(number) => changes.map_values(
            |change: StorageChange<R>| resolved_change(change, number),
        ),
    }
}

/// A row version with its commit number filled in.
pub fn resolve_key(key: StorageVersionKey, commit: LsmCommitSeq) -> (resolved: StorageVersionKey)
    ensures
        resolved == resolved_key(key, commit),
{
    match key {
        StorageVersionKey::Lsm { storage_id, row_id, version } => if version.0 == 0 {
            StorageVersionKey::Lsm { storage_id, row_id, version: commit }
        } else {
            key
        },
        _ => key,
    }
}

/// Fills in the commit number of the versions that the batch creates.
pub fn resolve_lsm_versions(batch: &mut ChangeBatch, commit: LsmCommitSeq)
    ensures
        final(batch)@ == (BatchView {
            mutations: resolved_changes(old(batch)@.mutations, Some(commit)),
            ..old(batch)@
        }),
{
    let mut i: usize = 0;
    let ghost before = batch.mutations@;
    while i < batch.mutations.len()
        invariant
            i <= batch.mutations@.len(),
            batch.mutations@.len() == before.len(),
            before == old(batch).mutations@,
            forall|k: int| 0 <= k < i ==> types::change_view(#[trigger] batch.mutations@[k])
                == resolved_change(types::change_view(before[k]), commit),
            forall|k: int| i <= k < before.len() ==> #[trigger] batch.mutations@[k] == before[k],
            batch.sequence == old(batch).sequence,
            batch.physical_txn_id == old(batch).physical_txn_id,
            batch.database_txn_id == old(batch).database_txn_id,
            batch.table_id == old(batch).table_id,
            batch.storage_id == old(batch).storage_id,
            batch.schema_fingerprint == old(batch).schema_fingerprint,
            batch.before == old(batch).before,
            batch.after == old(batch).after,
        decreases before.len() - i,
    {
        let resolved: StoredChange = match &batch.mutations[i] {
            StorageChange::Insert { new_version, after } => StorageChange::Insert {
                new_version: resolve_key(*new_version, commit),
                after: bytes::copy_bytes(after.as_slice()),
            },
            StorageChange::Update { old_version, new_version, after } => StorageChange::Update {
                old_version: *old_version,
                new_version: resolve_key(*new_version, commit),
                after: bytes::copy_bytes(after.as_slice()),
            },
            StorageChange::Delete { old_version } => StorageChange::Delete {
                old_version: *old_version,
            },
        };
        batch.mutations.set(i, resolved);
        i = i + 1;
    }
    assert(batch@.mutations =~= resolved_changes(old(batch)@.mutations, Some(commit)));
}

// ---------------------------------------------------------------------------
// Records
// ---------------------------------------------------------------------------
/// Why a list of changes cannot be written: the reason of the first change
/// that cannot.
pub open spec fn mutations_error(
    changes: Seq<StorageChange<Seq<u8>>>,
    storage_id: StorageId,
) -> Option<ChangeStreamError>
    decreases changes.len(),
{
    if changes.len() == 0 {
        None
    } else if let Some(error) = mutations_error(changes.drop_last(), storage_id) {
        Some(error)
    } else {
        mutation_error(changes.last(), storage_id)
    }
}

/// The bytes of a list of changes.
pub open spec fn mutations_bytes(changes: Seq<StorageChange<Seq<u8>>>) -> Seq<u8>
    decreases changes.len(),
{
    if changes.len() == 0 {
        Seq::empty()
    } else {
        mutations_bytes(changes.drop_last()) + mutation_bytes(changes.last())
    }
}

/// The number that stands for an optional identity.
pub open spec fn database_number(id: Option<DatabaseTxnId>) -> u64 {
    match id {
        Some(number) => number.0,
        None => 0,
    }
}

/// A record without its changes.
pub open spec fn record_fixed(batch: BatchView) -> Seq<u8> {
    seq![PREPARED_TAG] + bytes::zeros(7) + bytes::u64_le(batch.sequence) + bytes::u64_le(
        batch.physical_txn_id.0,
    ) + bytes::u64_le(database_number(batch.database_txn_id)) + bytes::u64_le(batch.table_id.0)
        + bytes::u64_le(batch.storage_id.0) + batch.schema_fingerprint.bytes@ + bytes::u64_le(
        batch.before.0,
    ) + bytes::u64_le(batch.after.0) + bytes::u32_le(batch.mutations.len() as u32) + bytes::u32_le(0)
}

/// The payload of a record.
pub open spec fn record_payload(batch: BatchView) -> Seq<u8> {
    record_fixed(batch) + mutations_bytes(batch.mutations)
}

/// Why a batch cannot be written.
pub open spec fn record_error(batch: BatchView) -> Option<ChangeStreamError> {
    let count = batch.mutations.len();
    if count == 0 || count > CHANGE_LOG_MAX_MUTATIONS {
        Some(ChangeStreamError::MutationCountTooLarge(count as u64))
    } else if let Some(error) = mutations_error(batch.mutations, batch.storage_id) {
        Some(error)
    } else if record_payload(batch).len() > CHANGE_LOG_MAX_RECORD_BYTES {
        Some(ChangeStreamError::RecordTooLarge(record_payload(batch).len() as u64))
    } else {
        None
    }
}

/// A payload between its length and its check value.
pub open spec fn framed(payload: Seq<u8>) -> Seq<u8> {
    bytes::u32_le(payload.len() as u32) + payload + bytes::u32_le(checksum::crc32c_of(payload))
}

/// The bytes that the record of a batch takes in the log.
pub open spec fn record_size(batch: BatchView) -> nat {
    framed(record_payload(batch)).len()
}

proof fn lemma_mutations_error_prefix(
    changes: Seq<StorageChange<Seq<u8>>>,
    storage_id: StorageId,
    n: int,
)
    requires
        0 <= n <= changes.len(),
        mutations_error(changes.take(n), storage_id) is Some,
    ensures
        mutations_error(changes, storage_id) == mutations_error(changes.take(n), storage_id),
    decreases changes.len(),
{
    if n == changes.len() {
        assert(changes.take(n) =~= changes);
    } else {
        assert(changes.drop_last().take(n) =~= changes.take(n));
        lemma_mutations_error_prefix(changes.drop_last(), storage_id, n);
    }
}

/// Puts a payload between its length and its check value.
pub fn frame(payload: &[u8]) -> (framed_payload: Vec<u8>)
    requires
        payload@.len() <= u32::MAX,
    ensures
        framed_payload@ == framed(payload@),
{
    let mut output: Vec<u8> = Vec::new();
    bytes::push_u32(&mut output, payload.len() as u32);
    bytes::push_bytes(&mut output, payload);
    bytes::push_u32(&mut output, checksum::crc32c(payload));
    assert(output@ =~= framed(payload@));
    output
}

/// The bytes of a prepared batch.
pub fn encode_record(batch: &ChangeBatch) -> (record: Result<Vec<u8>, ChangeStreamError>)
    ensures
        match record_error(batch@) {
            Some(error) => record == Err::<Vec<u8>, ChangeStreamError>(error),
            None => record is Ok && record->Ok_0@ == framed(record_payload(batch@)),
        },
{
    if batch.mutations.len() == 0 || batch.mutations.len() > CHANGE_LOG_MAX_MUTATIONS as usize {
        return Err(ChangeStreamError::MutationCountTooLarge(batch.mutations.len() as u64));
    }
    let database: u64 = match batch.database_txn_id {
        Some(id) => id.0,
        None => 0,
    };
    let mut payload: Vec<u8> = Vec::new();
    payload.push(PREPARED_TAG);
    assert(payload@ =~= seq![PREPARED_TAG]);
    bytes::push_zeros(&mut payload, 7);
    bytes::push_u64(&mut payload, batch.sequence);
    bytes::push_u64(&mut payload, batch.physical_txn_id.0);
    bytes::push_u64(&mut payload, database);
    bytes::push_u64(&mut payload, batch.table_id.0);
    bytes::push_u64(&mut payload, batch.storage_id.0);
    bytes::push_bytes(&mut payload, batch.schema_fingerprint.bytes.as_slice());
    bytes::push_u64(&mut payload, batch.before.0);
    bytes::push_u64(&mut payload, batch.after.0);
    bytes::push_u32(&mut payload, batch.mutations.len() as u32);
    bytes::push_u32(&mut payload, 0);
    assert(payload@ == record_fixed(batch@));
    let ghost changes = batch@.mutations;
    let mut i: usize = 0;
    assert(changes.take(0) =~= Seq::empty());
    assert(payload@ =~= record_fixed(batch@) + mutations_bytes(changes.take(0)));
    while i < batch.mutations.len()
        invariant
            i <= batch.mutations@.len(),
            0 < batch.mutations@.len() <= CHANGE_LOG_MAX_MUTATIONS,
            changes == batch@.mutations,
            mutations_error(changes.take(i as int), batch.storage_id) is None,
            payload@ == record_fixed(batch@) + mutations_bytes(changes.take(i as int)),
        decreases batch.mutations@.len() - i,
    {
        proof {
            assert(changes.take(i + 1).drop_last() =~= changes.take(i as int));
            assert(changes.take(i + 1).last() == types::change_view(batch.mutations@[i as int]));
            if mutations_error(changes.take(i + 1), batch.storage_id) is Some {
                lemma_mutations_error_prefix(changes, batch.storage_id, i + 1);
            }
        }
        encode_mutation(&mut payload, &batch.mutations[i], batch.storage_id)?;
        assert(payload@ =~= record_fixed(batch@) + mutations_bytes(changes.take(i + 1)));
        i = i + 1;
    }
    assert(changes.take(i as int) =~= changes);
    if payload.len() > CHANGE_LOG_MAX_RECORD_BYTES as usize {
        return Err(ChangeStreamError::RecordTooLarge(payload.len() as u64));
    }
    Ok(frame(payload.as_slice()))
}

/// The `n` changes in `s` from `at` with the offset behind them, or why they
/// are not there.
pub open spec fn mutations_at(
    s: Seq<u8>,
    at: int,
    n: nat,
    storage_id: StorageId,
    kind: ChangeStorageKind,
    refused: Set<Seq<u8>>,
) -> Result<(Seq<StorageChange<Seq<u8>>>, int), ChangeStreamError>
    decreases n,
{
    if n == 0 {
        Ok((Seq::empty(), at))
    } else {
        match mutations_at(s, at, (n - 1) as nat, storage_id, kind, refused) {
            Err(error) => Err(error),
            Ok((changes, next)) => match mutation_at(s, next, storage_id, refused) {
                Err(error) => Err(error),
                Ok((change, end)) => match pending_error(change, kind) {
                    Some(error) => Err(error),
                    None => Ok((changes.push(change), end)),
                },
            },
        }
    }
}

/// The batch in a record payload of the log with this header, or why there is
/// none.
pub open spec fn record_of(
    s: Seq<u8>,
    header: Header,
    refused: Set<Seq<u8>>,
) -> Result<BatchView, ChangeStreamError> {
    let sequence = bytes::u64_at(s, 8);
    let physical_txn_id = TxnId(bytes::u64_at(s, 16));
    let database = bytes::u64_at(s, 24);
    let table_id = TableId(bytes::u64_at(s, 32));
    let storage_id = StorageId(bytes::u64_at(s, 40));
    let fingerprint = ids::fingerprint_of(s.subrange(48, 80));
    let count = bytes::u32_at(s, 96);
    if s.len() < RECORD_FIXED {
        Err(ChangeStreamError::Truncated { offset: 0 })
    } else if s[0] != PREPARED_TAG {
        Err(ChangeStreamError::InvalidRecord("unknown record tag"))
    } else if s.subrange(1, 8) != bytes::zeros(7) {
        Err(ChangeStreamError::InvalidRecord("record reserved bytes are non-zero"))
    } else if s.subrange(100, 104) != bytes::zeros(4) {
        Err(ChangeStreamError::InvalidRecord("record reserved bytes are non-zero"))
    } else if sequence == 0 || physical_txn_id.0 == 0 {
        Err(ChangeStreamError::InvalidRecord("zero record identity"))
    } else if table_id != header.table_id || storage_id != header.storage_id || fingerprint
        != header.fingerprint {
        Err(ChangeStreamError::InvalidRecord("record context mismatch"))
    } else if count == 0 || count > CHANGE_LOG_MAX_MUTATIONS {
        Err(ChangeStreamError::MutationCountTooLarge(count as u64))
    } else {
        match mutations_at(s, RECORD_FIXED as int, count as nat, storage_id, header.kind, refused) {
            Err(error) => Err(error),
            Ok((mutations, end)) => if end != s.len() {
                Err(ChangeStreamError::InvalidRecord("trailing record bytes"))
            } else {
                Ok(
                    BatchView {
                        sequence,
                        physical_txn_id,
                        database_txn_id: if database != 0 {
                            Some(DatabaseTxnId(database))
                        } else {
                            None
                        },
                        table_id,
                        storage_id,
                        schema_fingerprint: fingerprint,
                        before: StorageDataVersion(bytes::u64_at(s, 80)),
                        after: StorageDataVersion(bytes::u64_at(s, 88)),
                        mutations,
                    },
                )
            },
        }
    }
}

proof fn lemma_mutations_at_error(
    s: Seq<u8>,
    at: int,
    n: nat,
    m: nat,
    storage_id: StorageId,
    kind: ChangeStorageKind,
    refused: Set<Seq<u8>>,
)
    requires
        n <= m,
        mutations_at(s, at, n, storage_id, kind, refused) is Err,
    ensures
        mutations_at(s, at, m, storage_id, kind, refused) is Err,
        mutations_at(s, at, m, storage_id, kind, refused)->Err_0 == mutations_at(
            s,
            at,
            n,
            storage_id,
            kind,
            refused,
        )->Err_0,
    decreases m,
{
    if n < m {
        lemma_mutations_at_error(s, at, n, (m - 1) as nat, storage_id, kind, refused);
    }
}

fn decode_mutations(
    payload: &[u8],
    storage_id: StorageId,
    kind: ChangeStorageKind,
    count: u32,
    refused: &[Vec<u8>],
) -> (decoded: Result<(Vec<StoredChange>, usize), ChangeStreamError>)
    ensures
        match mutations_at(
            payload@,
            RECORD_FIXED as int,
            count as nat,
            storage_id,
            kind,
            refused_rows(refused@),
        ) {
            Err(error) => decoded == Err::<(Vec<StoredChange>, usize), ChangeStreamError>(error),
            Ok((changes, end)) => decoded is Ok && types::changes_view(decoded->Ok_0.0@) == changes
                && decoded->Ok_0.1 == end,
        },
{
    let mut offset: usize = RECORD_FIXED;
    let mut mutations: Vec<StoredChange> = Vec::new();
    let mut i: u32 = 0;
    assert(types::changes_view(mutations@) =~= Seq::empty());
    while i < count
        invariant
            i <= count,
            mutations_at(
                payload@,
                RECORD_FIXED as int,
                i as nat,
                storage_id,
                kind,
                refused_rows(refused@),
            ) == Ok::<
                (Seq<StorageChange<Seq<u8>>>, int),
                ChangeStreamError,
            >((types::changes_view(mutations@), offset as int)),
        decreases count - i,
    {
        proof {
            if mutations_at(
                payload@,
                RECORD_FIXED as int,
                (i + 1) as nat,
                storage_id,
                kind,
                refused_rows(refused@),
            ) is Err {
                lemma_mutations_at_error(
                    payload@,
                    RECORD_FIXED as int,
                    (i + 1) as nat,
                    count as nat,
                    storage_id,
                    kind,
                    refused_rows(refused@),
                );
            }
        }
        let ghost earlier = mutations@;
        let mutation = decode_mutation(payload, &mut offset, storage_id, refused)?;
        proof {
            assert(pending_error(mutation, kind) == pending_error(
                types::change_view(mutation),
                kind,
            ));
        }
        validate_pending_mutation(&mutation, kind)?;
        mutations.push(mutation);
        assert(types::changes_view(mutations@) =~= types::changes_view(earlier).push(
            types::change_view(mutation),
        ));
        i = i + 1;
    }
    Ok((mutations, offset))
}

/// Reads the payload of a prepared batch.
pub fn decode_record(payload: &[u8], header: &Header, refused: &[Vec<u8>]) -> (batch: Result<
    ChangeBatch,
    ChangeStreamError,
>)
    ensures
        match record_of(payload@, *header, refused_rows(refused@)) {
            Err(error) => batch == Err::<ChangeBatch, ChangeStreamError>(error),
            Ok(value) => batch is Ok && batch->Ok_0@ == value,
        },
{
    if payload.len() < RECORD_FIXED {
        return Err(ChangeStreamError::Truncated { offset: 0 });
    }
    if payload[0] != PREPARED_TAG {
        return Err(ChangeStreamError::InvalidRecord("unknown record tag"));
    }
    if !bytes::all_zero(payload, 1, 7) {
        return Err(ChangeStreamError::InvalidRecord("record reserved bytes are non-zero"));
    }
    let sequence: u64 = bytes::u64_from(payload, 8);
    let physical_txn_id = TxnId(bytes::u64_from(payload, 16));
    let database: u64 = bytes::u64_from(payload, 24);
    let table_id = TableId(bytes::u64_from(payload, 32));
    let storage_id = StorageId(bytes::u64_from(payload, 40));
    let fingerprint = SchemaFingerprint::read(payload, 48);
    proof {
        ids::lemma_fingerprint_of(fingerprint);
    }
    let before = StorageDataVersion(bytes::u64_from(payload, 80));
    let after = StorageDataVersion(bytes::u64_from(payload, 88));
    let count: u32 = bytes::u32_from(payload, 96);
    if !bytes::all_zero(payload, 100, 4) {
        return Err(ChangeStreamError::InvalidRecord("record reserved bytes are non-zero"));
    }
    if sequence == 0 || physical_txn_id.0 == 0 {
        return Err(ChangeStreamError::InvalidRecord("zero record identity"));
    }
    if table_id != header.table_id || storage_id != header.storage_id || !fingerprint.same_as(
        &header.fingerprint,
    ) {
        return Err(ChangeStreamError::InvalidRecord("record context mismatch"));
    }
    if count == 0 || count > CHANGE_LOG_MAX_MUTATIONS {
        return Err(ChangeStreamError::MutationCountTooLarge(count as u64));
    }
    let (mutations, offset): (Vec<StoredChange>, usize) = decode_mutations(
        payload,
        storage_id,
        header.kind,
        count,
        refused,
    )?;
    if offset != payload.len() {
        return Err(ChangeStreamError::InvalidRecord("trailing record bytes"));
    }
    Ok(
        ChangeBatch {
            sequence,
            physical_txn_id,
            database_txn_id: if database != 0 {
                Some(DatabaseTxnId(database))
            } else {
                None
            },
            table_id,
            storage_id,
            schema_fingerprint: fingerprint,
            before,
            after,
            mutations,
        },
    )
}

// ---------------------------------------------------------------------------
// Finalize markers
// ---------------------------------------------------------------------------
/// The number that stands for an optional commit.
pub open spec fn commit_number(commit: Option<LsmCommitSeq>) -> u64 {
    match commit {
        Some(number) => number.0,
        None => 0,
    }
}

/// The payload of a finalize marker.
pub open spec fn finalize_payload(txn_id: TxnId, commit: Option<LsmCommitSeq>) -> Seq<u8> {
    seq![FINALIZE_TAG] + bytes::zeros(7) + bytes::u64_le(txn_id.0) + bytes::u64_le(
        commit_number(commit),
    )
}

/// The bytes of a finalize marker.
pub open spec fn finalize_bytes(txn_id: TxnId, commit: Option<LsmCommitSeq>) -> Seq<u8> {
    framed(finalize_payload(txn_id, commit))
}

/// The bytes of a finalize marker. A transaction has a number.
pub fn encode_finalize(txn_id: TxnId, commit: Option<LsmCommitSeq>) -> (marker: Result<
    Vec<u8>,
    ChangeStreamError,
>)
    ensures
        if txn_id.0 == 0 {
            marker == Err::<Vec<u8>, ChangeStreamError>(
                ChangeStreamError::InvalidRecord("zero transaction identity"),
            )
        } else {
            marker is Ok && marker->Ok_0@ == finalize_bytes(txn_id, commit) && marker->Ok_0@.len()
                == 32
        },
{
    if txn_id.0 == 0 {
        return Err(ChangeStreamError::InvalidRecord("zero transaction identity"));
    }
    let number: u64 = match commit {
        Some(value) => value.0,
        None => 0,
    };
    let mut payload: Vec<u8> = Vec::new();
    payload.push(FINALIZE_TAG);
    assert(payload@ =~= seq![FINALIZE_TAG]);
    bytes::push_zeros(&mut payload, 7);
    bytes::push_u64(&mut payload, txn_id.0);
    bytes::push_u64(&mut payload, number);
    Ok(frame(payload.as_slice()))
}

/// The transaction and commit in a finalize payload, or why there are none.
pub open spec fn finalize_of(s: Seq<u8>) -> Result<
    (TxnId, Option<LsmCommitSeq>),
    ChangeStreamError,
> {
    let txn_id = TxnId(bytes::u64_at(s, 8));
    let commit = bytes::u64_at(s, 16);
    if s.len() != 24 || s[0] != FINALIZE_TAG || s.subrange(1, 8) != bytes::zeros(7) {
        Err(ChangeStreamError::InvalidRecord("invalid finalize marker"))
    } else if txn_id.0 == 0 {
        Err(ChangeStreamError::InvalidRecord("zero transaction identity"))
    } else {
        Ok(
            (
                txn_id,
                if commit != 0 {
                    Some(LsmCommitSeq(commit))
                } else {
                    None
                },
            ),
        )
    }
}

/// Reads the payload of a finalize marker.
pub fn decode_finalize(payload: &[u8]) -> (marker: Result<
    (TxnId, Option<LsmCommitSeq>),
    ChangeStreamError,
>)
    ensures
        marker == finalize_of(payload@),
{
    if payload.len() != 24 || payload[0] != FINALIZE_TAG || !bytes::all_zero(payload, 1, 7) {
        return Err(ChangeStreamError::InvalidRecord("invalid finalize marker"));
    }
    let txn_id = TxnId(read_u64(payload, 8)?);
    if txn_id.0 == 0 {
        return Err(ChangeStreamError::InvalidRecord("zero transaction identity"));
    }
    let commit: u64 = read_u64(payload, 16)?;
    Ok(
        (
            txn_id,
            if commit != 0 {
                Some(LsmCommitSeq(commit))
            } else {
                None
            },
        ),
    )
}

} // verus!
