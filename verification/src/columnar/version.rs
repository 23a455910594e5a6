//! Snapshot identities, and the row versions that a projection knows its rows
//! by.
use super::error::ColumnarError;
use super::reader::{self, Parsed, Reader};
use crate::bytes;
use crate::change_stream::types::{self, StorageVersionKey};
use crate::ids::{LsmCommitSeq, LsmRowId, PageId, RowId, StorageId};
use crate::text;
use vstd::prelude::*;

verus! {

broadcast use crate::bytes::group_le_len;

/// The engine of a snapshot.
#[derive(Debug, Clone, Copy, PartialEq, Eq, Structural)]
pub enum SnapshotKind {
    Heap,
    Lsm,
}

/// Equality-only identity of one committed read horizon in one physical storage.
///
/// Its parts have no meaning outside the exact `StorageId` and engine kind.
#[derive(Debug, Clone, Copy, PartialEq, Eq, Structural)]
pub struct StorageSnapshotToken {
    pub storage_id: StorageId,
    pub kind: SnapshotKind,
    pub epoch: u64,
    pub sequence: u64,
}

/// The name of an engine.
pub open spec fn kind_name(kind: SnapshotKind) -> Seq<char> {
    match kind {
        SnapshotKind::Heap => "heap"@,
        SnapshotKind::Lsm => "lsm"@,
    }
}

/// The diagnostic form of a token.
pub open spec fn diagnostic_of(token: StorageSnapshotToken) -> Seq<char> {
    kind_name(token.kind) + ":"@ + text::decimal(token.storage_id.0 as nat) + ":"@ + text::decimal(
        token.epoch as nat,
    ) + ":"@ + text::decimal(token.sequence as nat)
}

impl StorageSnapshotToken {
    /// A horizon of a heap.
    pub fn heap(storage_id: StorageId, sequence: u64) -> (token: Self)
        ensures
            token == (StorageSnapshotToken {
                storage_id,
                kind: SnapshotKind::Heap,
                epoch: 0,
                sequence,
            }),
    {
        StorageSnapshotToken { storage_id, kind: SnapshotKind::Heap, epoch: 0, sequence }
    }

    /// A horizon of an LSM tree.
    pub fn lsm(storage_id: StorageId, epoch: u64, sequence: u64) -> (token: Self)
        ensures
            token == (StorageSnapshotToken {
                storage_id,
                kind: SnapshotKind::Lsm,
                epoch,
                sequence,
            }),
    {
        StorageSnapshotToken { storage_id, kind: SnapshotKind::Lsm, epoch, sequence }
    }

    /// The storage of the horizon.
    #[must_use]
    pub fn storage_id(self) -> (storage_id: StorageId)
        ensures
            storage_id == self.storage_id,
    {
        self.storage_id
    }

    /// Stable diagnostic form; callers must treat it as opaque.
    #[must_use]
    pub fn diagnostic(&self) -> (output: String)
        ensures
            output@ == diagnostic_of(*self),
    {
        let mut output: String = String::new();
        match self.kind {
            SnapshotKind::Heap => output.append("heap"),
            SnapshotKind::Lsm => output.append("lsm"),
        }
        output.append(":");
        text::push_decimal(&mut output, self.storage_id.0);
        output.append(":");
        text::push_decimal(&mut output, self.epoch);
        output.append(":");
        text::push_decimal(&mut output, self.sequence);
        assert(output@ =~= diagnostic_of(*self));
        output
    }
}

/// The tag of an engine.
pub open spec fn kind_tag(kind: SnapshotKind) -> u8 {
    match kind {
        SnapshotKind::Heap => 1,
        SnapshotKind::Lsm => 2,
    }
}

/// The engine with a tag.
pub open spec fn kind_tagged(tag: u8) -> Result<SnapshotKind, ColumnarError> {
    if tag == 1 {
        Ok(SnapshotKind::Heap)
    } else if tag == 2 {
        Ok(SnapshotKind::Lsm)
    } else {
        Err(ColumnarError::Corrupt("unknown snapshot token kind"))
    }
}

/// The tag of an engine.
pub fn snapshot_tag(kind: SnapshotKind) -> (tag: u8)
    ensures
        tag == kind_tag(kind),
{
    match kind {
        SnapshotKind::Heap => 1,
        SnapshotKind::Lsm => 2,
    }
}

/// The engine with a tag.
pub fn decode_snapshot_tag(tag: u8) -> (kind: Result<SnapshotKind, ColumnarError>)
    ensures
        kind == kind_tagged(tag),
{
    if tag == 1 {
        Ok(SnapshotKind::Heap)
    } else if tag == 2 {
        Ok(SnapshotKind::Lsm)
    } else {
        Err(ColumnarError::Corrupt("unknown snapshot token kind"))
    }
}

// ---------------------------------------------------------------------------
// Row versions
// ---------------------------------------------------------------------------
/// The engine of a row version.
pub open spec fn kind_of(key: StorageVersionKey) -> SnapshotKind {
    match key {
        StorageVersionKey::Heap { .. } => SnapshotKind::Heap,
        StorageVersionKey::Lsm { .. } => SnapshotKind::Lsm,
    }
}

/// Why a row version is not one of a storage, if it is not.
pub open spec fn key_error(
    key: StorageVersionKey,
    storage_id: StorageId,
    kind: SnapshotKind,
) -> Option<ColumnarError> {
    if storage_id.0 == 0 || types::owner(key) != storage_id {
        Some(ColumnarError::IdentityMismatch("version storage"))
    } else if kind_of(key) != kind {
        Some(ColumnarError::IdentityMismatch("version engine kind"))
    } else {
        match key {
            StorageVersionKey::Heap { row_id, .. } => if row_id.page.0 == 0 || row_id.generation
                == 0 {
                Some(ColumnarError::Corrupt("invalid Heap version identity"))
            } else {
                None
            },
            StorageVersionKey::Lsm { row_id, version, .. } => if row_id.0 == 0 || version.0 == 0 {
                Some(ColumnarError::Corrupt("invalid LSM version identity"))
            } else {
                None
            },
        }
    }
}

/// Checks that a row version is one of a storage.
pub fn validate_version_key(
    key: StorageVersionKey,
    storage_id: StorageId,
    kind: SnapshotKind,
) -> (valid: Result<(), ColumnarError>)
    ensures
        match key_error(key, storage_id, kind) {
            Some(error) => valid == Err::<(), ColumnarError>(error),
            None => valid is Ok,
        },
{
    if storage_id.0 == 0 || key.storage_id() != storage_id {
        return Err(ColumnarError::IdentityMismatch("version storage"));
    }
    match (kind, key) {
        (SnapshotKind::Heap, StorageVersionKey::Heap { row_id, .. }) => {
            if row_id.page.0 == 0 || row_id.generation == 0 {
                return Err(ColumnarError::Corrupt("invalid Heap version identity"));
            }
            Ok(())
        },
        (SnapshotKind::Lsm, StorageVersionKey::Lsm { row_id, version, .. }) => {
            if row_id.0 == 0 || version.0 == 0 {
                return Err(ColumnarError::Corrupt("invalid LSM version identity"));
            }
            Ok(())
        },
        _ => Err(ColumnarError::IdentityMismatch("version engine kind")),
    }
}

/// How a row version is written. Its storage is known from the file.
pub open spec fn key_le(key: StorageVersionKey) -> Seq<u8> {
    match key {
        StorageVersionKey::Heap { row_id, .. } => seq![1u8] + bytes::zeros(7) + bytes::u64_le(
            row_id.page.0,
        ) + bytes::u16_le(row_id.slot) + bytes::u32_le(row_id.generation) + bytes::u16_le(0),
        StorageVersionKey::Lsm { row_id, version, .. } => seq![2u8] + bytes::zeros(7)
            + bytes::u64_le(row_id.0) + bytes::u64_le(version.0),
    }
}

/// The row version of a heap behind its tag.
pub open spec fn heap_key_read(s: Seq<u8>, at: int, storage_id: StorageId) -> Parsed<
    StorageVersionKey,
> {
    match reader::u64_read(s, at) {
        Err(error) => Err(error),
        Ok((page, at)) => match reader::u16_read(s, at) {
            Err(error) => Err(error),
            Ok((slot, at)) => match reader::u32_read(s, at) {
                Err(error) => Err(error),
                Ok((generation, at)) => match reader::u16_read(s, at) {
                    Err(error) => Err(error),
                    Ok((gap, at)) => if gap != 0 {
                        Err(ColumnarError::Corrupt("Heap key reserved bytes are nonzero"))
                    } else {
                        Ok(
                            (
                                StorageVersionKey::Heap {
                                    storage_id,
                                    row_id: RowId { page: PageId(page), slot, generation },
                                },
                                at,
                            ),
                        )
                    },
                },
            },
        },
    }
}

/// The row version of an LSM tree behind its tag.
pub open spec fn lsm_key_read(s: Seq<u8>, at: int, storage_id: StorageId) -> Parsed<
    StorageVersionKey,
> {
    match reader::u64_read(s, at) {
        Err(error) => Err(error),
        Ok((row, at)) => match reader::u64_read(s, at) {
            Err(error) => Err(error),
            Ok((version, at)) => Ok(
                (
                    StorageVersionKey::Lsm {
                        storage_id,
                        row_id: LsmRowId(row),
                        version: LsmCommitSeq(version),
                    },
                    at,
                ),
            ),
        },
    }
}

/// The row version of a storage at `at`.
pub open spec fn key_read(s: Seq<u8>, at: int, storage_id: StorageId, kind: SnapshotKind) -> Parsed<
    StorageVersionKey,
> {
    match reader::u8_read(s, at) {
        Err(error) => Err(error),
        Ok((tag, at)) => match reader::reserved_read(
            s,
            at,
            7,
            "version key reserved bytes are nonzero",
        ) {
            Err(error) => Err(error),
            Ok((_, at)) => {
                let read = if tag == 1 {
                    heap_key_read(s, at, storage_id)
                } else if tag == 2 {
                    lsm_key_read(s, at, storage_id)
                } else {
                    Err(ColumnarError::Corrupt("unknown version key tag"))
                };
                match read {
                    Err(error) => Err(error),
                    Ok((key, at)) => match key_error(key, storage_id, kind) {
                        Some(error) => Err(error),
                        None => Ok((key, at)),
                    },
                }
            },
        },
    }
}

/// Writes a row version of a storage.
pub fn encode_version_key(
    output: &mut Vec<u8>,
    key: StorageVersionKey,
    storage_id: StorageId,
) -> (written: Result<(), ColumnarError>)
    ensures
        match key_error(key, storage_id, kind_of(key)) {
            Some(error) => {
                &&& written == Err::<(), ColumnarError>(error)
                &&& final(output)@ == old(output)@
            },
            None => written is Ok && final(output)@ == old(output)@ + key_le(key),
        },
{
    match key {
        StorageVersionKey::Heap { row_id, .. } => {
            validate_version_key(key, storage_id, SnapshotKind::Heap)?;
            output.push(1);
            bytes::push_zeros(output, 7);
            bytes::push_u64(output, row_id.page.0);
            bytes::push_u16(output, row_id.slot);
            bytes::push_u32(output, row_id.generation);
            bytes::push_u16(output, 0);
        },
        StorageVersionKey::Lsm { row_id, version, .. } => {
            validate_version_key(key, storage_id, SnapshotKind::Lsm)?;
            output.push(2);
            bytes::push_zeros(output, 7);
            bytes::push_u64(output, row_id.0);
            bytes::push_u64(output, version.0);
        },
    }
    assert(output@ =~= old(output)@ + key_le(key));
    Ok(())
}

/// Reads a row version of a storage.
pub fn decode_version_key(
    reader: &mut Reader<'_>,
    storage_id: StorageId,
    expected_kind: SnapshotKind,
) -> (read: Result<StorageVersionKey, ColumnarError>)
    requires
        old(reader).wf(),
    ensures
        final(reader).wf(),
        final(reader).bytes == old(reader).bytes,
        reader::reads(
            read,
            final(reader).offset as int,
            key_read(old(reader).bytes@, old(reader).offset as int, storage_id, expected_kind),
        ),
{
    let tag: u8 = reader.u8()?;
    reader.reserved(7, "version key reserved bytes are nonzero")?;
    let key: StorageVersionKey = if tag == 1 {
        let page: u64 = reader.u64()?;
        let slot: u16 = reader.u16()?;
        let generation: u32 = reader.u32()?;
        let gap: u16 = reader.u16()?;
        if gap != 0 {
            return Err(ColumnarError::Corrupt("Heap key reserved bytes are nonzero"));
        }
        StorageVersionKey::Heap { storage_id, row_id: RowId { page: PageId(page), slot, generation } }
    } else if tag == 2 {
        let row: u64 = reader.u64()?;
        let version: u64 = reader.u64()?;
        StorageVersionKey::Lsm { storage_id, row_id: LsmRowId(row), version: LsmCommitSeq(version) }
    } else {
        return Err(ColumnarError::Corrupt("unknown version key tag"));
    };
    validate_version_key(key, storage_id, expected_kind)?;
    Ok(key)
}

/// A row version takes 24 bytes.
pub proof fn lemma_key_len(key: StorageVersionKey)
    ensures
        key_le(key).len() == 24,
{
}

/// A written row version is read back.
pub proof fn law_key_round_trip(
    s: Seq<u8>,
    at: int,
    key: StorageVersionKey,
    storage_id: StorageId,
    kind: SnapshotKind,
)
    requires
        reader::holds(s, at, key_le(key)),
        s.len() <= usize::MAX,
        key_error(key, storage_id, kind) is None,
    ensures
        key_read(s, at, storage_id, kind) == Ok::<(StorageVersionKey, int), ColumnarError>(
            (key, at + 24),
        ),
{
    match key {
        StorageVersionKey::Heap { row_id, .. } => {
            let p1 = seq![1u8];
            let p2 = p1 + bytes::zeros(7);
            let p3 = p2 + bytes::u64_le(row_id.page.0);
            let p4 = p3 + bytes::u16_le(row_id.slot);
            let p5 = p4 + bytes::u32_le(row_id.generation);
            reader::lemma_holds(s, at, p5, bytes::u16_le(0));
            reader::lemma_holds(s, at, p4, bytes::u32_le(row_id.generation));
            reader::lemma_holds(s, at, p3, bytes::u16_le(row_id.slot));
            reader::lemma_holds(s, at, p2, bytes::u64_le(row_id.page.0));
            reader::lemma_holds(s, at, p1, bytes::zeros(7));
            reader::lemma_u8_read(s, at, 1);
            reader::lemma_u64_read(s, at + 8, row_id.page.0);
            reader::lemma_u16_read(s, at + 16, row_id.slot);
            reader::lemma_u32_read(s, at + 18, row_id.generation);
            reader::lemma_u16_read(s, at + 22, 0);
        },
        StorageVersionKey::Lsm { row_id, version, .. } => {
            let p1 = seq![2u8];
            let p2 = p1 + bytes::zeros(7);
            let p3 = p2 + bytes::u64_le(row_id.0);
            reader::lemma_holds(s, at, p3, bytes::u64_le(version.0));
            reader::lemma_holds(s, at, p2, bytes::u64_le(row_id.0));
            reader::lemma_holds(s, at, p1, bytes::zeros(7));
            reader::lemma_u8_read(s, at, 2);
            reader::lemma_u64_read(s, at + 8, row_id.0);
            reader::lemma_u64_read(s, at + 16, version.0);
        },
    }
}

// ---------------------------------------------------------------------------
// Lists of row versions
// ---------------------------------------------------------------------------
/// The first `n` row versions, one behind the other.
pub open spec fn keys_le(keys: Seq<StorageVersionKey>, n: int) -> Seq<u8>
    decreases n,
{
    if n <= 0 {
        Seq::empty()
    } else {
        keys_le(keys, n - 1) + key_le(keys[n - 1])
    }
}

/// Why the first `n` row versions are not all ones of a storage, if they are
/// not.
pub open spec fn keys_error(
    keys: Seq<StorageVersionKey>,
    storage_id: StorageId,
    n: int,
) -> Option<ColumnarError>
    decreases n,
{
    if n <= 0 {
        None
    } else if keys_error(keys, storage_id, n - 1) is Some {
        keys_error(keys, storage_id, n - 1)
    } else {
        key_error(keys[n - 1], storage_id, kind_of(keys[n - 1]))
    }
}

/// So many row versions of a storage at `at`.
pub open spec fn keys_read(
    s: Seq<u8>,
    at: int,
    storage_id: StorageId,
    kind: SnapshotKind,
    n: int,
) -> Parsed<Seq<StorageVersionKey>>
    decreases n,
{
    if n <= 0 {
        Ok((Seq::empty(), at))
    } else {
        match keys_read(s, at, storage_id, kind, n - 1) {
            Err(error) => Err(error),
            Ok((keys, at)) => match key_read(s, at, storage_id, kind) {
                Err(error) => Err(error),
                Ok((key, at)) => Ok((keys.push(key), at)),
            },
        }
    }
}

proof fn lemma_keys_read_prefix(
    s: Seq<u8>,
    at: int,
    storage_id: StorageId,
    kind: SnapshotKind,
    n: int,
    m: int,
)
    requires
        n <= m,
        keys_read(s, at, storage_id, kind, n) is Err,
    ensures
        keys_read(s, at, storage_id, kind, m) == keys_read(s, at, storage_id, kind, n),
    decreases m - n,
{
    if n < m {
        lemma_keys_read_prefix(s, at, storage_id, kind, n, m - 1);
    }
}

/// So many row versions take 24 bytes each.
pub proof fn lemma_keys_len(keys: Seq<StorageVersionKey>, n: int)
    requires
        0 <= n <= keys.len(),
    ensures
        keys_le(keys, n).len() == 24 * n,
    decreases n,
{
    if n > 0 {
        lemma_keys_len(keys, n - 1);
        lemma_key_len(keys[n - 1]);
    }
}

/// Row versions that were read are as many as were asked for.
pub proof fn lemma_keys_read_len(
    s: Seq<u8>,
    at: int,
    storage_id: StorageId,
    kind: SnapshotKind,
    n: int,
)
    requires
        0 <= n,
    ensures
        keys_read(s, at, storage_id, kind, n) matches Ok((keys, _)) ==> keys.len() == n,
    decreases n,
{
    if n > 0 {
        lemma_keys_read_len(s, at, storage_id, kind, n - 1);
    }
}

/// Written row versions are read back.
pub proof fn law_keys_round_trip(
    s: Seq<u8>,
    at: int,
    keys: Seq<StorageVersionKey>,
    storage_id: StorageId,
    kind: SnapshotKind,
    n: int,
)
    requires
        0 <= n <= keys.len(),
        reader::holds(s, at, keys_le(keys, n)),
        s.len() <= usize::MAX,
        forall|i: int|
            0 <= i < n ==> key_error(#[trigger] keys[i], storage_id, kind) is None,
    ensures
        keys_read(s, at, storage_id, kind, n) == Ok::<(Seq<StorageVersionKey>, int), ColumnarError>(
            (keys.take(n), at + 24 * n),
        ),
    decreases n,
{
    lemma_keys_len(keys, n);
    if n > 0 {
        lemma_keys_len(keys, n - 1);
        reader::lemma_holds(s, at, keys_le(keys, n - 1), key_le(keys[n - 1]));
        law_keys_round_trip(s, at, keys, storage_id, kind, n - 1);
        law_key_round_trip(s, at + 24 * (n - 1), keys[n - 1], storage_id, kind);
        assert(keys.take(n - 1).push(keys[n - 1]) =~= keys.take(n));
    } else {
        assert(keys.take(0) =~= Seq::empty());
    }
}

/// Writes row versions of a storage.
pub fn encode_version_keys(
    output: &mut Vec<u8>,
    keys: &[StorageVersionKey],
    storage_id: StorageId,
) -> (written: Result<(), ColumnarError>)
    ensures
        match keys_error(keys@, storage_id, keys@.len() as int) {
            Some(error) => written == Err::<(), ColumnarError>(error),
            None => written is Ok && final(output)@ == old(output)@ + keys_le(
                keys@,
                keys@.len() as int,
            ),
        },
{
    let mut i: usize = 0;
    assert(output@ =~= old(output)@ + keys_le(keys@, 0));
    while i < keys.len()
        invariant
            i <= keys@.len(),
            keys_error(keys@, storage_id, i as int) is None,
            output@ == old(output)@ + keys_le(keys@, i as int),
        decreases keys@.len() - i,
    {
        let ghost before = keys_le(keys@, i as int);
        proof {
            if keys_error(keys@, storage_id, i + 1) is Some {
                lemma_keys_error_prefix(keys@, storage_id, i + 1, keys@.len() as int);
            }
        }
        encode_version_key(output, keys[i], storage_id)?;
        i = i + 1;
        assert(output@ =~= old(output)@ + (before + key_le(keys@[i - 1])));
    }
    Ok(())
}

proof fn lemma_keys_error_prefix(
    keys: Seq<StorageVersionKey>,
    storage_id: StorageId,
    n: int,
    m: int,
)
    requires
        n <= m,
        keys_error(keys, storage_id, n) is Some,
    ensures
        keys_error(keys, storage_id, m) == keys_error(keys, storage_id, n),
    decreases m - n,
{
    if n < m {
        lemma_keys_error_prefix(keys, storage_id, n, m - 1);
    }
}

/// Reads so many row versions of a storage.
pub fn decode_version_keys(
    reader: &mut Reader<'_>,
    storage_id: StorageId,
    kind: SnapshotKind,
    count: u32,
) -> (read: Result<Vec<StorageVersionKey>, ColumnarError>)
    requires
        old(reader).wf(),
    ensures
        final(reader).wf(),
        final(reader).bytes == old(reader).bytes,
        match keys_read(
            old(reader).bytes@,
            old(reader).offset as int,
            storage_id,
            kind,
            count as int,
        ) {
            Ok((keys, next)) => {
                &&& read is Ok
                &&& read->Ok_0@ == keys
                &&& final(reader).offset == next
            },
            Err(error) => read == Err::<Vec<StorageVersionKey>, ColumnarError>(error),
        },
{
    let ghost s = reader.bytes@;
    let ghost at = reader.offset as int;
    let mut keys: Vec<StorageVersionKey> = Vec::new();
    let mut i: u32 = 0;
    while i < count
        invariant
            i <= count,
            reader.wf(),
            reader.bytes == old(reader).bytes,
            s == old(reader).bytes@,
            at == old(reader).offset,
            keys_read(s, at, storage_id, kind, i as int) == Ok::<
                (Seq<StorageVersionKey>, int),
                ColumnarError,
            >((keys@, reader.offset as int)),
        decreases count - i,
    {
        proof {
            if keys_read(s, at, storage_id, kind, i + 1) is Err {
                lemma_keys_read_prefix(s, at, storage_id, kind, i + 1, count as int);
            }
        }
        let key: StorageVersionKey = decode_version_key(reader, storage_id, kind)?;
        keys.push(key);
        i = i + 1;
    }
    Ok(keys)
}

} // verus!
