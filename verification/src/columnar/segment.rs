//! Base segments of the first two formats: a header and the row groups, under
//! one check value.
use super::chunk;
use super::error::ColumnarError;
use super::group::{self, ColumnarBatchColumn, GroupView, RowGroup};
use super::metadata::{
    ColumnarProjectionMetadata, MetadataView, SegmentIdentity, INCREMENTAL_FORMAT_VERSION,
    MAX_ROW_GROUPS, SNAPSHOT_FORMAT_VERSION,
};
use super::reader::{self, Parsed, Reader};
use super::statistics::{ColumnarColumnStatistics, StatisticsView};
use super::vector::{ColumnarColumnSpec, ColumnarVector, VectorView};
use super::version;
use crate::bytes;
use crate::change_stream::types::StorageVersionKey;
use crate::ids::{ColumnId, ColumnarSegmentId, SchemaFingerprint, StorageId};
use vstd::prelude::*;

verus! {

broadcast use crate::bytes::group_le_len;

/// The first bytes of a base segment: `NBCS`.
pub open spec fn segment_magic() -> Seq<u8> {
    seq![0x4e, 0x42, 0x43, 0x53]
}

// ---------------------------------------------------------------------------
// Chunks of a group
// ---------------------------------------------------------------------------
/// The statistics of a column, if a group has them.
pub open spec fn statistics_for(
    statistics: Seq<(ColumnId, StatisticsView)>,
    id: ColumnId,
) -> Option<StatisticsView> {
    match group::place_of(group::statistics_ids(statistics), id) {
        Some(place) => Some(statistics[place].1),
        None => None,
    }
}

/// How many chunks are written of a group.
pub open spec fn chunk_count(columns: Seq<ColumnarColumnSpec>, known: GroupView) -> int {
    if columns.len() <= known.columns.len() {
        columns.len() as int
    } else {
        known.columns.len() as int
    }
}

/// One chunk of a group.
pub open spec fn group_chunk_le(
    columns: Seq<ColumnarColumnSpec>,
    known: GroupView,
    i: int,
) -> Seq<u8> {
    chunk::chunk_le(
        columns[i],
        known.columns[i].1,
        statistics_for(known.statistics, columns[i].column_id)->0,
    )
}

/// Why a chunk of a group cannot be written, if it cannot.
pub open spec fn group_chunk_error(
    columns: Seq<ColumnarColumnSpec>,
    known: GroupView,
    i: int,
    missing: &'static str,
) -> Option<ColumnarError> {
    match statistics_for(known.statistics, columns[i].column_id) {
        Some(statistics) => chunk::chunk_error(columns[i], known.columns[i].1, statistics),
        None => Some(ColumnarError::InvalidInput(missing)),
    }
}

/// The first `n` chunks of a group.
pub open spec fn group_chunks_le(
    columns: Seq<ColumnarColumnSpec>,
    known: GroupView,
    n: int,
) -> Seq<u8>
    decreases n,
{
    if n <= 0 {
        Seq::empty()
    } else {
        group_chunks_le(columns, known, n - 1) + group_chunk_le(columns, known, n - 1)
    }
}

/// Why the first `n` chunks of a group cannot be written, if they cannot.
pub open spec fn group_chunks_error(
    columns: Seq<ColumnarColumnSpec>,
    known: GroupView,
    missing: &'static str,
    n: int,
) -> Option<ColumnarError>
    decreases n,
{
    if n <= 0 {
        None
    } else if group_chunks_error(columns, known, missing, n - 1) is Some {
        group_chunks_error(columns, known, missing, n - 1)
    } else {
        group_chunk_error(columns, known, n - 1, missing)
    }
}

proof fn lemma_chunks_error_prefix(
    columns: Seq<ColumnarColumnSpec>,
    known: GroupView,
    missing: &'static str,
    n: int,
    m: int,
)
    requires
        n <= m,
        group_chunks_error(columns, known, missing, n) is Some,
    ensures
        group_chunks_error(columns, known, missing, m) == group_chunks_error(
            columns,
            known,
            missing,
            n,
        ),
    decreases m - n,
{
    if n < m {
        lemma_chunks_error_prefix(columns, known, missing, n, m - 1);
    }
}

/// The place of a column's statistics.
pub fn find_statistics(
    statistics: &[(ColumnId, ColumnarColumnStatistics)],
    id: ColumnId,
) -> (place: Option<usize>)
    ensures
        match group::place_of(group::statistics_ids(group::statistics_view(statistics@)), id) {
            Some(found) => place is Some && place->0 == found && place->0 < statistics@.len(),
            None => place is None,
        },
{
    let ghost ids = group::statistics_ids(group::statistics_view(statistics@));
    let mut i: usize = 0;
    while i < statistics.len()
        invariant
            i <= statistics@.len(),
            ids == group::statistics_ids(group::statistics_view(statistics@)),
            group::place_of(ids, id) == group::place_from(ids, id, i as int),
        decreases statistics@.len() - i,
    {
        if statistics[i].0 == id {
            return Some(i);
        }
        i = i + 1;
    }
    None
}

/// Writes one chunk of a group.
pub fn encode_group_chunk(
    output: &mut Vec<u8>,
    columns: &[ColumnarColumnSpec],
    row_group: &RowGroup,
    i: usize,
    missing: &'static str,
) -> (written: Result<(), ColumnarError>)
    requires
        i < columns@.len(),
        i < row_group.columns@.len(),
    ensures
        match group_chunk_error(columns@, row_group@, i as int, missing) {
            Some(error) => written == Err::<(), ColumnarError>(error),
            None => written is Ok && final(output)@ == old(output)@ + group_chunk_le(
                columns@,
                row_group@,
                i as int,
            ),
        },
{
    assert(row_group@.columns[i as int] == (
        row_group.columns@[i as int].column_id,
        row_group.columns@[i as int].values@,
    ));
    match find_statistics(row_group.statistics.as_slice(), columns[i].column_id) {
        Some(place) => {
            assert(row_group@.statistics[place as int].1 == row_group.statistics@[place as int].1@);
            chunk::encode_column_chunk(
                output,
                &columns[i],
                &row_group.columns[i].values,
                &row_group.statistics[place].1,
            )
        },
        None => Err(ColumnarError::InvalidInput(missing)),
    }
}

/// Writes the chunks of a group.
pub fn encode_group_chunks(
    output: &mut Vec<u8>,
    columns: &[ColumnarColumnSpec],
    row_group: &RowGroup,
    missing: &'static str,
) -> (written: Result<(), ColumnarError>)
    ensures
        match group_chunks_error(
            columns@,
            row_group@,
            missing,
            chunk_count(columns@, row_group@),
        ) {
            Some(error) => written == Err::<(), ColumnarError>(error),
            None => written is Ok && final(output)@ == old(output)@ + group_chunks_le(
                columns@,
                row_group@,
                chunk_count(columns@, row_group@),
            ),
        },
{
    let ghost known = row_group@;
    let ghost n = chunk_count(columns@, known);
    let mut i: usize = 0;
    assert(output@ =~= old(output)@ + group_chunks_le(columns@, known, 0));
    while i < columns.len() && i < row_group.columns.len()
        invariant
            i <= n,
            known == row_group@,
            n == chunk_count(columns@, known),
            group_chunks_error(columns@, known, missing, i as int) is None,
            output@ == old(output)@ + group_chunks_le(columns@, known, i as int),
        decreases n - i,
    {
        let ghost before = group_chunks_le(columns@, known, i as int);
        proof {
            if group_chunks_error(columns@, known, missing, i + 1) is Some {
                lemma_chunks_error_prefix(columns@, known, missing, i + 1, n);
            }
        }
        encode_group_chunk(output, columns, row_group, i, missing)?;
        i = i + 1;
        assert(output@ =~= old(output)@ + (before + group_chunk_le(columns@, known, i - 1)));
    }
    Ok(())
}

/// So many chunks of a group.
pub open spec fn chunks_read(
    s: Seq<u8>,
    at: int,
    columns: Seq<ColumnarColumnSpec>,
    rows: u32,
    n: int,
) -> Parsed<Seq<(VectorView, StatisticsView)>>
    decreases n,
{
    if n <= 0 {
        Ok((Seq::empty(), at))
    } else {
        match chunks_read(s, at, columns, rows, n - 1) {
            Err(error) => Err(error),
            Ok((before, at)) => match chunk::chunk_read(s, at, columns[n - 1], rows) {
                Err(error) => Err(error),
                Ok((read, at)) => Ok((before.push(read), at)),
            },
        }
    }
}

proof fn lemma_chunks_read_prefix(
    s: Seq<u8>,
    at: int,
    columns: Seq<ColumnarColumnSpec>,
    rows: u32,
    n: int,
    m: int,
)
    requires
        n <= m,
        chunks_read(s, at, columns, rows, n) is Err,
    ensures
        chunks_read(s, at, columns, rows, m) == chunks_read(s, at, columns, rows, n),
    decreases m - n,
{
    if n < m {
        lemma_chunks_read_prefix(s, at, columns, rows, n, m - 1);
    }
}

/// What chunks hold.
pub open spec fn chunks_view(chunks: Seq<(ColumnarVector, ColumnarColumnStatistics)>) -> Seq<
    (VectorView, StatisticsView),
> {
    chunks.map_values(|read: (ColumnarVector, ColumnarColumnStatistics)| (read.0@, read.1@))
}

/// Reads the chunks of a group.
pub fn decode_chunks(
    reader: &mut Reader<'_>,
    columns: &[ColumnarColumnSpec],
    rows: u32,
) -> (read: Result<Vec<(ColumnarVector, ColumnarColumnStatistics)>, ColumnarError>)
    requires
        old(reader).wf(),
    ensures
        final(reader).wf(),
        final(reader).bytes == old(reader).bytes,
        match chunks_read(
            old(reader).bytes@,
            old(reader).offset as int,
            columns@,
            rows,
            columns@.len() as int,
        ) {
            Ok((chunks, next)) => {
                &&& read is Ok
                &&& chunks_view(read->Ok_0@) == chunks
                &&& final(reader).offset == next
            },
            Err(error) => read == Err::<
                Vec<(ColumnarVector, ColumnarColumnStatistics)>,
                ColumnarError,
            >(error),
        },
{
    let ghost s = reader.bytes@;
    let ghost at = reader.offset as int;
    let mut chunks: Vec<(ColumnarVector, ColumnarColumnStatistics)> = Vec::new();
    assert(chunks_view(chunks@) =~= Seq::empty());
    let mut i: usize = 0;
    while i < columns.len()
        invariant
            i <= columns@.len(),
            reader.wf(),
            reader.bytes == old(reader).bytes,
            s == old(reader).bytes@,
            at == old(reader).offset,
            chunks_read(s, at, columns@, rows, i as int) == Ok::<
                (Seq<(VectorView, StatisticsView)>, int),
                ColumnarError,
            >((chunks_view(chunks@), reader.offset as int)),
        decreases columns@.len() - i,
    {
        proof {
            if chunks_read(s, at, columns@, rows, i + 1) is Err {
                lemma_chunks_read_prefix(s, at, columns@, rows, i + 1, columns@.len() as int);
            }
        }
        let read = chunk::decode_column_chunk(reader, &columns[i], rows)?;
        let ghost before = chunks_view(chunks@);
        let ghost last = (read.0@, read.1@);
        chunks.push(read);
        i = i + 1;
        assert(chunks_view(chunks@) =~= before.push(last));
    }
    Ok(chunks)
}

// ---------------------------------------------------------------------------
// Writing
// ---------------------------------------------------------------------------
/// The identity at the start of a segment.
pub open spec fn header_le(
    identity: SegmentIdentity,
    columns: nat,
    groups: nat,
    version: u16,
) -> Seq<u8> {
    segment_magic() + bytes::u16_le(version) + bytes::u16_le(0) + bytes::u64_le(
        identity.projection_id.0,
    ) + bytes::u64_le(identity.generation.0) + bytes::u64_le(identity.segment_id.0)
        + bytes::u64_le(identity.table_id.0) + bytes::u64_le(identity.storage_id.0)
        + identity.fingerprint.bytes@ + bytes::u32_le(columns as u32) + bytes::u32_le(
        groups as u32,
    )
}

/// The row versions of a group in a segment.
pub open spec fn versions_le(known: GroupView, version: u16) -> Seq<u8> {
    match known.source_versions {
        Some(keys) => if version == INCREMENTAL_FORMAT_VERSION {
            version::keys_le(keys, keys.len() as int)
        } else {
            Seq::empty()
        },
        None => Seq::empty(),
    }
}

/// One group of a segment.
pub open spec fn group_le(
    columns: Seq<ColumnarColumnSpec>,
    known: GroupView,
    version: u16,
) -> Seq<u8> {
    bytes::u32_le(known.rows) + versions_le(known, version) + group_chunks_le(
        columns,
        known,
        chunk_count(columns, known),
    )
}

/// Why the row versions of a group cannot be written, if they cannot.
pub open spec fn versions_error(known: GroupView, storage_id: StorageId) -> Option<ColumnarError> {
    match known.source_versions {
        Some(keys) => if keys.len() != known.rows {
            Some(ColumnarError::InvalidInput("source identity count differs from row count"))
        } else {
            version::keys_error(keys, storage_id, keys.len() as int)
        },
        None => Some(
            ColumnarError::InvalidInput("incremental row group is missing source identities"),
        ),
    }
}

/// Why a group cannot be written, if it cannot.
pub open spec fn group_write_error(
    storage_id: StorageId,
    columns: Seq<ColumnarColumnSpec>,
    known: GroupView,
    version: u16,
) -> Option<ColumnarError> {
    if version == INCREMENTAL_FORMAT_VERSION && versions_error(known, storage_id) is Some {
        versions_error(known, storage_id)
    } else {
        group_chunks_error(
            columns,
            known,
            "row-group statistics missing",
            chunk_count(columns, known),
        )
    }
}

/// The first `n` groups of a segment.
pub open spec fn groups_le(
    columns: Seq<ColumnarColumnSpec>,
    groups: Seq<GroupView>,
    version: u16,
    n: int,
) -> Seq<u8>
    decreases n,
{
    if n <= 0 {
        Seq::empty()
    } else {
        groups_le(columns, groups, version, n - 1) + group_le(columns, groups[n - 1], version)
    }
}

/// Why the first `n` groups cannot be written, if they cannot.
pub open spec fn groups_error(
    storage_id: StorageId,
    columns: Seq<ColumnarColumnSpec>,
    groups: Seq<GroupView>,
    version: u16,
    n: int,
) -> Option<ColumnarError>
    decreases n,
{
    if n <= 0 {
        None
    } else if groups_error(storage_id, columns, groups, version, n - 1) is Some {
        groups_error(storage_id, columns, groups, version, n - 1)
    } else {
        group_write_error(storage_id, columns, groups[n - 1], version)
    }
}

/// Why a segment cannot be written, if it cannot.
pub open spec fn segment_error(
    identity: SegmentIdentity,
    columns: Seq<ColumnarColumnSpec>,
    groups: Seq<GroupView>,
    version: u16,
) -> Option<ColumnarError> {
    if columns.len() > u32::MAX {
        Some(ColumnarError::InvalidInput("column count overflow"))
    } else if groups.len() > u32::MAX {
        Some(ColumnarError::InvalidInput("row-group count overflow"))
    } else {
        groups_error(identity.storage_id, columns, groups, version, groups.len() as int)
    }
}

/// The payload of a segment.
pub open spec fn segment_payload(
    identity: SegmentIdentity,
    columns: Seq<ColumnarColumnSpec>,
    groups: Seq<GroupView>,
    version: u16,
) -> Seq<u8> {
    header_le(identity, columns.len(), groups.len(), version) + groups_le(
        columns,
        groups,
        version,
        groups.len() as int,
    )
}

proof fn lemma_groups_error_prefix(
    storage_id: StorageId,
    columns: Seq<ColumnarColumnSpec>,
    groups: Seq<GroupView>,
    version: u16,
    n: int,
    m: int,
)
    requires
        n <= m,
        groups_error(storage_id, columns, groups, version, n) is Some,
    ensures
        groups_error(storage_id, columns, groups, version, m) == groups_error(
            storage_id,
            columns,
            groups,
            version,
            n,
        ),
    decreases m - n,
{
    if n < m {
        lemma_groups_error_prefix(storage_id, columns, groups, version, n, m - 1);
    }
}

/// Writes the header of a segment.
pub fn encode_segment_header(
    identity: &SegmentIdentity,
    columns: usize,
    groups: usize,
    version: u16,
) -> (written: Result<Vec<u8>, ColumnarError>)
    ensures
        if columns > u32::MAX {
            written == Err::<Vec<u8>, ColumnarError>(
                ColumnarError::InvalidInput("column count overflow"),
            )
        } else if groups > u32::MAX {
            written == Err::<Vec<u8>, ColumnarError>(
                ColumnarError::InvalidInput("row-group count overflow"),
            )
        } else {
            written is Ok && written->Ok_0@ == header_le(
                *identity,
                columns as nat,
                groups as nat,
                version,
            )
        },
{
    let mut output: Vec<u8> = Vec::new();
    let magic: [u8; 4] = [0x4e, 0x42, 0x43, 0x53];
    assert(magic@ =~= segment_magic());
    bytes::push_bytes(&mut output, &magic);
    bytes::push_u16(&mut output, version);
    bytes::push_u16(&mut output, 0);
    bytes::push_u64(&mut output, identity.projection_id.0);
    bytes::push_u64(&mut output, identity.generation.0);
    bytes::push_u64(&mut output, identity.segment_id.0);
    bytes::push_u64(&mut output, identity.table_id.0);
    bytes::push_u64(&mut output, identity.storage_id.0);
    bytes::push_bytes(&mut output, identity.fingerprint.as_bytes());
    if columns > u32::MAX as usize {
        return Err(ColumnarError::InvalidInput("column count overflow"));
    }
    bytes::push_u32(&mut output, columns as u32);
    if groups > u32::MAX as usize {
        return Err(ColumnarError::InvalidInput("row-group count overflow"));
    }
    bytes::push_u32(&mut output, groups as u32);
    assert(output@ =~= header_le(*identity, columns as nat, groups as nat, version));
    Ok(output)
}

/// Writes the row versions of a group.
pub fn encode_versions(
    output: &mut Vec<u8>,
    row_group: &RowGroup,
    storage_id: StorageId,
) -> (written: Result<(), ColumnarError>)
    ensures
        match versions_error(row_group@, storage_id) {
            Some(error) => written == Err::<(), ColumnarError>(error),
            None => written is Ok && final(output)@ == old(output)@ + versions_le(
                row_group@,
                INCREMENTAL_FORMAT_VERSION,
            ),
        },
{
    match &row_group.source_versions {
        Some(keys) => {
            if keys.len() != row_group.rows as usize {
                return Err(
                    ColumnarError::InvalidInput("source identity count differs from row count"),
                );
            }
            version::encode_version_keys(output, keys.as_slice(), storage_id)
        },
        None => Err(
            ColumnarError::InvalidInput("incremental row group is missing source identities"),
        ),
    }
}

/// Writes one group of a segment.
pub fn encode_segment_row_group(
    output: &mut Vec<u8>,
    identity: &SegmentIdentity,
    columns: &[ColumnarColumnSpec],
    row_group: &RowGroup,
    version: u16,
) -> (written: Result<(), ColumnarError>)
    ensures
        match group_write_error(identity.storage_id, columns@, row_group@, version) {
            Some(error) => written == Err::<(), ColumnarError>(error),
            None => written is Ok && final(output)@ == old(output)@ + group_le(
                columns@,
                row_group@,
                version,
            ),
        },
{
    let ghost start = output@;
    bytes::push_u32(output, row_group.rows);
    if version == INCREMENTAL_FORMAT_VERSION {
        encode_versions(output, row_group, identity.storage_id)?;
    }
    assert(output@ =~= start + (bytes::u32_le(row_group.rows) + versions_le(row_group@, version)));
    encode_group_chunks(output, columns, row_group, "row-group statistics missing")?;
    assert(output@ =~= start + group_le(columns@, row_group@, version));
    Ok(())
}

/// Writes a segment.
pub fn encode_segment(
    identity: &SegmentIdentity,
    columns: &[ColumnarColumnSpec],
    groups: &[RowGroup],
    version: u16,
) -> (written: Result<Vec<u8>, ColumnarError>)
    ensures
        match segment_error(*identity, columns@, group::groups_view(groups@), version) {
            Some(error) => written == Err::<Vec<u8>, ColumnarError>(error),
            None => written is Ok && written->Ok_0@ == reader::checked(
                segment_payload(*identity, columns@, group::groups_view(groups@), version),
            ),
        },
{
    let ghost known = group::groups_view(groups@);
    let mut output: Vec<u8> = encode_segment_header(
        identity,
        columns.len(),
        groups.len(),
        version,
    )?;
    let ghost head = output@;
    assert(output@ =~= head + groups_le(columns@, known, version, 0));
    let mut i: usize = 0;
    while i < groups.len()
        invariant
            i <= groups@.len(),
            known == group::groups_view(groups@),
            groups_error(identity.storage_id, columns@, known, version, i as int) is None,
            segment_error(*identity, columns@, known, version) == groups_error(
                identity.storage_id,
                columns@,
                known,
                version,
                known.len() as int,
            ),
            output@ == head + groups_le(columns@, known, version, i as int),
        decreases groups@.len() - i,
    {
        let ghost before = groups_le(columns@, known, version, i as int);
        proof {
            if groups_error(identity.storage_id, columns@, known, version, i + 1) is Some {
                lemma_groups_error_prefix(
                    identity.storage_id,
                    columns@,
                    known,
                    version,
                    i + 1,
                    known.len() as int,
                );
            }
        }
        assert(known[i as int] == groups@[i as int]@);
        encode_segment_row_group(&mut output, identity, columns, &groups[i], version)?;
        i = i + 1;
        assert(output@ =~= head + (before + group_le(columns@, known[i - 1], version)));
    }
    reader::append_checksum(&mut output);
    Ok(output)
}

// ---------------------------------------------------------------------------
// Reading
// ---------------------------------------------------------------------------
/// A segment that was read.
#[derive(Debug)]
pub struct DecodedSegment {
    pub segment_id: ColumnarSegmentId,
    pub row_groups: Vec<RowGroup>,
}

/// The group that some chunks make.
pub open spec fn group_from(
    columns: Seq<ColumnarColumnSpec>,
    rows: u32,
    source_versions: Option<Seq<StorageVersionKey>>,
    chunks: Seq<(VectorView, StatisticsView)>,
) -> GroupView {
    GroupView {
        rows,
        source_versions,
        columns: Seq::new(columns.len(), |i: int| (columns[i].column_id, chunks[i].0)),
        statistics: Seq::new(columns.len(), |i: int| (columns[i].column_id, chunks[i].1)),
    }
}

/// The row versions of a group in a segment.
pub open spec fn versions_read(
    s: Seq<u8>,
    at: int,
    known: MetadataView,
    version: u16,
    rows: u32,
) -> Parsed<Option<Seq<StorageVersionKey>>> {
    if version == INCREMENTAL_FORMAT_VERSION {
        match version::keys_read(
            s,
            at,
            known.source_storage_id,
            known.source_token.kind,
            rows as int,
        ) {
            Err(error) => Err(error),
            Ok((keys, at)) => Ok((Some(keys), at)),
        }
    } else {
        Ok((None, at))
    }
}

/// One group of a segment, behind so many rows.
pub open spec fn group_read(
    s: Seq<u8>,
    at: int,
    known: MetadataView,
    version: u16,
    before: int,
) -> Parsed<GroupView> {
    match reader::u32_read(s, at) {
        Err(error) => Err(error),
        Ok((rows, at)) => if rows == 0 {
            Err(ColumnarError::Corrupt("empty row group"))
        } else if before + rows > u64::MAX {
            Err(ColumnarError::Corrupt("segment row count overflow"))
        } else {
            match versions_read(s, at, known, version, rows) {
                Err(error) => Err(error),
                Ok((versions, at)) => match chunks_read(
                    s,
                    at,
                    known.columns,
                    rows,
                    known.columns.len() as int,
                ) {
                    Err(error) => Err(error),
                    Ok((chunks, at)) => Ok((group_from(known.columns, rows, versions, chunks), at)),
                },
            }
        },
    }
}

/// So many groups of a segment, and the number of their rows.
pub open spec fn groups_read(
    s: Seq<u8>,
    at: int,
    known: MetadataView,
    version: u16,
    n: int,
) -> Parsed<(Seq<GroupView>, int)>
    decreases n,
{
    if n <= 0 {
        Ok(((Seq::empty(), 0), at))
    } else {
        match groups_read(s, at, known, version, n - 1) {
            Err(error) => Err(error),
            Ok(((groups, rows), at)) => match group_read(s, at, known, version, rows) {
                Err(error) => Err(error),
                Ok((read, at)) => Ok(((groups.push(read), rows + read.rows), at)),
            },
        }
    }
}

/// The format at the start of a segment of a projection.
pub open spec fn format_read(s: Seq<u8>, at: int, known: MetadataView) -> Parsed<u16> {
    match reader::magic_read(s, at, segment_magic()) {
        Err(error) => Err(error),
        Ok((_, at)) => match reader::u16_read(s, at) {
            Err(error) => Err(error),
            Ok((version, at)) => if version != SNAPSHOT_FORMAT_VERSION && version
                != INCREMENTAL_FORMAT_VERSION {
                Err(ColumnarError::UnsupportedVersion(version))
            } else if (version == INCREMENTAL_FORMAT_VERSION) != (known.incremental is Some) {
                Err(ColumnarError::IdentityMismatch("segment mode"))
            } else {
                match reader::u16_read(s, at) {
                    Err(error) => Err(error),
                    Ok((gap, at)) => if gap != 0 {
                        Err(ColumnarError::Corrupt("segment reserved field is nonzero"))
                    } else {
                        Ok((version, at))
                    },
                }
            },
        },
    }
}

/// An integer that must be an expected one.
pub open spec fn expected_read(
    s: Seq<u8>,
    at: int,
    expected: u64,
    identity: &'static str,
) -> Parsed<()> {
    match reader::u64_read(s, at) {
        Err(error) => Err(error),
        Ok((found, at)) => if found != expected {
            Err(ColumnarError::IdentityMismatch(identity))
        } else {
            Ok(((), at))
        },
    }
}

/// The identity of a segment of a projection.
pub open spec fn identity_read(s: Seq<u8>, at: int, known: MetadataView) -> Parsed<
    ColumnarSegmentId,
> {
    match expected_read(s, at, known.id.0, "projection generation") {
        Err(error) => Err(error),
        Ok((_, at)) => match expected_read(s, at, known.generation.0, "projection generation") {
            Err(error) => Err(error),
            Ok((_, at)) => match reader::u64_read(s, at) {
                Err(error) => Err(error),
                Ok((id, at)) => match expected_read(s, at, known.table_id.0, "segment table") {
                    Err(error) => Err(error),
                    Ok((_, at)) => match expected_read(
                        s,
                        at,
                        known.source_storage_id.0,
                        "segment source storage",
                    ) {
                        Err(error) => Err(error),
                        Ok((_, at)) => match reader::fingerprint_read(s, at) {
                            Err(error) => Err(error),
                            Ok((fingerprint, at)) => if fingerprint != known.schema_fingerprint {
                                Err(ColumnarError::IdentityMismatch("segment schema"))
                            } else {
                                Ok((ColumnarSegmentId(id), at))
                            },
                        },
                    },
                },
            },
        },
    }
}

/// The number of groups of a segment of a projection.
pub open spec fn group_count_read(s: Seq<u8>, at: int, known: MetadataView) -> Parsed<u32> {
    match reader::u32_read(s, at) {
        Err(error) => Err(error),
        Ok((columns, at)) => if columns != known.columns.len() {
            Err(ColumnarError::Corrupt("segment column count mismatch"))
        } else {
            match reader::u32_read(s, at) {
                Err(error) => Err(error),
                Ok((groups, at)) => if groups > MAX_ROW_GROUPS || groups != known.row_group_count {
                    Err(ColumnarError::Corrupt("segment row-group count mismatch"))
                } else {
                    Ok((groups, at))
                },
            }
        },
    }
}

/// The segment of a projection in a payload.
pub open spec fn segment_read(s: Seq<u8>, known: MetadataView) -> Result<
    (ColumnarSegmentId, Seq<GroupView>),
    ColumnarError,
> {
    match format_read(s, 0, known) {
        Err(error) => Err(error),
        Ok((version, at)) => match identity_read(s, at, known) {
            Err(error) => Err(error),
            Ok((segment_id, at)) => match group_count_read(s, at, known) {
                Err(error) => Err(error),
                Ok((count, at)) => match groups_read(s, at, known, version, count as int) {
                    Err(error) => Err(error),
                    Ok(((groups, rows), at)) => if rows != known.row_count {
                        Err(ColumnarError::Corrupt("segment row count mismatch"))
                    } else {
                        match reader::end_error(s, at) {
                            Some(error) => Err(error),
                            None => Ok((segment_id, groups)),
                        }
                    },
                },
            },
        },
    }
}

/// The segment of a projection in a file.
pub open spec fn segment_of(s: Seq<u8>, known: MetadataView) -> Result<
    (ColumnarSegmentId, Seq<GroupView>),
    ColumnarError,
> {
    match reader::checksum_error(s) {
        Some(error) => Err(error),
        None => segment_read(reader::payload_of(s), known),
    }
}

fn decode_format(reader: &mut Reader<'_>, incremental: bool, Ghost(known): Ghost<MetadataView>)
    -> (read: Result<u16, ColumnarError>)
    requires
        old(reader).wf(),
        incremental == known.incremental is Some,
    ensures
        final(reader).wf(),
        final(reader).bytes == old(reader).bytes,
        reader::reads(
            read,
            final(reader).offset as int,
            format_read(old(reader).bytes@, old(reader).offset as int, known),
        ),
{
    let magic: [u8; 4] = [0x4e, 0x42, 0x43, 0x53];
    assert(magic@ =~= segment_magic());
    reader.expect(&magic)?;
    let version: u16 = reader.u16()?;
    if version != SNAPSHOT_FORMAT_VERSION && version != INCREMENTAL_FORMAT_VERSION {
        return Err(ColumnarError::UnsupportedVersion(version));
    }
    if (version == INCREMENTAL_FORMAT_VERSION) != incremental {
        return Err(ColumnarError::IdentityMismatch("segment mode"));
    }
    let gap: u16 = reader.u16()?;
    if gap != 0 {
        return Err(ColumnarError::Corrupt("segment reserved field is nonzero"));
    }
    Ok(version)
}

/// Reads an integer that must be an expected one.
pub fn expect_u64(reader: &mut Reader<'_>, expected: u64, identity: &'static str) -> (read: Result<
    (),
    ColumnarError,
>)
    requires
        old(reader).wf(),
    ensures
        final(reader).wf(),
        final(reader).bytes == old(reader).bytes,
        reader::reads(
            read,
            final(reader).offset as int,
            expected_read(old(reader).bytes@, old(reader).offset as int, expected, identity),
        ),
{
    let found: u64 = reader.u64()?;
    if found != expected {
        return Err(ColumnarError::IdentityMismatch(identity));
    }
    Ok(())
}

fn decode_identity(reader: &mut Reader<'_>, metadata: &ColumnarProjectionMetadata) -> (read: Result<
    ColumnarSegmentId,
    ColumnarError,
>)
    requires
        old(reader).wf(),
    ensures
        final(reader).wf(),
        final(reader).bytes == old(reader).bytes,
        reader::reads(
            read,
            final(reader).offset as int,
            identity_read(old(reader).bytes@, old(reader).offset as int, metadata@),
        ),
{
    expect_u64(reader, metadata.id.0, "projection generation")?;
    expect_u64(reader, metadata.generation.0, "projection generation")?;
    let id: u64 = reader.u64()?;
    expect_u64(reader, metadata.table_id.0, "segment table")?;
    expect_u64(reader, metadata.source_storage_id.0, "segment source storage")?;
    let fingerprint: SchemaFingerprint = reader.fingerprint()?;
    if !fingerprint.same_as(&metadata.schema_fingerprint) {
        return Err(ColumnarError::IdentityMismatch("segment schema"));
    }
    Ok(ColumnarSegmentId(id))
}

fn assemble_group(
    columns: &[ColumnarColumnSpec],
    rows: u32,
    source_versions: Option<Vec<StorageVersionKey>>,
    chunks: Vec<(ColumnarVector, ColumnarColumnStatistics)>,
) -> (made: RowGroup)
    requires
        chunks@.len() == columns@.len(),
    ensures
        made@ == group_from(
            columns@,
            rows,
            group::versions_view(source_versions),
            chunks_view(chunks@),
        ),
{
    let ghost known = chunks_view(chunks@);
    let ghost whole = group_from(columns@, rows, group::versions_view(source_versions), known);
    let ghost all = chunks@;
    let mut rest: Vec<(ColumnarVector, ColumnarColumnStatistics)> = chunks;
    let mut vectors: Vec<ColumnarBatchColumn> = Vec::new();
    let mut statistics: Vec<(ColumnId, ColumnarColumnStatistics)> = Vec::new();
    let mut i: usize = 0;
    while i < columns.len()
        invariant
            i <= columns@.len(),
            all.len() == columns@.len(),
            known == chunks_view(all),
            rest@ == all.skip(i as int),
            whole == group_from(columns@, rows, group::versions_view(source_versions), known),
            group::batch_columns_view(vectors@) == whole.columns.take(i as int),
            group::statistics_view(statistics@) == whole.statistics.take(i as int),
        decreases columns@.len() - i,
    {
        let (values, found) = rest.remove(0);
        let ghost at = i as int;
        assert(all.skip(at)[0] == all[at]);
        assert(known[at] == (values@, found@));
        let ghost vectors_before = group::batch_columns_view(vectors@);
        let ghost statistics_before = group::statistics_view(statistics@);
        assert(whole.columns[at] == (columns@[at].column_id, values@));
        assert(whole.statistics[at] == (columns@[at].column_id, found@));
        vectors.push(ColumnarBatchColumn { column_id: columns[i].column_id, values });
        statistics.push((columns[i].column_id, found));
        i = i + 1;
        assert(rest@ =~= all.skip(i as int));
        assert(group::batch_columns_view(vectors@) =~= vectors_before.push(whole.columns[at]));
        assert(group::statistics_view(statistics@) =~= statistics_before.push(
            whole.statistics[at],
        ));
        assert(vectors_before.push(whole.columns[at]) =~= whole.columns.take(at + 1));
        assert(statistics_before.push(whole.statistics[at]) =~= whole.statistics.take(at + 1));
    }
    assert(group::batch_columns_view(vectors@) =~= whole.columns);
    assert(group::statistics_view(statistics@) =~= whole.statistics);
    RowGroup { rows, source_versions, columns: vectors, statistics }
}

proof fn lemma_chunks_read_len(
    s: Seq<u8>,
    at: int,
    columns: Seq<ColumnarColumnSpec>,
    rows: u32,
    n: int,
)
    requires
        0 <= n,
    ensures
        chunks_read(s, at, columns, rows, n) matches Ok((chunks, _)) ==> chunks.len() == n,
    decreases n,
{
    if n > 0 {
        lemma_chunks_read_len(s, at, columns, rows, n - 1);
    }
}

fn decode_group(
    reader: &mut Reader<'_>,
    metadata: &ColumnarProjectionMetadata,
    version: u16,
    before: u64,
) -> (read: Result<RowGroup, ColumnarError>)
    requires
        old(reader).wf(),
    ensures
        final(reader).wf(),
        final(reader).bytes == old(reader).bytes,
        match group_read(
            old(reader).bytes@,
            old(reader).offset as int,
            metadata@,
            version,
            before as int,
        ) {
            Ok((known, next)) => {
                &&& read is Ok
                &&& read->Ok_0@ == known
                &&& known.rows == read->Ok_0.rows
                &&& before + known.rows <= u64::MAX
                &&& final(reader).offset == next
            },
            Err(error) => read == Err::<RowGroup, ColumnarError>(error),
        },
{
    let rows: u32 = reader.u32()?;
    if rows == 0 {
        return Err(ColumnarError::Corrupt("empty row group"));
    }
    if rows as u64 > u64::MAX - before {
        return Err(ColumnarError::Corrupt("segment row count overflow"));
    }
    let source_versions: Option<Vec<StorageVersionKey>> = if version
        == INCREMENTAL_FORMAT_VERSION {
        Some(
            version::decode_version_keys(
                reader,
                metadata.source_storage_id,
                metadata.source_token.kind,
                rows,
            )?,
        )
    } else {
        None
    };
    proof {
        lemma_chunks_read_len(
            reader.bytes@,
            reader.offset as int,
            metadata.columns@,
            rows,
            metadata.columns@.len() as int,
        );
    }
    let chunks = decode_chunks(reader, metadata.columns.as_slice(), rows)?;
    Ok(assemble_group(metadata.columns.as_slice(), rows, source_versions, chunks))
}

proof fn lemma_groups_read_prefix(
    s: Seq<u8>,
    at: int,
    known: MetadataView,
    version: u16,
    n: int,
    m: int,
)
    requires
        n <= m,
        groups_read(s, at, known, version, n) is Err,
    ensures
        groups_read(s, at, known, version, m) == groups_read(s, at, known, version, n),
    decreases m - n,
{
    if n < m {
        lemma_groups_read_prefix(s, at, known, version, n, m - 1);
    }
}

fn decode_groups(
    reader: &mut Reader<'_>,
    metadata: &ColumnarProjectionMetadata,
    version: u16,
    count: u32,
) -> (read: Result<(Vec<RowGroup>, u64), ColumnarError>)
    requires
        old(reader).wf(),
    ensures
        final(reader).wf(),
        final(reader).bytes == old(reader).bytes,
        match groups_read(
            old(reader).bytes@,
            old(reader).offset as int,
            metadata@,
            version,
            count as int,
        ) {
            Ok(((groups, rows), next)) => {
                &&& read is Ok
                &&& group::groups_view(read->Ok_0.0@) == groups
                &&& read->Ok_0.1 == rows
                &&& final(reader).offset == next
            },
            Err(error) => read == Err::<(Vec<RowGroup>, u64), ColumnarError>(error),
        },
{
    let ghost s = reader.bytes@;
    let ghost at = reader.offset as int;
    let mut groups: Vec<RowGroup> = Vec::new();
    let mut rows: u64 = 0;
    assert(group::groups_view(groups@) =~= Seq::empty());
    let mut i: u32 = 0;
    while i < count
        invariant
            i <= count,
            reader.wf(),
            reader.bytes == old(reader).bytes,
            s == old(reader).bytes@,
            at == old(reader).offset,
            groups_read(s, at, metadata@, version, i as int) == Ok::<
                ((Seq<GroupView>, int), int),
                ColumnarError,
            >(((group::groups_view(groups@), rows as int), reader.offset as int)),
        decreases count - i,
    {
        proof {
            if groups_read(s, at, metadata@, version, i + 1) is Err {
                lemma_groups_read_prefix(s, at, metadata@, version, i + 1, count as int);
            }
        }
        let read: RowGroup = decode_group(reader, metadata, version, rows)?;
        rows = rows + read.rows as u64;
        let ghost before = group::groups_view(groups@);
        let ghost last = read@;
        groups.push(read);
        i = i + 1;
        assert(group::groups_view(groups@) =~= before.push(last));
    }
    Ok((groups, rows))
}

/// Reads a segment of a projection.
pub fn decode_segment(bytes: &[u8], metadata: &ColumnarProjectionMetadata) -> (read: Result<
    DecodedSegment,
    ColumnarError,
>)
    ensures
        match segment_of(bytes@, metadata@) {
            Ok((segment_id, groups)) => {
                &&& read is Ok
                &&& read->Ok_0.segment_id == segment_id
                &&& group::groups_view(read->Ok_0.row_groups@) == groups
            },
            Err(error) => read == Err::<DecodedSegment, ColumnarError>(error),
        },
{
    let payload: &[u8] = reader::validate_checksum(bytes)?;
    let mut reader: Reader<'_> = Reader::new(payload);
    let version: u16 = decode_format(
        &mut reader,
        metadata.incremental.is_some(),
        Ghost(metadata@),
    )?;
    let segment_id: ColumnarSegmentId = decode_identity(&mut reader, metadata)?;
    let columns: u32 = reader.u32()?;
    if columns as usize != metadata.columns.len() {
        return Err(ColumnarError::Corrupt("segment column count mismatch"));
    }
    let count: u32 = reader.u32()?;
    if count > MAX_ROW_GROUPS || count as u64 != metadata.row_group_count {
        return Err(ColumnarError::Corrupt("segment row-group count mismatch"));
    }
    let (row_groups, rows) = decode_groups(&mut reader, metadata, version, count)?;
    if rows != metadata.row_count {
        return Err(ColumnarError::Corrupt("segment row count mismatch"));
    }
    reader.finish()?;
    Ok(DecodedSegment { segment_id, row_groups })
}

} // verus!
