//! Indexed base segments: payload blocks, a footer with the directory, and a
//! header that says where the footer is.
use super::block::{self, BlockRef, LazyChunkView, LazyColumnChunk, LazyGroupView, LazyRowGroup};
use super::error::ColumnarError;
use super::group::{self, GroupView, RowGroup};
use super::metadata::{
    ColumnarProjectionMetadata, MetadataView, SegmentIdentity, INCREMENTAL_FORMAT_VERSION,
    LAZY_FORMAT_VERSION,
};
use super::ranges;
use super::reader::{self, Parsed, Reader};
use super::segment;
use super::statistics::ColumnarColumnStatistics;
use super::vector::ColumnarColumnSpec;
use super::version::{self, SnapshotKind};
use crate::bytes;
use crate::checksum;
use crate::ids::{ColumnarSegmentId, StorageId};
use crate::value;
use vstd::prelude::*;

verus! {

broadcast use crate::bytes::group_le_len;

/// How many bytes the header of an indexed segment has.
pub const LAZY_SEGMENT_HEADER_BYTES: u64 = 132;

/// The most bytes of a file.
pub const MAX_FILE_BYTES: u64 = 0x4_0000_0000;

/// The most bytes of a footer.
pub const MAX_INDEX_BYTES: u64 = 0x1000_0000;

/// The format of directories.
pub const INDEX_FORMAT_VERSION: u16 = 1;

/// The first bytes of a segment's footer: `NBCF`.
pub open spec fn footer_magic() -> Seq<u8> {
    seq![0x4e, 0x42, 0x43, 0x46]
}

// ---------------------------------------------------------------------------
// Writing groups
// ---------------------------------------------------------------------------
/// The reference of a payload block that stands at a place.
pub open spec fn block_of(offset: int, payload: Seq<u8>) -> BlockRef {
    BlockRef {
        offset: offset as u64,
        length: payload.len() as u64,
        checksum: checksum::crc32c_of(payload),
    }
}

/// Why a payload block cannot stand at a place, if it cannot: it is too long, or
/// the place cannot be counted.
pub open spec fn block_error(offset: int, payload: Seq<u8>) -> Option<ColumnarError> {
    if payload.len() > block::MAX_LAZY_BLOCK_BYTES {
        Some(
            ColumnarError::ResourceLimit {
                resource: "payload block bytes",
                value: payload.len() as u64,
            },
        )
    } else if offset + payload.len() > u64::MAX {
        Some(ColumnarError::ResourceLimit { resource: "segment bytes", value: u64::MAX })
    } else {
        None
    }
}

/// The reference of a payload block that is written behind others.
fn place_block(offset: u64, written: usize, payload: &[u8]) -> (placed: Result<
    BlockRef,
    ColumnarError,
>)
    requires
        offset + written <= u64::MAX,
    ensures
        match block_error(offset + written, payload@) {
            Some(error) => placed == Err::<BlockRef, ColumnarError>(error),
            None => placed == Ok::<BlockRef, ColumnarError>(
                block_of(offset + written, payload@),
            ),
        },
{
    let length: u64 = payload.len() as u64;
    if length > block::MAX_LAZY_BLOCK_BYTES {
        return Err(ColumnarError::ResourceLimit { resource: "payload block bytes", value: length });
    }
    let start: u64 = offset + written as u64;
    if length > u64::MAX - start {
        return Err(ColumnarError::ResourceLimit { resource: "segment bytes", value: u64::MAX });
    }
    Ok(BlockRef { offset: start, length, checksum: checksum::crc32c(payload) })
}

/// The first `n` columns of a group as blocks from a place on, and what the
/// directory says of them.
pub open spec fn lazy_chunks(
    columns: Seq<ColumnarColumnSpec>,
    known: GroupView,
    offset: int,
    n: int,
) -> Result<(Seq<u8>, Seq<LazyChunkView>), ColumnarError>
    decreases n,
{
    if n <= 0 {
        Ok((Seq::empty(), Seq::empty()))
    } else {
        match lazy_chunks(columns, known, offset, n - 1) {
            Err(error) => Err(error),
            Ok((before, chunks)) => match segment::group_chunk_error(
                columns,
                known,
                n - 1,
                "row-group statistics missing",
            ) {
                Some(error) => Err(error),
                None => {
                    let payload = segment::group_chunk_le(columns, known, n - 1);
                    match block_error(offset + before.len(), payload) {
                        Some(error) => Err(error),
                        None => Ok(
                            (
                                before + payload,
                                chunks.push(
                                    LazyChunkView {
                                        spec: columns[n - 1],
                                        statistics: segment::statistics_for(
                                            known.statistics,
                                            columns[n - 1].column_id,
                                        )->0,
                                        block: block_of(offset + before.len(), payload),
                                    },
                                ),
                            ),
                        ),
                    }
                },
            },
        }
    }
}

/// The row versions of a group as a block at a place, if it should have them.
pub open spec fn lazy_versions(
    storage_id: StorageId,
    known: GroupView,
    versioned: bool,
    offset: int,
) -> Result<(Seq<u8>, Option<BlockRef>), ColumnarError> {
    if versioned {
        match segment::versions_error(known, storage_id) {
            Some(error) => Err(error),
            None => {
                let payload = segment::versions_le(known, INCREMENTAL_FORMAT_VERSION);
                match block_error(offset, payload) {
                    Some(error) => Err(error),
                    None => Ok((payload, Some(block_of(offset, payload)))),
                }
            },
        }
    } else if known.source_versions is Some {
        Err(
            ColumnarError::InvalidInput("snapshot row group unexpectedly has source identities"),
        )
    } else {
        Ok((Seq::empty(), None))
    }
}

/// A group as blocks from a place on, and what the directory says of it.
pub open spec fn lazy_group(
    storage_id: StorageId,
    columns: Seq<ColumnarColumnSpec>,
    known: GroupView,
    versioned: bool,
    offset: int,
) -> Result<(Seq<u8>, LazyGroupView), ColumnarError> {
    match lazy_versions(storage_id, known, versioned, offset) {
        Err(error) => Err(error),
        Ok((versions, source_versions)) => match lazy_chunks(
            columns,
            known,
            offset + versions.len(),
            segment::chunk_count(columns, known),
        ) {
            Err(error) => Err(error),
            Ok((payload, chunks)) => Ok(
                (
                    versions + payload,
                    LazyGroupView { rows: known.rows, source_versions, columns: chunks },
                ),
            ),
        },
    }
}

proof fn lemma_lazy_chunks_prefix(
    columns: Seq<ColumnarColumnSpec>,
    known: GroupView,
    offset: int,
    n: int,
    m: int,
)
    requires
        n <= m,
        lazy_chunks(columns, known, offset, n) is Err,
    ensures
        lazy_chunks(columns, known, offset, m) == lazy_chunks(columns, known, offset, n),
    decreases m - n,
{
    if n < m {
        lemma_lazy_chunks_prefix(columns, known, offset, n, m - 1);
    }
}

fn copy_bound(bound: &Option<value::ScalarValue>) -> (copy: Option<value::ScalarValue>)
    ensures
        copy == *bound,
{
    match bound {
        Some(known) => Some(value::copy_value(known)),
        None => None,
    }
}

/// A copy of statistics.
pub fn copy_statistics(statistics: &ColumnarColumnStatistics) -> (copy: ColumnarColumnStatistics)
    ensures
        copy == *statistics,
{
    ColumnarColumnStatistics {
        null_count: statistics.null_count,
        minimum: copy_bound(&statistics.minimum),
        maximum: copy_bound(&statistics.maximum),
        encoded_bytes: statistics.encoded_bytes,
    }
}

fn write_chunks(
    offset: u64,
    columns: &[ColumnarColumnSpec],
    row_group: &RowGroup,
) -> (written: Result<(Vec<u8>, Vec<LazyColumnChunk>), ColumnarError>)
    ensures
        match lazy_chunks(
            columns@,
            row_group@,
            offset as int,
            segment::chunk_count(columns@, row_group@),
        ) {
            Ok((payload, chunks)) => {
                &&& written is Ok
                &&& written->Ok_0.0@ == payload
                &&& block::chunks_view(written->Ok_0.1@) == chunks
                &&& offset + payload.len() <= u64::MAX
            },
            Err(error) => written == Err::<(Vec<u8>, Vec<LazyColumnChunk>), ColumnarError>(error),
        },
{
    let ghost known = row_group@;
    let ghost n = segment::chunk_count(columns@, known);
    let mut output: Vec<u8> = Vec::new();
    let mut chunks: Vec<LazyColumnChunk> = Vec::new();
    assert(block::chunks_view(chunks@) =~= Seq::empty());
    let mut i: usize = 0;
    while i < columns.len() && i < row_group.columns.len()
        invariant
            i <= n,
            known == row_group@,
            n == segment::chunk_count(columns@, known),
            offset + output@.len() <= u64::MAX,
            lazy_chunks(columns@, known, offset as int, i as int) == Ok::<
                (Seq<u8>, Seq<LazyChunkView>),
                ColumnarError,
            >((output@, block::chunks_view(chunks@))),
        decreases n - i,
    {
        proof {
            if lazy_chunks(columns@, known, offset as int, i + 1) is Err {
                lemma_lazy_chunks_prefix(columns@, known, offset as int, i + 1, n);
            }
        }
        let mut payload: Vec<u8> = Vec::new();
        segment::encode_group_chunk(
            &mut payload,
            columns,
            row_group,
            i,
            "row-group statistics missing",
        )?;
        assert(payload@ =~= segment::group_chunk_le(columns@, known, i as int));
        let placed: BlockRef = place_block(offset, output.len(), payload.as_slice())?;
        match segment::find_statistics(row_group.statistics.as_slice(), columns[i].column_id) {
            Some(place) => {
                assert(known.statistics[place as int].1
                    == row_group.statistics@[place as int].1@);
                let chunk: LazyColumnChunk = LazyColumnChunk {
                    spec: columns[i],
                    statistics: copy_statistics(&row_group.statistics[place].1),
                    block: placed,
                };
                let ghost before = block::chunks_view(chunks@);
                let ghost last = chunk@;
                chunks.push(chunk);
                assert(block::chunks_view(chunks@) =~= before.push(last));
            },
            None => {
                return Err(ColumnarError::InvalidInput("row-group statistics missing"));
            },
        }
        bytes::push_bytes(&mut output, payload.as_slice());
        i = i + 1;
    }
    Ok((output, chunks))
}

/// The blocks of a group from a place on, and what the directory says of it.
pub fn encode_lazy_row_group(
    offset: u64,
    storage_id: StorageId,
    columns: &[ColumnarColumnSpec],
    row_group: &RowGroup,
    versioned: bool,
) -> (written: Result<(Vec<u8>, LazyRowGroup), ColumnarError>)
    ensures
        match lazy_group(storage_id, columns@, row_group@, versioned, offset as int) {
            Ok((payload, known)) => {
                &&& written is Ok
                &&& written->Ok_0.0@ == payload
                &&& written->Ok_0.1@ == known
                &&& offset + payload.len() <= u64::MAX
            },
            Err(error) => written == Err::<(Vec<u8>, LazyRowGroup), ColumnarError>(error),
        },
{
    let mut output: Vec<u8> = Vec::new();
    let source_versions: Option<BlockRef> = if versioned {
        segment::encode_versions(&mut output, row_group, storage_id)?;
        assert(output@ =~= segment::versions_le(row_group@, INCREMENTAL_FORMAT_VERSION));
        Some(place_block(offset, 0, output.as_slice())?)
    } else {
        if row_group.source_versions.is_some() {
            return Err(
                ColumnarError::InvalidInput(
                    "snapshot row group unexpectedly has source identities",
                ),
            );
        }
        None
    };
    let start: u64 = offset + output.len() as u64;
    let (payload, chunks) = write_chunks(start, columns, row_group)?;
    bytes::push_bytes(&mut output, payload.as_slice());
    Ok((output, LazyRowGroup { rows: row_group.rows, source_versions, columns: chunks }))
}

// ---------------------------------------------------------------------------
// Writing headers and footers
// ---------------------------------------------------------------------------
/// The counts of a footer.
pub open spec fn footer_head(identity: SegmentIdentity, columns: nat, groups: nat, rows: u64) -> Seq<
    u8,
> {
    footer_magic() + bytes::u16_le(INDEX_FORMAT_VERSION) + bytes::u16_le(0) + bytes::u64_le(
        identity.projection_id.0,
    ) + bytes::u64_le(identity.generation.0) + bytes::u64_le(identity.segment_id.0)
        + bytes::u32_le(columns as u32) + bytes::u32_le(groups as u32) + bytes::u64_le(rows)
}

/// The payload of a footer.
pub open spec fn footer_payload(
    identity: SegmentIdentity,
    columns: nat,
    groups: Seq<LazyGroupView>,
    rows: u64,
) -> Seq<u8> {
    footer_head(identity, columns, groups.len(), rows) + block::directories_le(
        groups,
        groups.len() as int,
    )
}

/// Writes the footer of an indexed segment.
pub fn encode_segment_footer(
    identity: &SegmentIdentity,
    columns: usize,
    groups: &[LazyRowGroup],
    rows: u64,
) -> (written: Result<Vec<u8>, ColumnarError>)
    ensures
        match block::directories_error(
            block::lazy_groups_view(groups@),
            groups@.len() as int,
        ) {
            Some(error) => written == Err::<Vec<u8>, ColumnarError>(error),
            None => written is Ok && written->Ok_0@ == reader::checked(
                footer_payload(
                    *identity,
                    columns as nat,
                    block::lazy_groups_view(groups@),
                    rows,
                ),
            ),
        },
{
    let ghost known = block::lazy_groups_view(groups@);
    let mut output: Vec<u8> = Vec::new();
    let magic: [u8; 4] = [0x4e, 0x42, 0x43, 0x46];
    assert(magic@ =~= footer_magic());
    bytes::push_bytes(&mut output, &magic);
    bytes::push_u16(&mut output, INDEX_FORMAT_VERSION);
    bytes::push_u16(&mut output, 0);
    bytes::push_u64(&mut output, identity.projection_id.0);
    bytes::push_u64(&mut output, identity.generation.0);
    bytes::push_u64(&mut output, identity.segment_id.0);
    bytes::push_u32(&mut output, #[verifier::truncate] (columns as u32));
    bytes::push_u32(&mut output, #[verifier::truncate] (groups.len() as u32));
    bytes::push_u64(&mut output, rows);
    assert(output@ =~= footer_head(*identity, columns as nat, known.len(), rows));
    block::encode_directories(&mut output, groups)?;
    assert(output@ =~= footer_payload(*identity, columns as nat, known, rows));
    reader::append_checksum(&mut output);
    Ok(output)
}

/// The identity at the start of an indexed segment.
pub open spec fn header_identity(
    identity: SegmentIdentity,
    kind: SnapshotKind,
    incremental: bool,
) -> Seq<u8> {
    segment::segment_magic() + bytes::u16_le(LAZY_FORMAT_VERSION) + bytes::u16_le(
        if incremental {
            1
        } else {
            0
        },
    ) + bytes::u64_le(identity.projection_id.0) + bytes::u64_le(identity.generation.0)
        + bytes::u64_le(identity.segment_id.0) + bytes::u64_le(identity.table_id.0)
        + bytes::u64_le(identity.storage_id.0) + identity.fingerprint.bytes@ + seq![
        version::kind_tag(kind),
    ] + bytes::zeros(7)
}

/// The counts of an indexed segment, and where its footer is.
pub open spec fn header_counts(columns: nat, groups: nat, rows: u64, footer: BlockRef) -> Seq<u8> {
    bytes::u32_le(columns as u32) + bytes::u32_le(groups as u32) + bytes::u64_le(rows)
        + bytes::u64_le(footer.offset) + bytes::u64_le(footer.length) + bytes::u32_le(
        footer.checksum,
    ) + bytes::u32_le(0)
}

/// The payload of the header of an indexed segment.
pub open spec fn header_payload(
    identity: SegmentIdentity,
    kind: SnapshotKind,
    incremental: bool,
    columns: nat,
    groups: nat,
    rows: u64,
    footer: BlockRef,
) -> Seq<u8> {
    header_identity(identity, kind, incremental) + header_counts(columns, groups, rows, footer)
}

/// The header of an indexed segment takes its fixed number of bytes.
pub proof fn lemma_header_len(
    identity: SegmentIdentity,
    kind: SnapshotKind,
    incremental: bool,
    columns: nat,
    groups: nat,
    rows: u64,
    footer: BlockRef,
)
    ensures
        reader::checked(
            header_payload(identity, kind, incremental, columns, groups, rows, footer),
        ).len() == LAZY_SEGMENT_HEADER_BYTES,
{
}

/// Writes the header of an indexed segment.
pub fn encode_lazy_segment_header(
    identity: &SegmentIdentity,
    kind: SnapshotKind,
    incremental: bool,
    columns: usize,
    groups: usize,
    rows: u64,
    footer: BlockRef,
) -> (written: Result<Vec<u8>, ColumnarError>)
    ensures
        if columns > u32::MAX {
            written == Err::<Vec<u8>, ColumnarError>(
                ColumnarError::InvalidInput("column count overflow"),
            )
        } else if groups > u32::MAX {
            written == Err::<Vec<u8>, ColumnarError>(
                ColumnarError::InvalidInput("row-group count overflow"),
            )
        } else {
            written is Ok && written->Ok_0@ == reader::checked(
                header_payload(
                    *identity,
                    kind,
                    incremental,
                    columns as nat,
                    groups as nat,
                    rows,
                    footer,
                ),
            )
        },
{
    let mut output: Vec<u8> = Vec::new();
    let magic: [u8; 4] = [0x4e, 0x42, 0x43, 0x53];
    assert(magic@ =~= segment::segment_magic());
    bytes::push_bytes(&mut output, &magic);
    bytes::push_u16(&mut output, LAZY_FORMAT_VERSION);
    bytes::push_u16(
        &mut output,
        if incremental {
            1
        } else {
            0
        },
    );
    bytes::push_u64(&mut output, identity.projection_id.0);
    bytes::push_u64(&mut output, identity.generation.0);
    bytes::push_u64(&mut output, identity.segment_id.0);
    bytes::push_u64(&mut output, identity.table_id.0);
    bytes::push_u64(&mut output, identity.storage_id.0);
    bytes::push_bytes(&mut output, identity.fingerprint.as_bytes());
    output.push(version::snapshot_tag(kind));
    bytes::push_zeros(&mut output, 7);
    let ghost head = header_identity(*identity, kind, incremental);
    assert(output@ =~= head);
    if columns > u32::MAX as usize {
        return Err(ColumnarError::InvalidInput("column count overflow"));
    }
    bytes::push_u32(&mut output, columns as u32);
    if groups > u32::MAX as usize {
        return Err(ColumnarError::InvalidInput("row-group count overflow"));
    }
    bytes::push_u32(&mut output, groups as u32);
    bytes::push_u64(&mut output, rows);
    bytes::push_u64(&mut output, footer.offset);
    bytes::push_u64(&mut output, footer.length);
    bytes::push_u32(&mut output, footer.checksum);
    bytes::push_u32(&mut output, 0);
    assert(output@ =~= head + header_counts(columns as nat, groups as nat, rows, footer));
    reader::append_checksum(&mut output);
    Ok(output)
}

// ---------------------------------------------------------------------------
// Reading headers and footers
// ---------------------------------------------------------------------------
/// Where the footer of an indexed segment is.
#[derive(Debug, Clone, Copy, PartialEq, Eq)]
pub struct FooterRange {
    pub offset: u64,
    pub length: u64,
}

/// Why a file cannot be an indexed segment for its size, if it cannot.
pub open spec fn size_error(file_bytes: u64) -> Option<ColumnarError> {
    if file_bytes < LAZY_SEGMENT_HEADER_BYTES || file_bytes > MAX_FILE_BYTES {
        Some(ColumnarError::ResourceLimit { resource: "segment bytes", value: file_bytes })
    } else {
        None
    }
}

/// The format and the mode of an indexed segment.
pub open spec fn mode_read(s: Seq<u8>, at: int, known: MetadataView) -> Parsed<()> {
    match reader::magic_read(s, at, segment::segment_magic()) {
        Err(error) => Err(error),
        Ok((_, at)) => match reader::u16_read(s, at) {
            Err(error) => Err(error),
            Ok((format, at)) => if format != LAZY_FORMAT_VERSION {
                Err(ColumnarError::UnsupportedVersion(format))
            } else {
                match reader::u16_read(s, at) {
                    Err(error) => Err(error),
                    Ok((flags, at)) => if flags > 1 {
                        Err(ColumnarError::Corrupt("invalid lazy segment flags"))
                    } else if (flags == 1) != (known.incremental is Some) {
                        Err(ColumnarError::IdentityMismatch("lazy segment context"))
                    } else {
                        Ok(((), at))
                    },
                }
            },
        },
    }
}

/// The identity of an indexed segment, which must be the expected one.
pub open spec fn context_read(
    s: Seq<u8>,
    at: int,
    known: MetadataView,
    segment_id: ColumnarSegmentId,
) -> Parsed<()> {
    let context = "lazy segment context";
    match segment::expected_read(s, at, known.id.0, context) {
        Err(error) => Err(error),
        Ok((_, at)) => match segment::expected_read(s, at, known.generation.0, context) {
            Err(error) => Err(error),
            Ok((_, at)) => match segment::expected_read(s, at, segment_id.0, context) {
                Err(error) => Err(error),
                Ok((_, at)) => match segment::expected_read(s, at, known.table_id.0, context) {
                    Err(error) => Err(error),
                    Ok((_, at)) => match segment::expected_read(
                        s,
                        at,
                        known.source_storage_id.0,
                        context,
                    ) {
                        Err(error) => Err(error),
                        Ok((_, at)) => match reader::fingerprint_read(s, at) {
                            Err(error) => Err(error),
                            Ok((fingerprint, at)) => if fingerprint != known.schema_fingerprint {
                                Err(ColumnarError::IdentityMismatch(context))
                            } else {
                                super::delta::engine_read(s, at, known, context)
                            },
                        },
                    },
                },
            },
        },
    }
}

/// The counts of an indexed segment: columns, groups, rows, and where the
/// footer is.
pub open spec fn totals_read(s: Seq<u8>, at: int, expected_checksum: u32) -> Parsed<
    (u32, u32, u64, FooterRange),
> {
    match reader::u32_read(s, at) {
        Err(error) => Err(error),
        Ok((columns, at)) => match reader::u32_read(s, at) {
            Err(error) => Err(error),
            Ok((groups, at)) => match reader::u64_read(s, at) {
                Err(error) => Err(error),
                Ok((rows, at)) => match reader::u64_read(s, at) {
                    Err(error) => Err(error),
                    Ok((offset, at)) => match reader::u64_read(s, at) {
                        Err(error) => Err(error),
                        Ok((length, at)) => match reader::u32_read(s, at) {
                            Err(error) => Err(error),
                            Ok((check, at)) => match reader::u32_read(s, at) {
                                Err(error) => Err(error),
                                Ok((gap, at)) => if gap != 0 || check != expected_checksum {
                                    Err(
                                        ColumnarError::Corrupt(
                                            "lazy segment footer checksum header mismatch",
                                        ),
                                    )
                                } else {
                                    Ok(
                                        (
                                            (columns, groups, rows, FooterRange { offset, length }),
                                            at,
                                        ),
                                    )
                                },
                            },
                        },
                    },
                },
            },
        },
    }
}

/// Whether the counts of an indexed segment are those of its projection, and its
/// footer ends the file.
pub open spec fn totals_fit(
    known: MetadataView,
    columns: u32,
    groups: u32,
    rows: u64,
    footer: FooterRange,
    file_bytes: u64,
) -> bool {
    &&& columns == known.columns.len()
    &&& groups == known.row_group_count
    &&& rows == known.row_count
    &&& footer.offset >= LAZY_SEGMENT_HEADER_BYTES
    &&& footer.length <= MAX_INDEX_BYTES
    &&& footer.offset + footer.length == file_bytes
}

/// Where the header of an indexed segment says that the footer is.
pub open spec fn header_read(
    s: Seq<u8>,
    known: MetadataView,
    segment_id: ColumnarSegmentId,
    expected_checksum: u32,
    file_bytes: u64,
) -> Result<FooterRange, ColumnarError> {
    match mode_read(s, 0, known) {
        Err(error) => Err(error),
        Ok((_, at)) => match context_read(s, at, known, segment_id) {
            Err(error) => Err(error),
            Ok((_, at)) => match totals_read(s, at, expected_checksum) {
                Err(error) => Err(error),
                Ok(((columns, groups, rows, footer), at)) => match reader::end_error(s, at) {
                    Some(error) => Err(error),
                    None => if !totals_fit(known, columns, groups, rows, footer, file_bytes) {
                        Err(
                            ColumnarError::Corrupt(
                                "lazy segment header counts or footer range mismatch",
                            ),
                        )
                    } else {
                        Ok(footer)
                    },
                },
            },
        },
    }
}

/// Where an indexed segment of a projection has its footer, by its header.
pub open spec fn footer_range_of(
    header: Seq<u8>,
    known: MetadataView,
    segment_id: ColumnarSegmentId,
    expected_checksum: u32,
    file_bytes: u64,
) -> Result<FooterRange, ColumnarError> {
    match reader::checksum_error(header) {
        Some(error) => Err(error),
        None => header_read(
            reader::payload_of(header),
            known,
            segment_id,
            expected_checksum,
            file_bytes,
        ),
    }
}

/// Checks that a file can be an indexed segment for its size.
pub fn check_segment_size(file_bytes: u64) -> (valid: Result<(), ColumnarError>)
    ensures
        match size_error(file_bytes) {
            Some(error) => valid == Err::<(), ColumnarError>(error),
            None => valid is Ok,
        },
{
    if file_bytes < LAZY_SEGMENT_HEADER_BYTES || file_bytes > MAX_FILE_BYTES {
        return Err(ColumnarError::ResourceLimit { resource: "segment bytes", value: file_bytes });
    }
    Ok(())
}

fn decode_mode(reader: &mut Reader<'_>, metadata: &ColumnarProjectionMetadata) -> (read: Result<
    (),
    ColumnarError,
>)
    requires
        old(reader).wf(),
    ensures
        final(reader).wf(),
        final(reader).bytes == old(reader).bytes,
        reader::reads(
            read,
            final(reader).offset as int,
            mode_read(old(reader).bytes@, old(reader).offset as int, metadata@),
        ),
{
    let magic: [u8; 4] = [0x4e, 0x42, 0x43, 0x53];
    assert(magic@ =~= segment::segment_magic());
    reader.expect(&magic)?;
    let format: u16 = reader.u16()?;
    if format != LAZY_FORMAT_VERSION {
        return Err(ColumnarError::UnsupportedVersion(format));
    }
    let flags: u16 = reader.u16()?;
    if flags > 1 {
        return Err(ColumnarError::Corrupt("invalid lazy segment flags"));
    }
    if (flags == 1) != metadata.incremental.is_some() {
        return Err(ColumnarError::IdentityMismatch("lazy segment context"));
    }
    Ok(())
}

fn decode_context(
    reader: &mut Reader<'_>,
    metadata: &ColumnarProjectionMetadata,
    segment_id: ColumnarSegmentId,
) -> (read: Result<(), ColumnarError>)
    requires
        old(reader).wf(),
    ensures
        final(reader).wf(),
        final(reader).bytes == old(reader).bytes,
        reader::reads(
            read,
            final(reader).offset as int,
            context_read(old(reader).bytes@, old(reader).offset as int, metadata@, segment_id),
        ),
{
    let context: &'static str = "lazy segment context";
    segment::expect_u64(reader, metadata.id.0, context)?;
    segment::expect_u64(reader, metadata.generation.0, context)?;
    segment::expect_u64(reader, segment_id.0, context)?;
    segment::expect_u64(reader, metadata.table_id.0, context)?;
    segment::expect_u64(reader, metadata.source_storage_id.0, context)?;
    let fingerprint = reader.fingerprint()?;
    if !fingerprint.same_as(&metadata.schema_fingerprint) {
        return Err(ColumnarError::IdentityMismatch(context));
    }
    super::delta::decode_engine(reader, metadata, context)
}

/// Reads the header of an indexed segment of a projection, and says where the
/// footer is.
pub fn decode_lazy_segment_header(
    header: &[u8],
    metadata: &ColumnarProjectionMetadata,
    segment_id: ColumnarSegmentId,
    expected_checksum: u32,
    file_bytes: u64,
) -> (read: Result<FooterRange, ColumnarError>)
    ensures
        read == footer_range_of(header@, metadata@, segment_id, expected_checksum, file_bytes),
        read matches Ok(footer) ==> footer.offset + footer.length == file_bytes,
{
    let payload: &[u8] = reader::validate_checksum(header)?;
    let mut reader: Reader<'_> = Reader::new(payload);
    decode_mode(&mut reader, metadata)?;
    decode_context(&mut reader, metadata, segment_id)?;
    let columns: u32 = reader.u32()?;
    let groups: u32 = reader.u32()?;
    let rows: u64 = reader.u64()?;
    let offset: u64 = reader.u64()?;
    let length: u64 = reader.u64()?;
    let check: u32 = reader.u32()?;
    let gap: u32 = reader.u32()?;
    if gap != 0 || check != expected_checksum {
        return Err(ColumnarError::Corrupt("lazy segment footer checksum header mismatch"));
    }
    reader.finish()?;
    if columns as usize != metadata.columns.len() || groups as u64 != metadata.row_group_count
        || rows != metadata.row_count || offset < LAZY_SEGMENT_HEADER_BYTES || length
        > MAX_INDEX_BYTES || length > u64::MAX - offset || offset + length != file_bytes {
        return Err(ColumnarError::Corrupt("lazy segment header counts or footer range mismatch"));
    }
    Ok(FooterRange { offset, length })
}

/// A half-word that must be an expected one.
pub open spec fn expected_u16(s: Seq<u8>, at: int, expected: u16, identity: &'static str) -> Parsed<
    (),
> {
    match reader::u16_read(s, at) {
        Err(error) => Err(error),
        Ok((found, at)) => if found != expected {
            Err(ColumnarError::IdentityMismatch(identity))
        } else {
            Ok(((), at))
        },
    }
}

/// A word that must be an expected one.
pub open spec fn expected_u32(s: Seq<u8>, at: int, expected: int, identity: &'static str) -> Parsed<
    (),
> {
    match reader::u32_read(s, at) {
        Err(error) => Err(error),
        Ok((found, at)) => if found != expected {
            Err(ColumnarError::IdentityMismatch(identity))
        } else {
            Ok(((), at))
        },
    }
}

/// Reads a half-word that must be an expected one.
pub fn expect_u16(reader: &mut Reader<'_>, expected: u16, identity: &'static str) -> (read: Result<
    (),
    ColumnarError,
>)
    requires
        old(reader).wf(),
    ensures
        final(reader).wf(),
        final(reader).bytes == old(reader).bytes,
        reader::reads(
            read,
            final(reader).offset as int,
            expected_u16(old(reader).bytes@, old(reader).offset as int, expected, identity),
        ),
{
    let found: u16 = reader.u16()?;
    if found != expected {
        return Err(ColumnarError::IdentityMismatch(identity));
    }
    Ok(())
}

/// Reads a word that must be an expected one.
pub fn expect_u32(reader: &mut Reader<'_>, expected: u64, identity: &'static str) -> (read: Result<
    (),
    ColumnarError,
>)
    requires
        old(reader).wf(),
    ensures
        final(reader).wf(),
        final(reader).bytes == old(reader).bytes,
        reader::reads(
            read,
            final(reader).offset as int,
            expected_u32(old(reader).bytes@, old(reader).offset as int, expected as int, identity),
        ),
{
    let found: u32 = reader.u32()?;
    if found as u64 != expected {
        return Err(ColumnarError::IdentityMismatch(identity));
    }
    Ok(())
}

/// The identity and the counts of a footer, which must be the expected ones.
pub open spec fn footer_head_read(
    s: Seq<u8>,
    at: int,
    known: MetadataView,
    segment_id: ColumnarSegmentId,
) -> Parsed<()> {
    let context = "lazy segment footer context";
    match expected_u16(s, at, INDEX_FORMAT_VERSION, context) {
        Err(error) => Err(error),
        Ok((_, at)) => match expected_u16(s, at, 0, context) {
            Err(error) => Err(error),
            Ok((_, at)) => match segment::expected_read(s, at, known.id.0, context) {
                Err(error) => Err(error),
                Ok((_, at)) => match segment::expected_read(s, at, known.generation.0, context) {
                    Err(error) => Err(error),
                    Ok((_, at)) => match segment::expected_read(s, at, segment_id.0, context) {
                        Err(error) => Err(error),
                        Ok((_, at)) => match expected_u32(
                            s,
                            at,
                            known.columns.len() as int,
                            context,
                        ) {
                            Err(error) => Err(error),
                            Ok((_, at)) => match expected_u32(
                                s,
                                at,
                                known.row_group_count as int,
                                context,
                            ) {
                                Err(error) => Err(error),
                                Ok((_, at)) => segment::expected_read(
                                    s,
                                    at,
                                    known.row_count,
                                    context,
                                ),
                            },
                        },
                    },
                },
            },
        },
    }
}

/// The directory in the payload of a footer.
pub open spec fn footer_read(
    s: Seq<u8>,
    known: MetadataView,
    segment_id: ColumnarSegmentId,
    footer: FooterRange,
) -> Result<Seq<LazyGroupView>, ColumnarError> {
    match reader::magic_read(s, 0, footer_magic()) {
        Err(error) => Err(error),
        Ok((_, at)) => match footer_head_read(s, at, known, segment_id) {
            Err(error) => Err(error),
            Ok((_, at)) => match block::directories_read(
                s,
                at,
                known.columns,
                known.incremental is Some,
                "indexed row count overflow",
                known.row_group_count as int,
            ) {
                Err(error) => Err(error),
                Ok(((groups, rows), at)) => match reader::end_error(s, at) {
                    Some(error) => Err(error),
                    None => if rows != known.row_count {
                        Err(ColumnarError::Corrupt("indexed row count mismatch"))
                    } else {
                        match ranges::ranges_error(
                            ranges::all_blocks(groups, groups.len() as int),
                            LAZY_SEGMENT_HEADER_BYTES,
                            footer.offset,
                        ) {
                            Some(error) => Err(error),
                            None => Ok(groups),
                        }
                    },
                },
            },
        },
    }
}

/// What a file holds that is checked against an expected check value: why it is
/// refused, or whether it has that value.
pub open spec fn footer_check(footer: Seq<u8>, expected_checksum: u32) -> Result<
    bool,
    ColumnarError,
> {
    match reader::checksum_error(footer) {
        Some(error) => Err(error),
        None => Ok(bytes::u32_at(footer, footer.len() - 4) == expected_checksum),
    }
}

/// Whether a footer has its expected check value.
pub fn check_footer(footer: &[u8], expected_checksum: u32) -> (checked: Result<bool, ColumnarError>)
    ensures
        checked == footer_check(footer@, expected_checksum),
{
    let _payload: &[u8] = reader::validate_checksum(footer)?;
    let stored: u32 = reader::stored_checksum(footer)?;
    Ok(stored == expected_checksum)
}

fn decode_footer_head(
    reader: &mut Reader<'_>,
    metadata: &ColumnarProjectionMetadata,
    segment_id: ColumnarSegmentId,
) -> (read: Result<(), ColumnarError>)
    requires
        old(reader).wf(),
    ensures
        final(reader).wf(),
        final(reader).bytes == old(reader).bytes,
        reader::reads(
            read,
            final(reader).offset as int,
            footer_head_read(old(reader).bytes@, old(reader).offset as int, metadata@, segment_id),
        ),
{
    let context: &'static str = "lazy segment footer context";
    expect_u16(reader, INDEX_FORMAT_VERSION, context)?;
    expect_u16(reader, 0, context)?;
    segment::expect_u64(reader, metadata.id.0, context)?;
    segment::expect_u64(reader, metadata.generation.0, context)?;
    segment::expect_u64(reader, segment_id.0, context)?;
    expect_u32(reader, metadata.columns.len() as u64, context)?;
    expect_u32(reader, metadata.row_group_count, context)?;
    segment::expect_u64(reader, metadata.row_count, context)
}

/// Reads the footer of an indexed segment of a projection, whose check value was
/// found to be the expected one.
pub fn decode_lazy_segment_footer(
    footer: &[u8],
    metadata: &ColumnarProjectionMetadata,
    segment_id: ColumnarSegmentId,
    range: FooterRange,
) -> (read: Result<Vec<LazyRowGroup>, ColumnarError>)
    requires
        footer@.len() >= 4,
        metadata.row_group_count <= u32::MAX,
    ensures
        match footer_read(reader::payload_of(footer@), metadata@, segment_id, range) {
            Ok(groups) => read is Ok && block::lazy_groups_view(read->Ok_0@) == groups,
            Err(error) => read == Err::<Vec<LazyRowGroup>, ColumnarError>(error),
        },
{
    let payload: &[u8] = &footer[0..footer.len() - 4];
    let mut reader: Reader<'_> = Reader::new(payload);
    let magic: [u8; 4] = [0x4e, 0x42, 0x43, 0x46];
    assert(magic@ =~= footer_magic());
    reader.expect(&magic)?;
    decode_footer_head(&mut reader, metadata, segment_id)?;
    let overflow: &'static str = "indexed row count overflow";
    let (groups, rows) = block::decode_directories(
        &mut reader,
        metadata.columns.as_slice(),
        metadata.incremental.is_some(),
        overflow,
        metadata.row_group_count as u32,
    )?;
    reader.finish()?;
    if rows != metadata.row_count {
        return Err(ColumnarError::Corrupt("indexed row count mismatch"));
    }
    ranges::validate_block_ranges(groups.as_slice(), LAZY_SEGMENT_HEADER_BYTES, range.offset)?;
    Ok(groups)
}

} // verus!
