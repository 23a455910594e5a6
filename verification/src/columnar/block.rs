//! Indexed segments: payload blocks with check values of their own, and the
//! directory that says where they stand and what they hold.
use super::error::ColumnarError;
use super::group;
use super::manifest;
use super::reader::{self, Parsed, Reader};
use super::scalar;
use super::statistics::{self, ColumnarColumnStatistics, ColumnarConstraint, StatisticsView};
use super::vector::ColumnarColumnSpec;
use crate::bytes;
use crate::ids::ColumnId;
use crate::value::{PhysicalType, ScalarView};
use vstd::prelude::*;

verus! {

broadcast use crate::bytes::group_le_len;

/// The most bytes of a payload block.
pub const MAX_LAZY_BLOCK_BYTES: u64 = 0x400_0000;

/// Where a payload block stands in its file, and its check value.
#[derive(Debug, Clone, Copy, PartialEq, Eq, Structural)]
pub struct BlockRef {
    pub offset: u64,
    pub length: u64,
    pub checksum: u32,
}

/// One column of an indexed group.
#[derive(Debug, Clone, PartialEq, Eq)]
pub struct LazyColumnChunk {
    pub spec: ColumnarColumnSpec,
    pub statistics: ColumnarColumnStatistics,
    pub block: BlockRef,
}

/// An indexed group.
#[derive(Debug, Clone, PartialEq, Eq)]
pub struct LazyRowGroup {
    pub rows: u32,
    pub source_versions: Option<BlockRef>,
    pub columns: Vec<LazyColumnChunk>,
}

/// What is known of one column of an indexed group.
pub struct LazyChunkView {
    pub spec: ColumnarColumnSpec,
    pub statistics: StatisticsView,
    pub block: BlockRef,
}

/// What is known of an indexed group.
pub struct LazyGroupView {
    pub rows: u32,
    pub source_versions: Option<BlockRef>,
    pub columns: Seq<LazyChunkView>,
}

impl View for LazyColumnChunk {
    type V = LazyChunkView;

    open spec fn view(&self) -> LazyChunkView {
        LazyChunkView { spec: self.spec, statistics: self.statistics@, block: self.block }
    }
}

/// What is known of columns.
pub open spec fn chunks_view(chunks: Seq<LazyColumnChunk>) -> Seq<LazyChunkView> {
    chunks.map_values(|chunk: LazyColumnChunk| chunk@)
}

impl View for LazyRowGroup {
    type V = LazyGroupView;

    open spec fn view(&self) -> LazyGroupView {
        LazyGroupView {
            rows: self.rows,
            source_versions: self.source_versions,
            columns: chunks_view(self.columns@),
        }
    }
}

/// What is known of indexed groups.
pub open spec fn lazy_groups_view(groups: Seq<LazyRowGroup>) -> Seq<LazyGroupView> {
    groups.map_values(|known: LazyRowGroup| known@)
}

// ---------------------------------------------------------------------------
// Block references
// ---------------------------------------------------------------------------
/// How a block reference is written.
pub open spec fn block_le(block: BlockRef) -> Seq<u8> {
    bytes::u64_le(block.offset) + bytes::u64_le(block.length) + bytes::u32_le(block.checksum)
        + bytes::u32_le(0)
}

/// The block reference at `at`.
pub open spec fn block_read(s: Seq<u8>, at: int) -> Parsed<BlockRef> {
    match reader::u64_read(s, at) {
        Err(error) => Err(error),
        Ok((offset, at)) => match reader::u64_read(s, at) {
            Err(error) => Err(error),
            Ok((length, at)) => match reader::u32_read(s, at) {
                Err(error) => Err(error),
                Ok((checksum, at)) => match reader::u32_read(s, at) {
                    Err(error) => Err(error),
                    Ok((gap, at)) => if gap != 0 || length == 0 || length > MAX_LAZY_BLOCK_BYTES {
                        Err(ColumnarError::Corrupt("invalid payload block reference"))
                    } else {
                        Ok((BlockRef { offset, length, checksum }, at))
                    },
                },
            },
        },
    }
}

/// Writes a block reference.
pub fn encode_block_ref(output: &mut Vec<u8>, block: BlockRef)
    ensures
        final(output)@ == old(output)@ + block_le(block),
{
    bytes::push_u64(output, block.offset);
    bytes::push_u64(output, block.length);
    bytes::push_u32(output, block.checksum);
    bytes::push_u32(output, 0);
    assert(output@ =~= old(output)@ + block_le(block));
}

/// Reads a block reference.
pub fn decode_block_ref(reader: &mut Reader<'_>) -> (read: Result<BlockRef, ColumnarError>)
    requires
        old(reader).wf(),
    ensures
        final(reader).wf(),
        final(reader).bytes == old(reader).bytes,
        reader::reads(
            read,
            final(reader).offset as int,
            block_read(old(reader).bytes@, old(reader).offset as int),
        ),
{
    let offset: u64 = reader.u64()?;
    let length: u64 = reader.u64()?;
    let checksum: u32 = reader.u32()?;
    let gap: u32 = reader.u32()?;
    if gap != 0 || length == 0 || length > MAX_LAZY_BLOCK_BYTES {
        return Err(ColumnarError::Corrupt("invalid payload block reference"));
    }
    Ok(BlockRef { offset, length, checksum })
}

/// Whether a block is one that can be read.
pub open spec fn block_kept(block: BlockRef) -> bool {
    0 < block.length <= MAX_LAZY_BLOCK_BYTES
}

/// A written block reference is read back.
pub proof fn lemma_block_round_trip(s: Seq<u8>, at: int, block: BlockRef)
    requires
        reader::holds(s, at, block_le(block)),
        s.len() <= usize::MAX,
        block_kept(block),
    ensures
        block_le(block).len() == 24,
        block_read(s, at) == Ok::<(BlockRef, int), ColumnarError>((block, at + 24)),
{
    let p1 = bytes::u64_le(block.offset);
    let p2 = p1 + bytes::u64_le(block.length);
    let p3 = p2 + bytes::u32_le(block.checksum);
    reader::lemma_holds(s, at, p3, bytes::u32_le(0));
    reader::lemma_holds(s, at, p2, bytes::u32_le(block.checksum));
    reader::lemma_holds(s, at, p1, bytes::u64_le(block.length));
    reader::lemma_u64_read(s, at, block.offset);
    reader::lemma_u64_read(s, at + 8, block.length);
    reader::lemma_u32_read(s, at + 16, block.checksum);
    reader::lemma_u32_read(s, at + 20, 0);
}

// ---------------------------------------------------------------------------
// Writing directories
// ---------------------------------------------------------------------------
/// How a column of an indexed group is written.
pub open spec fn entry_le(chunk: LazyChunkView) -> Seq<u8> {
    manifest::column_le(chunk.spec) + bytes::u64_le(chunk.statistics.null_count)
        + scalar::optional_le(chunk.statistics.minimum) + scalar::optional_le(
        chunk.statistics.maximum,
    ) + bytes::u64_le(chunk.statistics.encoded_bytes) + block_le(chunk.block)
}

/// Why a column of an indexed group cannot be written, if it cannot.
pub open spec fn entry_error(chunk: LazyChunkView) -> Option<ColumnarError> {
    if scalar::optional_error(chunk.statistics.minimum, chunk.spec.physical_type) is Some {
        scalar::optional_error(chunk.statistics.minimum, chunk.spec.physical_type)
    } else {
        scalar::optional_error(chunk.statistics.maximum, chunk.spec.physical_type)
    }
}

/// The first `n` columns of an indexed group.
pub open spec fn entries_le(chunks: Seq<LazyChunkView>, n: int) -> Seq<u8>
    decreases n,
{
    if n <= 0 {
        Seq::empty()
    } else {
        entries_le(chunks, n - 1) + entry_le(chunks[n - 1])
    }
}

/// Why the first `n` columns of an indexed group cannot be written, if they
/// cannot.
pub open spec fn entries_error(chunks: Seq<LazyChunkView>, n: int) -> Option<ColumnarError>
    decreases n,
{
    if n <= 0 {
        None
    } else if entries_error(chunks, n - 1) is Some {
        entries_error(chunks, n - 1)
    } else {
        entry_error(chunks[n - 1])
    }
}

/// The block of an indexed group's row versions.
pub open spec fn versions_block_le(known: LazyGroupView) -> Seq<u8> {
    match known.source_versions {
        Some(block) => block_le(block),
        None => Seq::empty(),
    }
}

/// The start of an indexed group's entry.
pub open spec fn entry_head_le(known: LazyGroupView) -> Seq<u8> {
    bytes::u32_le(known.rows) + seq![manifest::flag_byte(known.source_versions is Some)]
        + bytes::zeros(3) + versions_block_le(known) + bytes::u32_le(known.columns.len() as u32)
}

/// How an indexed group is written.
pub open spec fn directory_le(known: LazyGroupView) -> Seq<u8> {
    entry_head_le(known) + entries_le(known.columns, known.columns.len() as int)
}

/// Why an indexed group cannot be written, if it cannot.
pub open spec fn directory_error(known: LazyGroupView) -> Option<ColumnarError> {
    if known.columns.len() > u32::MAX {
        Some(ColumnarError::InvalidInput("column count overflow"))
    } else {
        entries_error(known.columns, known.columns.len() as int)
    }
}

/// The first `n` indexed groups.
pub open spec fn directories_le(groups: Seq<LazyGroupView>, n: int) -> Seq<u8>
    decreases n,
{
    if n <= 0 {
        Seq::empty()
    } else {
        directories_le(groups, n - 1) + directory_le(groups[n - 1])
    }
}

/// Why the first `n` indexed groups cannot be written, if they cannot.
pub open spec fn directories_error(groups: Seq<LazyGroupView>, n: int) -> Option<ColumnarError>
    decreases n,
{
    if n <= 0 {
        None
    } else if directories_error(groups, n - 1) is Some {
        directories_error(groups, n - 1)
    } else {
        directory_error(groups[n - 1])
    }
}

proof fn lemma_entries_error_prefix(chunks: Seq<LazyChunkView>, n: int, m: int)
    requires
        n <= m,
        entries_error(chunks, n) is Some,
    ensures
        entries_error(chunks, m) == entries_error(chunks, n),
    decreases m - n,
{
    if n < m {
        lemma_entries_error_prefix(chunks, n, m - 1);
    }
}

proof fn lemma_directories_error_prefix(groups: Seq<LazyGroupView>, n: int, m: int)
    requires
        n <= m,
        directories_error(groups, n) is Some,
    ensures
        directories_error(groups, m) == directories_error(groups, n),
    decreases m - n,
{
    if n < m {
        lemma_directories_error_prefix(groups, n, m - 1);
    }
}

fn encode_entry(output: &mut Vec<u8>, chunk: &LazyColumnChunk) -> (written: Result<
    (),
    ColumnarError,
>)
    ensures
        match entry_error(chunk@) {
            Some(error) => written == Err::<(), ColumnarError>(error),
            None => written is Ok && final(output)@ == old(output)@ + entry_le(chunk@),
        },
{
    let ghost start = output@;
    let physical: PhysicalType = chunk.spec.physical_type;
    bytes::push_u32(output, chunk.spec.column_id.0);
    output.push(scalar::type_tag(physical));
    output.push(
        if chunk.spec.nullable {
            1
        } else {
            0
        },
    );
    bytes::push_u16(output, 0);
    assert(output@ =~= start + manifest::column_le(chunk.spec));
    bytes::push_u64(output, chunk.statistics.null_count);
    scalar::encode_optional_scalar(output, &chunk.statistics.minimum, physical)?;
    scalar::encode_optional_scalar(output, &chunk.statistics.maximum, physical)?;
    bytes::push_u64(output, chunk.statistics.encoded_bytes);
    encode_block_ref(output, chunk.block);
    assert(output@ =~= start + entry_le(chunk@));
    Ok(())
}

fn encode_entries(output: &mut Vec<u8>, chunks: &[LazyColumnChunk]) -> (written: Result<
    (),
    ColumnarError,
>)
    ensures
        match entries_error(chunks_view(chunks@), chunks@.len() as int) {
            Some(error) => written == Err::<(), ColumnarError>(error),
            None => written is Ok && final(output)@ == old(output)@ + entries_le(
                chunks_view(chunks@),
                chunks@.len() as int,
            ),
        },
{
    let ghost known = chunks_view(chunks@);
    let mut i: usize = 0;
    assert(output@ =~= old(output)@ + entries_le(known, 0));
    while i < chunks.len()
        invariant
            i <= chunks@.len(),
            known == chunks_view(chunks@),
            entries_error(known, i as int) is None,
            output@ == old(output)@ + entries_le(known, i as int),
        decreases chunks@.len() - i,
    {
        let ghost before = entries_le(known, i as int);
        proof {
            if entries_error(known, i + 1) is Some {
                lemma_entries_error_prefix(known, i + 1, known.len() as int);
            }
        }
        assert(known[i as int] == chunks@[i as int]@);
        encode_entry(output, &chunks[i])?;
        i = i + 1;
        assert(output@ =~= old(output)@ + (before + entry_le(known[i - 1])));
    }
    Ok(())
}

/// Writes an indexed group.
pub fn encode_lazy_group_directory(output: &mut Vec<u8>, row_group: &LazyRowGroup) -> (written:
    Result<(), ColumnarError>)
    ensures
        match directory_error(row_group@) {
            Some(error) => written == Err::<(), ColumnarError>(error),
            None => written is Ok && final(output)@ == old(output)@ + directory_le(row_group@),
        },
{
    let ghost start = output@;
    bytes::push_u32(output, row_group.rows);
    output.push(
        if row_group.source_versions.is_some() {
            1
        } else {
            0
        },
    );
    bytes::push_zeros(output, 3);
    if let Some(block) = row_group.source_versions {
        encode_block_ref(output, block);
    }
    if row_group.columns.len() > u32::MAX as usize {
        return Err(ColumnarError::InvalidInput("column count overflow"));
    }
    bytes::push_u32(output, row_group.columns.len() as u32);
    assert(output@ =~= start + entry_head_le(row_group@));
    encode_entries(output, row_group.columns.as_slice())?;
    assert(output@ =~= start + directory_le(row_group@));
    Ok(())
}

/// Writes indexed groups.
pub fn encode_directories(output: &mut Vec<u8>, groups: &[LazyRowGroup]) -> (written: Result<
    (),
    ColumnarError,
>)
    ensures
        match directories_error(lazy_groups_view(groups@), groups@.len() as int) {
            Some(error) => written == Err::<(), ColumnarError>(error),
            None => written is Ok && final(output)@ == old(output)@ + directories_le(
                lazy_groups_view(groups@),
                groups@.len() as int,
            ),
        },
{
    let ghost known = lazy_groups_view(groups@);
    let mut i: usize = 0;
    assert(output@ =~= old(output)@ + directories_le(known, 0));
    while i < groups.len()
        invariant
            i <= groups@.len(),
            known == lazy_groups_view(groups@),
            directories_error(known, i as int) is None,
            output@ == old(output)@ + directories_le(known, i as int),
        decreases groups@.len() - i,
    {
        let ghost before = directories_le(known, i as int);
        proof {
            if directories_error(known, i + 1) is Some {
                lemma_directories_error_prefix(known, i + 1, known.len() as int);
            }
        }
        assert(known[i as int] == groups@[i as int]@);
        encode_lazy_group_directory(output, &groups[i])?;
        i = i + 1;
        assert(output@ =~= old(output)@ + (before + directory_le(known[i - 1])));
    }
    Ok(())
}

// ---------------------------------------------------------------------------
// Reading directories
// ---------------------------------------------------------------------------
/// The column that an entry names, which must be the expected one.
pub open spec fn entry_column_read(s: Seq<u8>, at: int, expected: ColumnarColumnSpec) -> Parsed<()> {
    match reader::u32_read(s, at) {
        Err(error) => Err(error),
        Ok((id, at)) => match reader::u8_read(s, at) {
            Err(error) => Err(error),
            Ok((tag, at)) => match scalar::tagged(tag) {
                Err(error) => Err(error),
                Ok(physical_type) => match reader::u8_read(s, at) {
                    Err(error) => Err(error),
                    Ok((flag, at)) => if flag > 1 {
                        Err(ColumnarError::Corrupt("invalid indexed nullable flag"))
                    } else {
                        match reader::u16_read(s, at) {
                            Err(error) => Err(error),
                            Ok((gap, at)) => if gap != 0 || expected != (ColumnarColumnSpec {
                                column_id: ColumnId(id),
                                physical_type,
                                nullable: flag == 1,
                            }) {
                                Err(ColumnarError::IdentityMismatch("indexed column specification"))
                            } else {
                                Ok(((), at))
                            },
                        }
                    },
                },
            },
        },
    }
}

/// The statistics of an entry, without the size.
pub open spec fn zone_read(s: Seq<u8>, at: int, physical: PhysicalType, rows: u32) -> Parsed<
    (u64, Option<ScalarView>, Option<ScalarView>),
> {
    match reader::u64_read(s, at) {
        Err(error) => Err(error),
        Ok((null_count, at)) => match scalar::optional_read(s, at, physical) {
            Err(error) => Err(error),
            Ok((minimum, at)) => match scalar::optional_read(s, at, physical) {
                Err(error) => Err(error),
                Ok((maximum, at)) => if null_count > rows || (minimum is Some) != (
                maximum is Some) {
                    Err(ColumnarError::Corrupt("invalid indexed zone map"))
                } else {
                    Ok(((null_count, minimum, maximum), at))
                },
            },
        },
    }
}

/// The entry of an expected column at `at`.
pub open spec fn entry_read(s: Seq<u8>, at: int, expected: ColumnarColumnSpec, rows: u32) -> Parsed<
    LazyChunkView,
> {
    match entry_column_read(s, at, expected) {
        Err(error) => Err(error),
        Ok((_, at)) => match zone_read(s, at, expected.physical_type, rows) {
            Err(error) => Err(error),
            Ok(((null_count, minimum, maximum), at)) => match reader::u64_read(s, at) {
                Err(error) => Err(error),
                Ok((encoded_bytes, at)) => match block_read(s, at) {
                    Err(error) => Err(error),
                    Ok((block, at)) => Ok(
                        (
                            LazyChunkView {
                                spec: expected,
                                statistics: StatisticsView {
                                    null_count,
                                    minimum,
                                    maximum,
                                    encoded_bytes,
                                },
                                block,
                            },
                            at,
                        ),
                    ),
                },
            },
        },
    }
}

/// The entries of the first `n` expected columns at `at`.
pub open spec fn entries_read(
    s: Seq<u8>,
    at: int,
    columns: Seq<ColumnarColumnSpec>,
    rows: u32,
    n: int,
) -> Parsed<Seq<LazyChunkView>>
    decreases n,
{
    if n <= 0 {
        Ok((Seq::empty(), at))
    } else {
        match entries_read(s, at, columns, rows, n - 1) {
            Err(error) => Err(error),
            Ok((before, at)) => match entry_read(s, at, columns[n - 1], rows) {
                Err(error) => Err(error),
                Ok((chunk, at)) => Ok((before.push(chunk), at)),
            },
        }
    }
}

/// The block of row versions of an indexed group, which must be there or not.
pub open spec fn versions_block_read(s: Seq<u8>, at: int, required: bool) -> Parsed<
    Option<BlockRef>,
> {
    match reader::u8_read(s, at) {
        Err(error) => Err(error),
        Ok((flag, at)) => if flag > 1 {
            Err(ColumnarError::Corrupt("invalid version-block flag"))
        } else {
            match reader::zero_read(s, at, 3) {
                Err(error) => Err(error),
                Ok((zero, at)) => if !zero || (flag == 1) != required {
                    Err(ColumnarError::Corrupt("invalid indexed row-group mode"))
                } else if flag == 1 {
                    match block_read(s, at) {
                        Err(error) => Err(error),
                        Ok((block, at)) => Ok((Some(block), at)),
                    }
                } else {
                    Ok((None, at))
                },
            }
        },
    }
}

/// The indexed group of expected columns at `at`.
pub open spec fn directory_read(
    s: Seq<u8>,
    at: int,
    columns: Seq<ColumnarColumnSpec>,
    required: bool,
) -> Parsed<LazyGroupView> {
    match reader::u32_read(s, at) {
        Err(error) => Err(error),
        Ok((rows, at)) => if rows == 0 {
            Err(ColumnarError::Corrupt("empty indexed row group"))
        } else {
            match versions_block_read(s, at, required) {
                Err(error) => Err(error),
                Ok((source_versions, at)) => match reader::u32_read(s, at) {
                    Err(error) => Err(error),
                    Ok((count, at)) => if count != columns.len() {
                        Err(ColumnarError::Corrupt("indexed column count mismatch"))
                    } else {
                        match entries_read(s, at, columns, rows, columns.len() as int) {
                            Err(error) => Err(error),
                            Ok((chunks, at)) => Ok(
                                (LazyGroupView { rows, source_versions, columns: chunks }, at),
                            ),
                        }
                    },
                },
            }
        },
    }
}

/// `n` indexed groups at `at`, and the number of their rows.
pub open spec fn directories_read(
    s: Seq<u8>,
    at: int,
    columns: Seq<ColumnarColumnSpec>,
    required: bool,
    overflow: &'static str,
    n: int,
) -> Parsed<(Seq<LazyGroupView>, int)>
    decreases n,
{
    if n <= 0 {
        Ok(((Seq::empty(), 0), at))
    } else {
        match directories_read(s, at, columns, required, overflow, n - 1) {
            Err(error) => Err(error),
            Ok(((groups, rows), at)) => match directory_read(s, at, columns, required) {
                Err(error) => Err(error),
                Ok((known, at)) => if rows + known.rows > u64::MAX {
                    Err(ColumnarError::Corrupt(overflow))
                } else {
                    Ok(((groups.push(known), rows + known.rows), at))
                },
            },
        }
    }
}

fn decode_entry(reader: &mut Reader<'_>, expected: &ColumnarColumnSpec, rows: u32) -> (read: Result<
    LazyColumnChunk,
    ColumnarError,
>)
    requires
        old(reader).wf(),
    ensures
        final(reader).wf(),
        final(reader).bytes == old(reader).bytes,
        match entry_read(old(reader).bytes@, old(reader).offset as int, *expected, rows) {
            Ok((chunk, next)) => {
                &&& read is Ok
                &&& read->Ok_0@ == chunk
                &&& final(reader).offset == next
            },
            Err(error) => read == Err::<LazyColumnChunk, ColumnarError>(error),
        },
{
    let id: u32 = reader.u32()?;
    let tag: u8 = reader.u8()?;
    let physical_type: PhysicalType = scalar::decode_type_tag(tag)?;
    let flag: u8 = reader.u8()?;
    if flag > 1 {
        return Err(ColumnarError::Corrupt("invalid indexed nullable flag"));
    }
    let spec: ColumnarColumnSpec = ColumnarColumnSpec {
        column_id: ColumnId(id),
        physical_type,
        nullable: flag == 1,
    };
    let gap: u16 = reader.u16()?;
    if gap != 0 || spec != *expected {
        return Err(ColumnarError::IdentityMismatch("indexed column specification"));
    }
    let null_count: u64 = reader.u64()?;
    let minimum = scalar::decode_optional_scalar(reader, physical_type)?;
    let maximum = scalar::decode_optional_scalar(reader, physical_type)?;
    if null_count > rows as u64 || minimum.is_some() != maximum.is_some() {
        return Err(ColumnarError::Corrupt("invalid indexed zone map"));
    }
    let encoded_bytes: u64 = reader.u64()?;
    let block: BlockRef = decode_block_ref(reader)?;
    Ok(
        LazyColumnChunk {
            spec,
            statistics: ColumnarColumnStatistics { null_count, minimum, maximum, encoded_bytes },
            block,
        },
    )
}

proof fn lemma_entries_read_prefix(
    s: Seq<u8>,
    at: int,
    columns: Seq<ColumnarColumnSpec>,
    rows: u32,
    n: int,
    m: int,
)
    requires
        n <= m,
        entries_read(s, at, columns, rows, n) is Err,
    ensures
        entries_read(s, at, columns, rows, m) == entries_read(s, at, columns, rows, n),
    decreases m - n,
{
    if n < m {
        lemma_entries_read_prefix(s, at, columns, rows, n, m - 1);
    }
}

fn decode_entries(reader: &mut Reader<'_>, columns: &[ColumnarColumnSpec], rows: u32) -> (read:
    Result<Vec<LazyColumnChunk>, ColumnarError>)
    requires
        old(reader).wf(),
    ensures
        final(reader).wf(),
        final(reader).bytes == old(reader).bytes,
        match entries_read(
            old(reader).bytes@,
            old(reader).offset as int,
            columns@,
            rows,
            columns@.len() as int,
        ) {
            Ok((chunks, next)) => {
                &&& read is Ok
                &&& chunks_view(read->Ok_0@) == chunks
                &&& final(reader).offset == next
            },
            Err(error) => read == Err::<Vec<LazyColumnChunk>, ColumnarError>(error),
        },
{
    let ghost s = reader.bytes@;
    let ghost at = reader.offset as int;
    let mut chunks: Vec<LazyColumnChunk> = Vec::new();
    assert(chunks_view(chunks@) =~= Seq::empty());
    let mut i: usize = 0;
    while i < columns.len()
        invariant
            i <= columns@.len(),
            reader.wf(),
            reader.bytes == old(reader).bytes,
            s == old(reader).bytes@,
            at == old(reader).offset,
            entries_read(s, at, columns@, rows, i as int) == Ok::<
                (Seq<LazyChunkView>, int),
                ColumnarError,
            >((chunks_view(chunks@), reader.offset as int)),
        decreases columns@.len() - i,
    {
        proof {
            if entries_read(s, at, columns@, rows, i + 1) is Err {
                lemma_entries_read_prefix(s, at, columns@, rows, i + 1, columns@.len() as int);
            }
        }
        let chunk: LazyColumnChunk = decode_entry(reader, &columns[i], rows)?;
        let ghost before = chunks_view(chunks@);
        let ghost last = chunk@;
        chunks.push(chunk);
        i = i + 1;
        assert(chunks_view(chunks@) =~= before.push(last));
    }
    Ok(chunks)
}

/// Reads an indexed group of expected columns.
pub fn decode_lazy_group_directory(
    reader: &mut Reader<'_>,
    columns: &[ColumnarColumnSpec],
    required: bool,
) -> (read: Result<LazyRowGroup, ColumnarError>)
    requires
        old(reader).wf(),
    ensures
        final(reader).wf(),
        final(reader).bytes == old(reader).bytes,
        match directory_read(old(reader).bytes@, old(reader).offset as int, columns@, required) {
            Ok((known, next)) => {
                &&& read is Ok
                &&& read->Ok_0@ == known
                &&& final(reader).offset == next
            },
            Err(error) => read == Err::<LazyRowGroup, ColumnarError>(error),
        },
{
    let rows: u32 = reader.u32()?;
    if rows == 0 {
        return Err(ColumnarError::Corrupt("empty indexed row group"));
    }
    let flag: u8 = reader.u8()?;
    if flag > 1 {
        return Err(ColumnarError::Corrupt("invalid version-block flag"));
    }
    let zero: bool = reader.zeros(3)?;
    if !zero || (flag == 1) != required {
        return Err(ColumnarError::Corrupt("invalid indexed row-group mode"));
    }
    let source_versions: Option<BlockRef> = if flag == 1 {
        Some(decode_block_ref(reader)?)
    } else {
        None
    };
    let count: u32 = reader.u32()?;
    if count as usize != columns.len() {
        return Err(ColumnarError::Corrupt("indexed column count mismatch"));
    }
    let chunks: Vec<LazyColumnChunk> = decode_entries(reader, columns, rows)?;
    Ok(LazyRowGroup { rows, source_versions, columns: chunks })
}

proof fn lemma_directories_read_prefix(
    s: Seq<u8>,
    at: int,
    columns: Seq<ColumnarColumnSpec>,
    required: bool,
    overflow: &'static str,
    n: int,
    m: int,
)
    requires
        n <= m,
        directories_read(s, at, columns, required, overflow, n) is Err,
    ensures
        directories_read(s, at, columns, required, overflow, m) == directories_read(
            s,
            at,
            columns,
            required,
            overflow,
            n,
        ),
    decreases m - n,
{
    if n < m {
        lemma_directories_read_prefix(s, at, columns, required, overflow, n, m - 1);
    }
}

/// Reads indexed groups of expected columns, and counts their rows.
pub fn decode_directories(
    reader: &mut Reader<'_>,
    columns: &[ColumnarColumnSpec],
    required: bool,
    overflow: &'static str,
    count: u32,
) -> (read: Result<(Vec<LazyRowGroup>, u64), ColumnarError>)
    requires
        old(reader).wf(),
    ensures
        final(reader).wf(),
        final(reader).bytes == old(reader).bytes,
        match directories_read(
            old(reader).bytes@,
            old(reader).offset as int,
            columns@,
            required,
            overflow,
            count as int,
        ) {
            Ok(((groups, rows), next)) => {
                &&& read is Ok
                &&& lazy_groups_view(read->Ok_0.0@) == groups
                &&& read->Ok_0.1 == rows
                &&& final(reader).offset == next
            },
            Err(error) => read == Err::<(Vec<LazyRowGroup>, u64), ColumnarError>(error),
        },
{
    let ghost s = reader.bytes@;
    let ghost at = reader.offset as int;
    let mut groups: Vec<LazyRowGroup> = Vec::new();
    let mut rows: u64 = 0;
    assert(lazy_groups_view(groups@) =~= Seq::empty());
    let mut i: u32 = 0;
    while i < count
        invariant
            i <= count,
            reader.wf(),
            reader.bytes == old(reader).bytes,
            s == old(reader).bytes@,
            at == old(reader).offset,
            directories_read(s, at, columns@, required, overflow, i as int) == Ok::<
                ((Seq<LazyGroupView>, int), int),
                ColumnarError,
            >(((lazy_groups_view(groups@), rows as int), reader.offset as int)),
        decreases count - i,
    {
        proof {
            if directories_read(s, at, columns@, required, overflow, i + 1) is Err {
                lemma_directories_read_prefix(
                    s,
                    at,
                    columns@,
                    required,
                    overflow,
                    i + 1,
                    count as int,
                );
            }
        }
        let read: LazyRowGroup = decode_lazy_group_directory(reader, columns, required)?;
        if read.rows as u64 > u64::MAX - rows {
            return Err(ColumnarError::Corrupt(overflow));
        }
        rows = rows + read.rows as u64;
        let ghost before = lazy_groups_view(groups@);
        let ghost last = read@;
        groups.push(read);
        i = i + 1;
        assert(lazy_groups_view(groups@) =~= before.push(last));
    }
    Ok((groups, rows))
}

// ---------------------------------------------------------------------------
// Round trips
// ---------------------------------------------------------------------------
/// Whether an entry can be written and read back in a group of so many rows.
pub open spec fn entry_kept(chunk: LazyChunkView, rows: u32) -> bool {
    &&& entry_error(chunk) is None
    &&& chunk.statistics.null_count <= rows
    &&& chunk.statistics.minimum is Some <==> chunk.statistics.maximum is Some
    &&& scalar::optional_valid(chunk.statistics.minimum)
    &&& scalar::optional_valid(chunk.statistics.maximum)
    &&& block_kept(chunk.block)
}

/// Whether an indexed group can be written and read back.
pub open spec fn directory_kept(
    known: LazyGroupView,
    columns: Seq<ColumnarColumnSpec>,
    required: bool,
) -> bool {
    &&& known.rows > 0
    &&& columns.len() <= u32::MAX
    &&& known.columns.len() == columns.len()
    &&& known.source_versions is Some <==> required
    &&& known.source_versions matches Some(block) ==> block_kept(block)
    &&& forall|i: int|
        0 <= i < columns.len() ==> {
            &&& (#[trigger] known.columns[i]).spec == columns[i]
            &&& entry_kept(known.columns[i], known.rows)
        }
}

proof fn lemma_entry_round_trip(s: Seq<u8>, at: int, chunk: LazyChunkView, rows: u32)
    requires
        reader::holds(s, at, entry_le(chunk)),
        s.len() <= usize::MAX,
        entry_kept(chunk, rows),
    ensures
        entry_read(s, at, chunk.spec, rows) == Ok::<(LazyChunkView, int), ColumnarError>(
            (chunk, at + entry_le(chunk).len()),
        ),
{
    let known = chunk.statistics;
    let physical = chunk.spec.physical_type;
    let tag = scalar::tag_of(physical);
    let flag = manifest::flag_byte(chunk.spec.nullable);
    let p1 = manifest::column_le(chunk.spec);
    let p2 = p1 + bytes::u64_le(known.null_count);
    let p3 = p2 + scalar::optional_le(known.minimum);
    let p4 = p3 + scalar::optional_le(known.maximum);
    let p5 = p4 + bytes::u64_le(known.encoded_bytes);
    reader::lemma_holds(s, at, p5, block_le(chunk.block));
    reader::lemma_holds(s, at, p4, bytes::u64_le(known.encoded_bytes));
    reader::lemma_holds(s, at, p3, scalar::optional_le(known.maximum));
    reader::lemma_holds(s, at, p2, scalar::optional_le(known.minimum));
    reader::lemma_holds(s, at, p1, bytes::u64_le(known.null_count));
    let q1 = bytes::u32_le(chunk.spec.column_id.0);
    assert(seq![tag, flag] =~= seq![tag] + seq![flag]);
    reader::lemma_holds(s, at, q1 + seq![tag, flag], bytes::u16_le(0));
    reader::lemma_holds(s, at, q1, seq![tag] + seq![flag]);
    reader::lemma_holds(s, at + 4, seq![tag], seq![flag]);
    reader::lemma_u32_read(s, at, chunk.spec.column_id.0);
    reader::lemma_u8_read(s, at + 4, tag);
    reader::lemma_u8_read(s, at + 5, flag);
    reader::lemma_u16_read(s, at + 6, 0);
    reader::lemma_u64_read(s, at + 8, known.null_count);
    scalar::law_optional_round_trip(s, at + p2.len(), known.minimum, physical);
    scalar::law_optional_round_trip(s, at + p3.len(), known.maximum, physical);
    reader::lemma_u64_read(s, at + p4.len(), known.encoded_bytes);
    lemma_block_round_trip(s, at + p5.len(), chunk.block);
}

proof fn lemma_entries_round_trip(
    s: Seq<u8>,
    at: int,
    known: LazyGroupView,
    columns: Seq<ColumnarColumnSpec>,
    required: bool,
    n: int,
)
    requires
        0 <= n <= columns.len(),
        reader::holds(s, at, entries_le(known.columns, n)),
        s.len() <= usize::MAX,
        directory_kept(known, columns, required),
    ensures
        entries_read(s, at, columns, known.rows, n) == Ok::<
            (Seq<LazyChunkView>, int),
            ColumnarError,
        >((known.columns.take(n), at + entries_le(known.columns, n).len())),
    decreases n,
{
    if n > 0 {
        let before = entries_le(known.columns, n - 1);
        reader::lemma_holds(s, at, before, entry_le(known.columns[n - 1]));
        lemma_entries_round_trip(s, at, known, columns, required, n - 1);
        assert(known.columns[n - 1].spec == columns[n - 1]);
        lemma_entry_round_trip(s, at + before.len(), known.columns[n - 1], known.rows);
        assert(known.columns.take(n - 1).push(known.columns[n - 1]) =~= known.columns.take(n));
    } else {
        assert(known.columns.take(0) =~= Seq::empty());
    }
}

/// A written indexed group is read back.
pub proof fn law_directory_round_trip(
    s: Seq<u8>,
    at: int,
    known: LazyGroupView,
    columns: Seq<ColumnarColumnSpec>,
    required: bool,
)
    requires
        reader::holds(s, at, directory_le(known)),
        s.len() <= usize::MAX,
        directory_kept(known, columns, required),
    ensures
        directory_read(s, at, columns, required) == Ok::<(LazyGroupView, int), ColumnarError>(
            (known, at + directory_le(known).len()),
        ),
{
    let n = columns.len() as int;
    let flag = manifest::flag_byte(known.source_versions is Some);
    let p1 = bytes::u32_le(known.rows);
    let p2 = p1 + seq![flag];
    let p3 = p2 + bytes::zeros(3);
    let p4 = p3 + versions_block_le(known);
    let p5 = p4 + bytes::u32_le(n as u32);
    reader::lemma_holds(s, at, p5, entries_le(known.columns, n));
    reader::lemma_holds(s, at, p4, bytes::u32_le(n as u32));
    reader::lemma_holds(s, at, p3, versions_block_le(known));
    reader::lemma_holds(s, at, p2, bytes::zeros(3));
    reader::lemma_holds(s, at, p1, seq![flag]);
    reader::lemma_u32_read(s, at, known.rows);
    reader::lemma_u8_read(s, at + 4, flag);
    if let Some(block) = known.source_versions {
        lemma_block_round_trip(s, at + 8, block);
    }
    reader::lemma_u32_read(s, at + p4.len(), n as u32);
    lemma_entries_round_trip(s, at + p5.len(), known, columns, required, n);
    assert(known.columns.take(n) =~= known.columns);
}

/// The rows of the first `n` indexed groups.
pub open spec fn lazy_rows(groups: Seq<LazyGroupView>, n: int) -> int
    decreases n,
{
    if n <= 0 {
        0
    } else {
        lazy_rows(groups, n - 1) + groups[n - 1].rows
    }
}

/// Rows only become more with more groups.
pub proof fn lemma_lazy_rows_grow(groups: Seq<LazyGroupView>, n: int, m: int)
    requires
        0 <= n <= m <= groups.len(),
    ensures
        0 <= lazy_rows(groups, n) <= lazy_rows(groups, m),
    decreases m,
{
    if n < m {
        lemma_lazy_rows_grow(groups, n, m - 1);
    } else if n > 0 {
        lemma_lazy_rows_grow(groups, n - 1, n - 1);
    }
}

/// Written indexed groups are read back.
pub proof fn law_directories_round_trip(
    s: Seq<u8>,
    at: int,
    groups: Seq<LazyGroupView>,
    columns: Seq<ColumnarColumnSpec>,
    required: bool,
    overflow: &'static str,
    n: int,
)
    requires
        0 <= n <= groups.len(),
        reader::holds(s, at, directories_le(groups, n)),
        s.len() <= usize::MAX,
        forall|i: int|
            0 <= i < groups.len() ==> directory_kept(#[trigger] groups[i], columns, required),
        lazy_rows(groups, groups.len() as int) <= u64::MAX,
    ensures
        directories_read(s, at, columns, required, overflow, n) == Ok::<
            ((Seq<LazyGroupView>, int), int),
            ColumnarError,
        >(((groups.take(n), lazy_rows(groups, n)), at + directories_le(groups, n).len())),
    decreases n,
{
    if n > 0 {
        let before = directories_le(groups, n - 1);
        reader::lemma_holds(s, at, before, directory_le(groups[n - 1]));
        law_directories_round_trip(s, at, groups, columns, required, overflow, n - 1);
        lemma_lazy_rows_grow(groups, n, groups.len() as int);
        law_directory_round_trip(s, at + before.len(), groups[n - 1], columns, required);
        assert(groups.take(n - 1).push(groups[n - 1]) =~= groups.take(n));
    } else {
        assert(groups.take(0) =~= Seq::empty());
    }
}

// ---------------------------------------------------------------------------
// Pruning
// ---------------------------------------------------------------------------
/// The statistics in a directory.
pub open spec fn directory_statistics(known: LazyGroupView) -> Seq<(ColumnId, StatisticsView)> {
    known.columns.map_values(
        |chunk: LazyChunkView| (chunk.spec.column_id, chunk.statistics),
    )
}

/// Whether an indexed group's statistics rule every row out.
pub fn lazy_group_cannot_match(row_group: &LazyRowGroup, constraint: &ColumnarConstraint)
    -> (excluded: bool)
    ensures
        excluded == group::group_excluded(directory_statistics(row_group@), constraint@),
{
    let ghost known = directory_statistics(row_group@);
    let ghost ids = group::statistics_ids(known);
    let mut i: usize = 0;
    while i < row_group.columns.len()
        invariant
            i <= row_group.columns@.len(),
            known == directory_statistics(row_group@),
            ids == group::statistics_ids(known),
            group::place_of(ids, constraint.column_id) == group::place_from(
                ids,
                constraint.column_id,
                i as int,
            ),
        decreases row_group.columns@.len() - i,
    {
        assert(known[i as int] == (
            row_group.columns@[i as int].spec.column_id,
            row_group.columns@[i as int].statistics@,
        ));
        if row_group.columns[i].spec.column_id == constraint.column_id {
            return statistics::statistics_exclude(&row_group.columns[i].statistics, constraint);
        }
        i = i + 1;
    }
    false
}

/// Whether an indexed group's statistics rule every row out for one of the
/// constraints.
pub fn lazy_group_pruned(row_group: &LazyRowGroup, constraints: &[ColumnarConstraint])
    -> (excluded: bool)
    ensures
        excluded == group::pruned(directory_statistics(row_group@), constraints@),
{
    let mut i: usize = 0;
    while i < constraints.len()
        invariant
            i <= constraints@.len(),
            forall|k: int|
                0 <= k < i ==> !group::group_excluded(
                    directory_statistics(row_group@),
                    #[trigger] constraints@[k]@,
                ),
        decreases constraints@.len() - i,
    {
        if lazy_group_cannot_match(row_group, &constraints[i]) {
            return true;
        }
        i = i + 1;
    }
    false
}

} // verus!
