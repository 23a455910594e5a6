//! The manifest: the file that says which segments a projection has.
use super::error::ColumnarError;
use super::metadata::{
    self, ColumnarDeltaSegmentMetadata, ColumnarIncrementalMetadata, ColumnarProjectionMetadata,
    DeltaSegmentView, IncrementalView, MetadataView, DELTA_FORMAT_VERSION,
    INCREMENTAL_FORMAT_VERSION, LAZY_DELTA_FORMAT_VERSION, LAZY_FORMAT_VERSION, MANIFEST_FILE,
    MAX_ROW_GROUPS, SNAPSHOT_FORMAT_VERSION,
};
use super::reader::{self, Parsed, Reader};
use super::scalar;
use super::vector::ColumnarColumnSpec;
use super::version::{self, StorageSnapshotToken};
use crate::bytes;
use crate::change_stream::log::CHANGE_LOG_MAX_MUTATIONS;
use crate::ids::{
    ChangeStreamGeneration, ColumnId, ColumnarGeneration, ColumnarProjectionId, ColumnarSegmentId,
    SchemaFingerprint, StorageDataVersion, StorageId, TableId,
};
use crate::value::PhysicalType;
use vstd::prelude::*;
use vstd::utf8;

verus! {

broadcast use crate::bytes::group_le_len;

/// The most columns of a projection.
pub const MAX_COLUMNS: u32 = 0x10_0000;

/// The first bytes of a manifest: `NBCM`.
pub open spec fn manifest_magic() -> Seq<u8> {
    seq![0x4e, 0x42, 0x43, 0x4d]
}

/// A manifest's fixed fields.
#[derive(Debug, Clone, Copy)]
pub struct ManifestHead {
    pub version: u16,
    pub id: ColumnarProjectionId,
    pub generation: ColumnarGeneration,
    pub table_id: TableId,
    pub source_token: StorageSnapshotToken,
    pub schema_fingerprint: SchemaFingerprint,
    pub row_count: u64,
    pub row_group_count: u64,
    pub segment_count: u64,
    pub segment_bytes: u64,
}

/// A manifest.
#[derive(Debug)]
pub struct Manifest {
    pub metadata: ColumnarProjectionMetadata,
    pub segment_id: ColumnarSegmentId,
    pub segment_file: String,
    pub segment_checksum: u32,
    pub version: u16,
    pub base_format_version: u16,
    pub delta_format_version: Option<u16>,
}

/// What a manifest says.
pub struct ManifestView {
    pub metadata: MetadataView,
    pub segment_id: ColumnarSegmentId,
    pub segment_file: Seq<u8>,
    pub segment_checksum: u32,
    pub version: u16,
    pub base_format_version: u16,
    pub delta_format_version: Option<u16>,
}

impl View for Manifest {
    type V = ManifestView;

    open spec fn view(&self) -> ManifestView {
        ManifestView {
            metadata: self.metadata@,
            segment_id: self.segment_id,
            segment_file: utf8::encode_utf8(self.segment_file@),
            segment_checksum: self.segment_checksum,
            version: self.version,
            base_format_version: self.base_format_version,
            delta_format_version: self.delta_format_version,
        }
    }
}

// ---------------------------------------------------------------------------
// Writing
// ---------------------------------------------------------------------------
/// A flag's byte.
pub open spec fn flag_byte(flag: bool) -> u8 {
    if flag {
        1
    } else {
        0
    }
}

/// The identity fields of a manifest.
pub open spec fn identity_le(version: u16, metadata: MetadataView) -> Seq<u8> {
    manifest_magic() + bytes::u16_le(version) + bytes::u16_le(0) + bytes::u64_le(metadata.id.0)
        + bytes::u64_le(metadata.generation.0) + bytes::u64_le(metadata.table_id.0)
        + bytes::u64_le(metadata.source_storage_id.0) + metadata.schema_fingerprint.bytes@
}

/// The snapshot and the counts of a manifest.
pub open spec fn counts_le(metadata: MetadataView) -> Seq<u8> {
    seq![version::kind_tag(metadata.source_token.kind)] + bytes::zeros(7) + bytes::u64_le(
        metadata.source_token.epoch,
    ) + bytes::u64_le(metadata.source_token.sequence) + bytes::u64_le(metadata.row_count)
        + bytes::u64_le(metadata.row_group_count) + bytes::u64_le(metadata.segment_count)
        + bytes::u64_le(metadata.segment_bytes)
}

/// One column of a manifest.
pub open spec fn column_le(column: ColumnarColumnSpec) -> Seq<u8> {
    bytes::u32_le(column.column_id.0) + seq![
        scalar::tag_of(column.physical_type),
        flag_byte(column.nullable),
    ] + bytes::u16_le(0)
}

/// The first `n` columns of a manifest.
pub open spec fn columns_le(columns: Seq<ColumnarColumnSpec>, n: int) -> Seq<u8>
    decreases n,
{
    if n <= 0 {
        Seq::empty()
    } else {
        columns_le(columns, n - 1) + column_le(columns[n - 1])
    }
}

/// The base segment of a manifest.
pub open spec fn segment_le(
    segment_id: ColumnarSegmentId,
    segment_file: Seq<u8>,
    segment_checksum: u32,
) -> Seq<u8> {
    bytes::u64_le(segment_id.0) + reader::string_le(segment_file) + bytes::u32_le(segment_checksum)
}

/// The formats that an indexed manifest names.
pub open spec fn formats_le(version: u16, incremental: bool) -> Seq<u8> {
    if version == LAZY_FORMAT_VERSION {
        bytes::u16_le(LAZY_FORMAT_VERSION) + bytes::u16_le(
            if incremental {
                LAZY_DELTA_FORMAT_VERSION
            } else {
                0
            },
        ) + seq![1u8] + bytes::zeros(3)
    } else {
        Seq::empty()
    }
}

/// One delta segment of a manifest.
pub open spec fn delta_le(delta: DeltaSegmentView) -> Seq<u8> {
    reader::string_le(delta.file) + bytes::u64_le(delta.before.0) + bytes::u64_le(delta.after.0)
        + bytes::u64_le(delta.mutation_count) + bytes::u64_le(delta.after_row_count)
        + bytes::u64_le(delta.bytes) + bytes::u32_le(delta.checksum)
}

/// The first `n` delta segments of a manifest.
pub open spec fn deltas_le(deltas: Seq<DeltaSegmentView>, n: int) -> Seq<u8>
    decreases n,
{
    if n <= 0 {
        Seq::empty()
    } else {
        deltas_le(deltas, n - 1) + delta_le(deltas[n - 1])
    }
}

/// The frontiers and totals of a manifest.
pub open spec fn frontiers_le(incremental: IncrementalView) -> Seq<u8> {
    bytes::u64_le(incremental.stream_generation.0) + bytes::u64_le(incremental.base_frontier.0)
        + bytes::u64_le(incremental.applied_frontier.0) + bytes::u64_le(
        incremental.delta_mutation_count,
    ) + bytes::u64_le(incremental.delta_live_row_count) + bytes::u64_le(
        incremental.suppressed_version_count,
    ) + bytes::u64_le(incremental.delta_bytes) + bytes::u32_le(
        incremental.delta_segments.len() as u32,
    )
}

/// What a manifest says of its delta segments.
pub open spec fn incremental_le(incremental: Option<IncrementalView>) -> Seq<u8> {
    match incremental {
        Some(known) => frontiers_le(known) + deltas_le(
            known.delta_segments,
            known.delta_segments.len() as int,
        ),
        None => Seq::empty(),
    }
}

/// The payload of a manifest.
pub open spec fn payload_le(
    metadata: MetadataView,
    segment_id: ColumnarSegmentId,
    segment_file: Seq<u8>,
    segment_checksum: u32,
    version: u16,
) -> Seq<u8> {
    identity_le(version, metadata) + counts_le(metadata) + bytes::u32_le(
        metadata.columns.len() as u32,
    ) + columns_le(metadata.columns, metadata.columns.len() as int) + segment_le(
        segment_id,
        segment_file,
        segment_checksum,
    ) + formats_le(version, metadata.incremental is Some) + incremental_le(metadata.incremental)
}

/// How a manifest is written.
pub open spec fn manifest_le(
    metadata: MetadataView,
    segment_id: ColumnarSegmentId,
    segment_file: Seq<u8>,
    segment_checksum: u32,
    version: u16,
) -> Seq<u8> {
    reader::checked(payload_le(metadata, segment_id, segment_file, segment_checksum, version))
}

/// Whether one of the first `n` delta segments has a name that is too long.
pub open spec fn long_name(deltas: Seq<DeltaSegmentView>, n: int) -> bool {
    exists|i: int| 0 <= i < n && (#[trigger] deltas[i]).file.len() > u32::MAX
}

/// Why a manifest cannot be written, if it cannot.
pub open spec fn manifest_error(metadata: MetadataView, segment_file: Seq<u8>) -> Option<
    ColumnarError,
> {
    if metadata.columns.len() > u32::MAX {
        Some(ColumnarError::InvalidInput("column count overflow"))
    } else if segment_file.len() > u32::MAX {
        Some(ColumnarError::InvalidInput("string too long"))
    } else {
        match metadata.incremental {
            Some(incremental) => if incremental.delta_segments.len() > u32::MAX {
                Some(ColumnarError::InvalidInput("delta segment count overflow"))
            } else if long_name(
                incremental.delta_segments,
                incremental.delta_segments.len() as int,
            ) {
                Some(ColumnarError::InvalidInput("string too long"))
            } else {
                None
            },
            None => None,
        }
    }
}

fn push_columns(output: &mut Vec<u8>, columns: &[ColumnarColumnSpec])
    ensures
        final(output)@ == old(output)@ + columns_le(columns@, columns@.len() as int),
{
    let mut i: usize = 0;
    assert(output@ =~= old(output)@ + columns_le(columns@, 0));
    while i < columns.len()
        invariant
            i <= columns@.len(),
            output@ == old(output)@ + columns_le(columns@, i as int),
        decreases columns@.len() - i,
    {
        let ghost before = columns_le(columns@, i as int);
        let column: ColumnarColumnSpec = columns[i];
        bytes::push_u32(output, column.column_id.0);
        output.push(scalar::type_tag(column.physical_type));
        output.push(
            if column.nullable {
                1
            } else {
                0
            },
        );
        bytes::push_u16(output, 0);
        i = i + 1;
        assert(output@ =~= old(output)@ + (before + column_le(column)));
    }
}

fn push_deltas(output: &mut Vec<u8>, deltas: &[ColumnarDeltaSegmentMetadata]) -> (written: Result<
    (),
    ColumnarError,
>)
    ensures
        match written {
            Ok(_) => {
                &&& !long_name(metadata::deltas_view(deltas@), deltas@.len() as int)
                &&& final(output)@ == old(output)@ + deltas_le(
                    metadata::deltas_view(deltas@),
                    deltas@.len() as int,
                )
            },
            Err(error) => long_name(metadata::deltas_view(deltas@), deltas@.len() as int) && error
                == ColumnarError::InvalidInput("string too long"),
        },
{
    let ghost known = metadata::deltas_view(deltas@);
    let mut i: usize = 0;
    assert(output@ =~= old(output)@ + deltas_le(known, 0));
    while i < deltas.len()
        invariant
            i <= deltas@.len(),
            known == metadata::deltas_view(deltas@),
            !long_name(known, i as int),
            output@ == old(output)@ + deltas_le(known, i as int),
        decreases deltas@.len() - i,
    {
        let ghost before = deltas_le(known, i as int);
        let delta: &ColumnarDeltaSegmentMetadata = &deltas[i];
        assert(known[i as int] == delta@);
        reader::push_string(output, delta.file.as_str())?;
        bytes::push_u64(output, delta.before.0);
        bytes::push_u64(output, delta.after.0);
        bytes::push_u64(output, delta.mutation_count);
        bytes::push_u64(output, delta.after_row_count);
        bytes::push_u64(output, delta.bytes);
        bytes::push_u32(output, delta.checksum);
        i = i + 1;
        assert(output@ =~= old(output)@ + (before + delta_le(known[i - 1])));
    }
    Ok(())
}

fn push_incremental(
    output: &mut Vec<u8>,
    incremental: &ColumnarIncrementalMetadata,
) -> (written: Result<(), ColumnarError>)
    ensures
        if incremental.delta_segments@.len() > u32::MAX {
            written == Err::<(), ColumnarError>(
                ColumnarError::InvalidInput("delta segment count overflow"),
            )
        } else if long_name(
            incremental@.delta_segments,
            incremental@.delta_segments.len() as int,
        ) {
            written == Err::<(), ColumnarError>(ColumnarError::InvalidInput("string too long"))
        } else {
            written is Ok && final(output)@ == old(output)@ + incremental_le(Some(incremental@))
        },
{
    let ghost start = output@;
    bytes::push_u64(output, incremental.stream_generation.0);
    bytes::push_u64(output, incremental.base_frontier.0);
    bytes::push_u64(output, incremental.applied_frontier.0);
    bytes::push_u64(output, incremental.delta_mutation_count);
    bytes::push_u64(output, incremental.delta_live_row_count);
    bytes::push_u64(output, incremental.suppressed_version_count);
    bytes::push_u64(output, incremental.delta_bytes);
    if incremental.delta_segments.len() > u32::MAX as usize {
        return Err(ColumnarError::InvalidInput("delta segment count overflow"));
    }
    bytes::push_u32(output, incremental.delta_segments.len() as u32);
    assert(output@ =~= start + frontiers_le(incremental@));
    push_deltas(output, incremental.delta_segments.as_slice())?;
    assert(output@ =~= start + incremental_le(Some(incremental@)));
    Ok(())
}

/// Writes a manifest of a format.
pub fn encode_manifest_version(
    metadata: &ColumnarProjectionMetadata,
    segment_id: ColumnarSegmentId,
    segment_file: &str,
    segment_checksum: u32,
    version: u16,
) -> (written: Result<Vec<u8>, ColumnarError>)
    ensures
        match manifest_error(metadata@, utf8::encode_utf8(segment_file@)) {
            Some(error) => written == Err::<Vec<u8>, ColumnarError>(error),
            None => written is Ok && written->Ok_0@ == manifest_le(
                metadata@,
                segment_id,
                utf8::encode_utf8(segment_file@),
                segment_checksum,
                version,
            ),
        },
{
    let ghost known = metadata@;
    let ghost name = utf8::encode_utf8(segment_file@);
    let mut output: Vec<u8> = Vec::new();
    let magic: [u8; 4] = [0x4e, 0x42, 0x43, 0x4d];
    assert(magic@ =~= manifest_magic());
    bytes::push_bytes(&mut output, &magic);
    bytes::push_u16(&mut output, version);
    bytes::push_u16(&mut output, 0);
    bytes::push_u64(&mut output, metadata.id.0);
    bytes::push_u64(&mut output, metadata.generation.0);
    bytes::push_u64(&mut output, metadata.table_id.0);
    bytes::push_u64(&mut output, metadata.source_storage_id.0);
    bytes::push_bytes(&mut output, metadata.schema_fingerprint.as_bytes());
    assert(output@ =~= identity_le(version, known));
    output.push(version::snapshot_tag(metadata.source_token.kind));
    bytes::push_zeros(&mut output, 7);
    bytes::push_u64(&mut output, metadata.source_token.epoch);
    bytes::push_u64(&mut output, metadata.source_token.sequence);
    bytes::push_u64(&mut output, metadata.row_count);
    bytes::push_u64(&mut output, metadata.row_group_count);
    bytes::push_u64(&mut output, metadata.segment_count);
    bytes::push_u64(&mut output, metadata.segment_bytes);
    let ghost p2 = identity_le(version, known) + counts_le(known);
    assert(output@ =~= p2);
    if metadata.columns.len() > u32::MAX as usize {
        return Err(ColumnarError::InvalidInput("column count overflow"));
    }
    bytes::push_u32(&mut output, metadata.columns.len() as u32);
    push_columns(&mut output, metadata.columns.as_slice());
    let ghost p4 = p2 + bytes::u32_le(known.columns.len() as u32) + columns_le(
        known.columns,
        known.columns.len() as int,
    );
    assert(output@ =~= p4);
    bytes::push_u64(&mut output, segment_id.0);
    reader::push_string(&mut output, segment_file)?;
    bytes::push_u32(&mut output, segment_checksum);
    let ghost p5 = p4 + segment_le(segment_id, name, segment_checksum);
    assert(output@ =~= p5);
    if version == LAZY_FORMAT_VERSION {
        bytes::push_u16(&mut output, LAZY_FORMAT_VERSION);
        bytes::push_u16(
            &mut output,
            if metadata.incremental.is_some() {
                LAZY_DELTA_FORMAT_VERSION
            } else {
                0
            },
        );
        output.push(1);
        bytes::push_zeros(&mut output, 3);
    }
    let ghost p6 = p5 + formats_le(version, known.incremental is Some);
    assert(output@ =~= p6);
    if let Some(incremental) = &metadata.incremental {
        push_incremental(&mut output, incremental)?;
    }
    assert(output@ =~= p6 + incremental_le(known.incremental));
    reader::append_checksum(&mut output);
    Ok(output)
}

/// Writes a manifest of the indexed format.
pub fn encode_manifest(
    metadata: &ColumnarProjectionMetadata,
    segment_id: ColumnarSegmentId,
    segment_file: &str,
    segment_checksum: u32,
) -> (written: Result<Vec<u8>, ColumnarError>)
    ensures
        match manifest_error(metadata@, utf8::encode_utf8(segment_file@)) {
            Some(error) => written == Err::<Vec<u8>, ColumnarError>(error),
            None => written is Ok && written->Ok_0@ == manifest_le(
                metadata@,
                segment_id,
                utf8::encode_utf8(segment_file@),
                segment_checksum,
                LAZY_FORMAT_VERSION,
            ),
        },
{
    encode_manifest_version(
        metadata,
        segment_id,
        segment_file,
        segment_checksum,
        LAZY_FORMAT_VERSION,
    )
}

// ---------------------------------------------------------------------------
// Reading
// ---------------------------------------------------------------------------
/// Whether a format of manifests is known.
pub open spec fn version_known(version: u16) -> bool {
    version == SNAPSHOT_FORMAT_VERSION || version == INCREMENTAL_FORMAT_VERSION || version
        == LAZY_FORMAT_VERSION
}

/// The format at the start of a manifest.
pub open spec fn version_read(s: Seq<u8>, at: int) -> Parsed<u16> {
    match reader::magic_read(s, at, manifest_magic()) {
        Err(error) => Err(error),
        Ok((_, at)) => match reader::u16_read(s, at) {
            Err(error) => Err(error),
            Ok((version, at)) => if !version_known(version) {
                Err(ColumnarError::UnsupportedVersion(version))
            } else {
                match reader::u16_read(s, at) {
                    Err(error) => Err(error),
                    Ok((gap, at)) => if gap != 0 {
                        Err(ColumnarError::Corrupt("manifest reserved field is nonzero"))
                    } else {
                        Ok((version, at))
                    },
                }
            },
        },
    }
}

/// The projection, table and storage of a manifest.
pub open spec fn owner_read(s: Seq<u8>, at: int) -> Parsed<
    (ColumnarProjectionId, ColumnarGeneration, TableId, StorageId),
> {
    match reader::u64_read(s, at) {
        Err(error) => Err(error),
        Ok((id, at)) => match reader::u64_read(s, at) {
            Err(error) => Err(error),
            Ok((generation, at)) => match reader::u64_read(s, at) {
                Err(error) => Err(error),
                Ok((table, at)) => match reader::u64_read(s, at) {
                    Err(error) => Err(error),
                    Ok((storage, at)) => Ok(
                        (
                            (
                                ColumnarProjectionId(id),
                                ColumnarGeneration(generation),
                                TableId(table),
                                StorageId(storage),
                            ),
                            at,
                        ),
                    ),
                },
            },
        },
    }
}

/// The snapshot of a manifest.
pub open spec fn token_read(s: Seq<u8>, at: int, storage_id: StorageId) -> Parsed<
    StorageSnapshotToken,
> {
    match reader::u8_read(s, at) {
        Err(error) => Err(error),
        Ok((tag, at)) => match version::kind_tagged(tag) {
            Err(error) => Err(error),
            Ok(kind) => match reader::reserved_read(
                s,
                at,
                7,
                "manifest snapshot reserved bytes are nonzero",
            ) {
                Err(error) => Err(error),
                Ok((_, at)) => match reader::u64_read(s, at) {
                    Err(error) => Err(error),
                    Ok((epoch, at)) => match reader::u64_read(s, at) {
                        Err(error) => Err(error),
                        Ok((sequence, at)) => Ok(
                            (StorageSnapshotToken { storage_id, kind, epoch, sequence }, at),
                        ),
                    },
                },
            },
        },
    }
}

/// The counts of a manifest: rows, row groups, segments and segment bytes.
pub open spec fn counts_read(s: Seq<u8>, at: int, version: u16) -> Parsed<(u64, u64, u64, u64)> {
    match reader::u64_read(s, at) {
        Err(error) => Err(error),
        Ok((rows, at)) => match reader::u64_read(s, at) {
            Err(error) => Err(error),
            Ok((groups, at)) => match reader::u64_read(s, at) {
                Err(error) => Err(error),
                Ok((segments, at)) => if version == SNAPSHOT_FORMAT_VERSION && segments != 1 {
                    Err(ColumnarError::Corrupt("phase 1 manifest must contain one segment"))
                } else {
                    match reader::u64_read(s, at) {
                        Err(error) => Err(error),
                        Ok((size, at)) => Ok(((rows, groups, segments, size), at)),
                    }
                },
            },
        },
    }
}

/// The fixed fields of a manifest.
pub open spec fn head_read(s: Seq<u8>, at: int) -> Parsed<ManifestHead> {
    match version_read(s, at) {
        Err(error) => Err(error),
        Ok((version, at)) => match owner_read(s, at) {
            Err(error) => Err(error),
            Ok(((id, generation, table_id, storage_id), at)) => match reader::fingerprint_read(
                s,
                at,
            ) {
                Err(error) => Err(error),
                Ok((schema_fingerprint, at)) => match token_read(s, at, storage_id) {
                    Err(error) => Err(error),
                    Ok((source_token, at)) => match counts_read(s, at, version) {
                        Err(error) => Err(error),
                        Ok(
                            ((row_count, row_group_count, segment_count, segment_bytes), at),
                        ) => Ok(
                            (
                                ManifestHead {
                                    version,
                                    id,
                                    generation,
                                    table_id,
                                    source_token,
                                    schema_fingerprint,
                                    row_count,
                                    row_group_count,
                                    segment_count,
                                    segment_bytes,
                                },
                                at,
                            ),
                        ),
                    },
                },
            },
        },
    }
}

/// Whether a column is among others.
pub open spec fn column_known(columns: Seq<ColumnarColumnSpec>, id: ColumnId) -> bool {
    exists|i: int| 0 <= i < columns.len() && (#[trigger] columns[i]).column_id == id
}

/// One column of a manifest, behind others.
pub open spec fn column_read(s: Seq<u8>, at: int, before: Seq<ColumnarColumnSpec>) -> Parsed<
    ColumnarColumnSpec,
> {
    match reader::u32_read(s, at) {
        Err(error) => Err(error),
        Ok((id, at)) => match reader::u8_read(s, at) {
            Err(error) => Err(error),
            Ok((tag, at)) => match scalar::tagged(tag) {
                Err(error) => Err(error),
                Ok(physical_type) => match reader::u8_read(s, at) {
                    Err(error) => Err(error),
                    Ok((flag, at)) => if flag > 1 {
                        Err(ColumnarError::Corrupt("invalid nullable flag"))
                    } else {
                        match reader::u16_read(s, at) {
                            Err(error) => Err(error),
                            Ok((gap, at)) => if gap != 0 {
                                Err(
                                    ColumnarError::Corrupt(
                                        "manifest column reserved field is nonzero",
                                    ),
                                )
                            } else if column_known(before, ColumnId(id)) {
                                Err(ColumnarError::Corrupt("duplicate manifest column"))
                            } else {
                                Ok(
                                    (
                                        ColumnarColumnSpec {
                                            column_id: ColumnId(id),
                                            physical_type,
                                            nullable: flag == 1,
                                        },
                                        at,
                                    ),
                                )
                            },
                        }
                    },
                },
            },
        },
    }
}

/// So many columns of a manifest.
pub open spec fn columns_read(s: Seq<u8>, at: int, n: int) -> Parsed<Seq<ColumnarColumnSpec>>
    decreases n,
{
    if n <= 0 {
        Ok((Seq::empty(), at))
    } else {
        match columns_read(s, at, n - 1) {
            Err(error) => Err(error),
            Ok((before, at)) => match column_read(s, at, before) {
                Err(error) => Err(error),
                Ok((column, at)) => Ok((before.push(column), at)),
            },
        }
    }
}

/// The columns of a manifest, behind their number.
pub open spec fn column_list_read(s: Seq<u8>, at: int) -> Parsed<Seq<ColumnarColumnSpec>> {
    match reader::u32_read(s, at) {
        Err(error) => Err(error),
        Ok((count, at)) => if count == 0 || count > MAX_COLUMNS {
            Err(ColumnarError::ResourceLimit { resource: "manifest columns", value: count as u64 })
        } else {
            columns_read(s, at, count as int)
        },
    }
}

/// Whether a name is one of a base segment's file.
pub open spec fn segment_name_valid(name: Seq<u8>) -> bool {
    name.len() > 0 && metadata::components(name) == 1 && name != utf8::encode_utf8(MANIFEST_FILE@)
}

/// The base segment of a manifest: its identity, file and check value.
pub open spec fn segment_read(s: Seq<u8>, at: int) -> Parsed<(ColumnarSegmentId, Seq<u8>, u32)> {
    match reader::u64_read(s, at) {
        Err(error) => Err(error),
        Ok((id, at)) => match reader::string_read(s, at) {
            Err(error) => Err(error),
            Ok((name, at)) => if !segment_name_valid(name) {
                Err(ColumnarError::Corrupt("invalid segment file name"))
            } else {
                match reader::u32_read(s, at) {
                    Err(error) => Err(error),
                    Ok((check, at)) => Ok(((ColumnarSegmentId(id), name, check), at)),
                }
            },
        },
    }
}

/// The formats of a manifest's segments.
pub open spec fn formats_read(s: Seq<u8>, at: int, version: u16) -> Parsed<(u16, Option<u16>)> {
    if version != LAZY_FORMAT_VERSION {
        Ok(
            (
                (
                    version,
                    if version == INCREMENTAL_FORMAT_VERSION {
                        Some(DELTA_FORMAT_VERSION)
                    } else {
                        None
                    },
                ),
                at,
            ),
        )
    } else {
        match reader::u16_read(s, at) {
            Err(error) => Err(error),
            Ok((base, at)) => match reader::u16_read(s, at) {
                Err(error) => Err(error),
                Ok((delta, at)) => if base != LAZY_FORMAT_VERSION || (delta != 0 && delta
                    != LAZY_DELTA_FORMAT_VERSION) {
                    Err(ColumnarError::Corrupt("invalid lazy manifest format or integrity scheme"))
                } else {
                    match reader::u8_read(s, at) {
                        Err(error) => Err(error),
                        Ok((scheme, at)) => if scheme != 1 {
                            Err(
                                ColumnarError::Corrupt(
                                    "invalid lazy manifest format or integrity scheme",
                                ),
                            )
                        } else {
                            match reader::reserved_read(
                                s,
                                at,
                                3,
                                "invalid lazy manifest format or integrity scheme",
                            ) {
                                Err(error) => Err(error),
                                Ok((_, at)) => Ok(
                                    (
                                        (
                                            base,
                                            if delta != 0 {
                                                Some(delta)
                                            } else {
                                                None
                                            },
                                        ),
                                        at,
                                    ),
                                ),
                            }
                        },
                    }
                },
            },
        }
    }
}

/// Whether a delta segment follows others of a projection.
pub open spec fn delta_follows(
    delta: DeltaSegmentView,
    before: Seq<DeltaSegmentView>,
    expected: StorageDataVersion,
    segment_file: Seq<u8>,
) -> bool {
    &&& delta.before == expected
    &&& delta.after.0 > delta.before.0
    &&& 0 < delta.mutation_count <= CHANGE_LOG_MAX_MUTATIONS
    &&& delta.after_row_count <= delta.mutation_count
    &&& delta.file != segment_file
    &&& forall|i: int| 0 <= i < before.len() ==> (#[trigger] before[i]).file != delta.file
}

/// One delta segment of a manifest.
pub open spec fn delta_read(s: Seq<u8>, at: int) -> Parsed<DeltaSegmentView> {
    match reader::string_read(s, at) {
        Err(error) => Err(error),
        Ok((file, at)) => if file.len() == 0 || metadata::components(file) != 1 {
            Err(ColumnarError::Corrupt("invalid delta file name"))
        } else {
            match reader::u64_read(s, at) {
                Err(error) => Err(error),
                Ok((before, at)) => match reader::u64_read(s, at) {
                    Err(error) => Err(error),
                    Ok((after, at)) => match reader::u64_read(s, at) {
                        Err(error) => Err(error),
                        Ok((mutation_count, at)) => match reader::u64_read(s, at) {
                            Err(error) => Err(error),
                            Ok((after_row_count, at)) => match reader::u64_read(s, at) {
                                Err(error) => Err(error),
                                Ok((size, at)) => match reader::u32_read(s, at) {
                                    Err(error) => Err(error),
                                    Ok((checksum, at)) => Ok(
                                        (
                                            DeltaSegmentView {
                                                file,
                                                before: StorageDataVersion(before),
                                                after: StorageDataVersion(after),
                                                mutation_count,
                                                after_row_count,
                                                bytes: size,
                                                checksum,
                                            },
                                            at,
                                        ),
                                    ),
                                },
                            },
                        },
                    },
                },
            }
        },
    }
}

/// Delta segments that were read: where they end, and their totals.
pub struct DeltaRun {
    pub deltas: Seq<DeltaSegmentView>,
    pub frontier: StorageDataVersion,
    pub bytes: int,
    pub mutations: int,
}

/// So many delta segments of a manifest.
pub open spec fn deltas_read(
    s: Seq<u8>,
    at: int,
    base: StorageDataVersion,
    segment_file: Seq<u8>,
    n: int,
) -> Parsed<DeltaRun>
    decreases n,
{
    if n <= 0 {
        Ok((DeltaRun { deltas: Seq::empty(), frontier: base, bytes: 0, mutations: 0 }, at))
    } else {
        match deltas_read(s, at, base, segment_file, n - 1) {
            Err(error) => Err(error),
            Ok((run, at)) => match delta_read(s, at) {
                Err(error) => Err(error),
                Ok((delta, at)) => if !delta_follows(
                    delta,
                    run.deltas,
                    run.frontier,
                    segment_file,
                ) {
                    Err(ColumnarError::Corrupt("broken delta frontier chain"))
                } else if run.bytes + delta.bytes > u64::MAX {
                    Err(ColumnarError::Corrupt("delta byte count overflow"))
                } else if run.mutations + delta.mutation_count > u64::MAX {
                    Err(ColumnarError::Corrupt("delta mutation count overflow"))
                } else {
                    Ok(
                        (
                            DeltaRun {
                                deltas: run.deltas.push(delta),
                                frontier: delta.after,
                                bytes: run.bytes + delta.bytes,
                                mutations: run.mutations + delta.mutation_count,
                            },
                            at,
                        ),
                    )
                },
            },
        }
    }
}

/// The frontiers and totals of a manifest, with no delta segments yet, and how
/// many there are.
pub open spec fn frontiers_read(s: Seq<u8>, at: int) -> Parsed<(IncrementalView, u32)> {
    match reader::u64_read(s, at) {
        Err(error) => Err(error),
        Ok((stream_generation, at)) => match reader::u64_read(s, at) {
            Err(error) => Err(error),
            Ok((base_frontier, at)) => match reader::u64_read(s, at) {
                Err(error) => Err(error),
                Ok((applied_frontier, at)) => match reader::u64_read(s, at) {
                    Err(error) => Err(error),
                    Ok((delta_mutation_count, at)) => match reader::u64_read(s, at) {
                        Err(error) => Err(error),
                        Ok((delta_live_row_count, at)) => match reader::u64_read(s, at) {
                            Err(error) => Err(error),
                            Ok((suppressed_version_count, at)) => match reader::u64_read(s, at) {
                                Err(error) => Err(error),
                                Ok((delta_bytes, at)) => match reader::u32_read(s, at) {
                                    Err(error) => Err(error),
                                    Ok((count, at)) => Ok(
                                        (
                                            (
                                                IncrementalView {
                                                    stream_generation: ChangeStreamGeneration(
                                                        stream_generation,
                                                    ),
                                                    base_frontier: StorageDataVersion(
                                                        base_frontier,
                                                    ),
                                                    applied_frontier: StorageDataVersion(
                                                        applied_frontier,
                                                    ),
                                                    delta_segments: Seq::empty(),
                                                    delta_mutation_count,
                                                    delta_live_row_count,
                                                    suppressed_version_count,
                                                    delta_bytes,
                                                },
                                                count,
                                            ),
                                            at,
                                        ),
                                    ),
                                },
                            },
                        },
                    },
                },
            },
        },
    }
}

/// Why the frontiers of a manifest are refused, if they are.
pub open spec fn frontiers_error(
    incremental: IncrementalView,
    count: u32,
    segment_count: u64,
) -> Option<ColumnarError> {
    if count > MAX_ROW_GROUPS {
        Some(
            ColumnarError::ResourceLimit { resource: "delta segment count", value: count as u64 },
        )
    } else if segment_count != count + 1 {
        Some(ColumnarError::Corrupt("manifest segment count mismatch"))
    } else if incremental.stream_generation.0 == 0 || incremental.applied_frontier.0
        < incremental.base_frontier.0 {
        Some(ColumnarError::Corrupt("invalid incremental frontier"))
    } else {
        None
    }
}

/// What a manifest says of its delta segments.
pub open spec fn incremental_read(
    s: Seq<u8>,
    at: int,
    segment_count: u64,
    segment_file: Seq<u8>,
) -> Parsed<IncrementalView> {
    match frontiers_read(s, at) {
        Err(error) => Err(error),
        Ok(((known, count), at)) => match frontiers_error(known, count, segment_count) {
            Some(error) => Err(error),
            None => match deltas_read(s, at, known.base_frontier, segment_file, count as int) {
                Err(error) => Err(error),
                Ok((run, at)) => if run.frontier != known.applied_frontier || run.bytes
                    != known.delta_bytes || run.mutations != known.delta_mutation_count {
                    Err(ColumnarError::Corrupt("delta inventory totals mismatch"))
                } else {
                    Ok((IncrementalView { delta_segments: run.deltas, ..known }, at))
                },
            },
        },
    }
}

/// What a manifest says of its delta segments, if it should.
pub open spec fn optional_incremental_read(
    s: Seq<u8>,
    at: int,
    delta_format: Option<u16>,
    segment_count: u64,
    segment_file: Seq<u8>,
) -> Parsed<Option<IncrementalView>> {
    if delta_format is Some {
        match incremental_read(s, at, segment_count, segment_file) {
            Err(error) => Err(error),
            Ok((incremental, at)) => Ok((Some(incremental), at)),
        }
    } else if segment_count != 1 {
        Err(ColumnarError::Corrupt("snapshot manifest must contain one segment"))
    } else {
        Ok((None, at))
    }
}

/// The metadata of a manifest.
pub open spec fn metadata_of(
    head: ManifestHead,
    columns: Seq<ColumnarColumnSpec>,
    incremental: Option<IncrementalView>,
) -> MetadataView {
    MetadataView {
        id: head.id,
        generation: head.generation,
        table_id: head.table_id,
        source_storage_id: head.source_token.storage_id,
        source_token: head.source_token,
        schema_fingerprint: head.schema_fingerprint,
        columns,
        row_count: head.row_count,
        row_group_count: head.row_group_count,
        segment_count: head.segment_count,
        segment_bytes: head.segment_bytes,
        incremental,
    }
}

/// The manifest in a payload.
pub open spec fn payload_read(s: Seq<u8>) -> Result<ManifestView, ColumnarError> {
    match head_read(s, 0) {
        Err(error) => Err(error),
        Ok((head, at)) => match column_list_read(s, at) {
            Err(error) => Err(error),
            Ok((columns, at)) => match segment_read(s, at) {
                Err(error) => Err(error),
                Ok(((segment_id, segment_file, segment_checksum), at)) => match formats_read(
                    s,
                    at,
                    head.version,
                ) {
                    Err(error) => Err(error),
                    Ok((
                        (base_format_version, delta_format_version),
                        at,
                    )) => match optional_incremental_read(
                        s,
                        at,
                        delta_format_version,
                        head.segment_count,
                        segment_file,
                    ) {
                        Err(error) => Err(error),
                        Ok((incremental, at)) => match reader::end_error(s, at) {
                            Some(error) => Err(error),
                            None => Ok(
                                ManifestView {
                                    metadata: metadata_of(head, columns, incremental),
                                    segment_id,
                                    segment_file,
                                    segment_checksum,
                                    version: head.version,
                                    base_format_version,
                                    delta_format_version,
                                },
                            ),
                        },
                    },
                },
            },
        },
    }
}

/// The manifest in a file.
pub open spec fn manifest_of(s: Seq<u8>) -> Result<ManifestView, ColumnarError> {
    match reader::checksum_error(s) {
        Some(error) => Err(error),
        None => payload_read(reader::payload_of(s)),
    }
}

fn decode_version(reader: &mut Reader<'_>) -> (read: Result<u16, ColumnarError>)
    requires
        old(reader).wf(),
    ensures
        final(reader).wf(),
        final(reader).bytes == old(reader).bytes,
        reader::reads(
            read,
            final(reader).offset as int,
            version_read(old(reader).bytes@, old(reader).offset as int),
        ),
{
    let magic: [u8; 4] = [0x4e, 0x42, 0x43, 0x4d];
    assert(magic@ =~= manifest_magic());
    reader.expect(&magic)?;
    let version: u16 = reader.u16()?;
    if version != SNAPSHOT_FORMAT_VERSION && version != INCREMENTAL_FORMAT_VERSION && version
        != LAZY_FORMAT_VERSION {
        return Err(ColumnarError::UnsupportedVersion(version));
    }
    let gap: u16 = reader.u16()?;
    if gap != 0 {
        return Err(ColumnarError::Corrupt("manifest reserved field is nonzero"));
    }
    Ok(version)
}

fn decode_token(reader: &mut Reader<'_>, storage_id: StorageId) -> (read: Result<
    StorageSnapshotToken,
    ColumnarError,
>)
    requires
        old(reader).wf(),
    ensures
        final(reader).wf(),
        final(reader).bytes == old(reader).bytes,
        reader::reads(
            read,
            final(reader).offset as int,
            token_read(old(reader).bytes@, old(reader).offset as int, storage_id),
        ),
{
    let tag: u8 = reader.u8()?;
    let kind = version::decode_snapshot_tag(tag)?;
    reader.reserved(7, "manifest snapshot reserved bytes are nonzero")?;
    let epoch: u64 = reader.u64()?;
    let sequence: u64 = reader.u64()?;
    Ok(StorageSnapshotToken { storage_id, kind, epoch, sequence })
}

fn decode_head(reader: &mut Reader<'_>) -> (read: Result<ManifestHead, ColumnarError>)
    requires
        old(reader).wf(),
    ensures
        final(reader).wf(),
        final(reader).bytes == old(reader).bytes,
        reader::reads(
            read,
            final(reader).offset as int,
            head_read(old(reader).bytes@, old(reader).offset as int),
        ),
{
    let version: u16 = decode_version(reader)?;
    let id: u64 = reader.u64()?;
    let generation: u64 = reader.u64()?;
    let table: u64 = reader.u64()?;
    let storage: u64 = reader.u64()?;
    let schema_fingerprint: SchemaFingerprint = reader.fingerprint()?;
    let source_token: StorageSnapshotToken = decode_token(reader, StorageId(storage))?;
    let row_count: u64 = reader.u64()?;
    let row_group_count: u64 = reader.u64()?;
    let segment_count: u64 = reader.u64()?;
    if version == SNAPSHOT_FORMAT_VERSION && segment_count != 1 {
        return Err(ColumnarError::Corrupt("phase 1 manifest must contain one segment"));
    }
    let segment_bytes: u64 = reader.u64()?;
    Ok(
        ManifestHead {
            version,
            id: ColumnarProjectionId(id),
            generation: ColumnarGeneration(generation),
            table_id: TableId(table),
            source_token,
            schema_fingerprint,
            row_count,
            row_group_count,
            segment_count,
            segment_bytes,
        },
    )
}

fn has_column(columns: &[ColumnarColumnSpec], id: ColumnId) -> (known: bool)
    ensures
        known == column_known(columns@, id),
{
    let mut i: usize = 0;
    while i < columns.len()
        invariant
            i <= columns@.len(),
            forall|k: int| 0 <= k < i ==> (#[trigger] columns@[k]).column_id != id,
        decreases columns@.len() - i,
    {
        if columns[i].column_id == id {
            return true;
        }
        i = i + 1;
    }
    false
}

fn decode_column(reader: &mut Reader<'_>, before: &[ColumnarColumnSpec]) -> (read: Result<
    ColumnarColumnSpec,
    ColumnarError,
>)
    requires
        old(reader).wf(),
    ensures
        final(reader).wf(),
        final(reader).bytes == old(reader).bytes,
        reader::reads(
            read,
            final(reader).offset as int,
            column_read(old(reader).bytes@, old(reader).offset as int, before@),
        ),
{
    let id: u32 = reader.u32()?;
    let tag: u8 = reader.u8()?;
    let physical_type: PhysicalType = scalar::decode_type_tag(tag)?;
    let flag: u8 = reader.u8()?;
    if flag > 1 {
        return Err(ColumnarError::Corrupt("invalid nullable flag"));
    }
    let gap: u16 = reader.u16()?;
    if gap != 0 {
        return Err(ColumnarError::Corrupt("manifest column reserved field is nonzero"));
    }
    if has_column(before, ColumnId(id)) {
        return Err(ColumnarError::Corrupt("duplicate manifest column"));
    }
    Ok(ColumnarColumnSpec { column_id: ColumnId(id), physical_type, nullable: flag == 1 })
}

proof fn lemma_columns_read_prefix(s: Seq<u8>, at: int, n: int, m: int)
    requires
        n <= m,
        columns_read(s, at, n) is Err,
    ensures
        columns_read(s, at, m) == columns_read(s, at, n),
    decreases m - n,
{
    if n < m {
        lemma_columns_read_prefix(s, at, n, m - 1);
    }
}

fn decode_columns(reader: &mut Reader<'_>) -> (read: Result<Vec<ColumnarColumnSpec>, ColumnarError>)
    requires
        old(reader).wf(),
    ensures
        final(reader).wf(),
        final(reader).bytes == old(reader).bytes,
        match column_list_read(old(reader).bytes@, old(reader).offset as int) {
            Ok((columns, next)) => {
                &&& read is Ok
                &&& read->Ok_0@ == columns
                &&& final(reader).offset == next
            },
            Err(error) => read == Err::<Vec<ColumnarColumnSpec>, ColumnarError>(error),
        },
{
    let count: u32 = reader.u32()?;
    if count == 0 || count > MAX_COLUMNS {
        return Err(
            ColumnarError::ResourceLimit { resource: "manifest columns", value: count as u64 },
        );
    }
    let ghost s = reader.bytes@;
    let ghost at = reader.offset as int;
    let mut columns: Vec<ColumnarColumnSpec> = Vec::new();
    let mut i: u32 = 0;
    while i < count
        invariant
            i <= count,
            reader.wf(),
            reader.bytes == old(reader).bytes,
            s == old(reader).bytes@,
            column_list_read(old(reader).bytes@, old(reader).offset as int) == columns_read(
                s,
                at,
                count as int,
            ),
            columns_read(s, at, i as int) == Ok::<(Seq<ColumnarColumnSpec>, int), ColumnarError>(
                (columns@, reader.offset as int),
            ),
        decreases count - i,
    {
        proof {
            if columns_read(s, at, i + 1) is Err {
                lemma_columns_read_prefix(s, at, i + 1, count as int);
            }
        }
        let column: ColumnarColumnSpec = decode_column(reader, columns.as_slice())?;
        columns.push(column);
        i = i + 1;
    }
    Ok(columns)
}

fn is_segment_name(name: &str) -> (valid: bool)
    ensures
        valid == segment_name_valid(utf8::encode_utf8(name@)),
{
    let bytes: &[u8] = name.as_bytes();
    bytes.len() > 0 && metadata::single_component(bytes) && !bytes::same_bytes(
        bytes,
        MANIFEST_FILE.as_bytes(),
    )
}

fn decode_formats(reader: &mut Reader<'_>, version: u16) -> (read: Result<
    (u16, Option<u16>),
    ColumnarError,
>)
    requires
        old(reader).wf(),
    ensures
        final(reader).wf(),
        final(reader).bytes == old(reader).bytes,
        reader::reads(
            read,
            final(reader).offset as int,
            formats_read(old(reader).bytes@, old(reader).offset as int, version),
        ),
{
    if version != LAZY_FORMAT_VERSION {
        return Ok(
            (
                version,
                if version == INCREMENTAL_FORMAT_VERSION {
                    Some(DELTA_FORMAT_VERSION)
                } else {
                    None
                },
            ),
        );
    }
    let base: u16 = reader.u16()?;
    let delta: u16 = reader.u16()?;
    if base != LAZY_FORMAT_VERSION || (delta != 0 && delta != LAZY_DELTA_FORMAT_VERSION) {
        return Err(ColumnarError::Corrupt("invalid lazy manifest format or integrity scheme"));
    }
    let scheme: u8 = reader.u8()?;
    if scheme != 1 {
        return Err(ColumnarError::Corrupt("invalid lazy manifest format or integrity scheme"));
    }
    reader.reserved(3, "invalid lazy manifest format or integrity scheme")?;
    Ok(
        (
            base,
            if delta != 0 {
                Some(delta)
            } else {
                None
            },
        ),
    )
}

fn has_file(deltas: &[ColumnarDeltaSegmentMetadata], file: &str) -> (found: bool)
    ensures
        found == exists|i: int|
            0 <= i < deltas@.len() && (#[trigger] metadata::deltas_view(deltas@)[i]).file
                == utf8::encode_utf8(file@),
{
    let ghost known = metadata::deltas_view(deltas@);
    let name: &[u8] = file.as_bytes();
    let mut i: usize = 0;
    while i < deltas.len()
        invariant
            i <= deltas@.len(),
            known == metadata::deltas_view(deltas@),
            name@ == utf8::encode_utf8(file@),
            forall|k: int| 0 <= k < i ==> (#[trigger] known[k]).file != utf8::encode_utf8(file@),
        decreases deltas@.len() - i,
    {
        assert(known[i as int] == deltas@[i as int]@);
        if bytes::same_bytes(deltas[i].file.as_str().as_bytes(), name) {
            return true;
        }
        i = i + 1;
    }
    false
}

fn decode_delta_entry(reader: &mut Reader<'_>) -> (read: Result<
    ColumnarDeltaSegmentMetadata,
    ColumnarError,
>)
    requires
        old(reader).wf(),
    ensures
        final(reader).wf(),
        final(reader).bytes == old(reader).bytes,
        match delta_read(old(reader).bytes@, old(reader).offset as int) {
            Ok((delta, next)) => {
                &&& read is Ok
                &&& read->Ok_0@ == delta
                &&& final(reader).offset == next
            },
            Err(error) => read == Err::<ColumnarDeltaSegmentMetadata, ColumnarError>(error),
        },
{
    let file: String = reader.string()?;
    if file.as_str().as_bytes().len() == 0 || !metadata::single_component(
        file.as_str().as_bytes(),
    ) {
        return Err(ColumnarError::Corrupt("invalid delta file name"));
    }
    let before: u64 = reader.u64()?;
    let after: u64 = reader.u64()?;
    let mutation_count: u64 = reader.u64()?;
    let after_row_count: u64 = reader.u64()?;
    let size: u64 = reader.u64()?;
    let checksum: u32 = reader.u32()?;
    Ok(
        ColumnarDeltaSegmentMetadata {
            file,
            before: StorageDataVersion(before),
            after: StorageDataVersion(after),
            mutation_count,
            after_row_count,
            bytes: size,
            checksum,
        },
    )
}

fn follows(
    delta: &ColumnarDeltaSegmentMetadata,
    before: &[ColumnarDeltaSegmentMetadata],
    expected: StorageDataVersion,
    segment_file: &str,
) -> (valid: bool)
    ensures
        valid == delta_follows(
            delta@,
            metadata::deltas_view(before@),
            expected,
            utf8::encode_utf8(segment_file@),
        ),
{
    delta.before == expected && delta.after.0 > delta.before.0 && delta.mutation_count > 0
        && delta.mutation_count <= CHANGE_LOG_MAX_MUTATIONS as u64 && delta.after_row_count
        <= delta.mutation_count && !bytes::same_bytes(
        delta.file.as_str().as_bytes(),
        segment_file.as_bytes(),
    ) && !has_file(before, delta.file.as_str())
}

proof fn lemma_deltas_read_prefix(
    s: Seq<u8>,
    at: int,
    base: StorageDataVersion,
    segment_file: Seq<u8>,
    n: int,
    m: int,
)
    requires
        n <= m,
        deltas_read(s, at, base, segment_file, n) is Err,
    ensures
        deltas_read(s, at, base, segment_file, m) == deltas_read(s, at, base, segment_file, n),
    decreases m - n,
{
    if n < m {
        lemma_deltas_read_prefix(s, at, base, segment_file, n, m - 1);
    }
}

/// Delta segments that were read, with their totals.
struct DecodedRun {
    deltas: Vec<ColumnarDeltaSegmentMetadata>,
    frontier: StorageDataVersion,
    bytes: u64,
    mutations: u64,
}

spec fn run_view(run: DecodedRun) -> DeltaRun {
    DeltaRun {
        deltas: metadata::deltas_view(run.deltas@),
        frontier: run.frontier,
        bytes: run.bytes as int,
        mutations: run.mutations as int,
    }
}

fn decode_deltas(
    reader: &mut Reader<'_>,
    base: StorageDataVersion,
    segment_file: &str,
    count: u32,
) -> (read: Result<DecodedRun, ColumnarError>)
    requires
        old(reader).wf(),
    ensures
        final(reader).wf(),
        final(reader).bytes == old(reader).bytes,
        match deltas_read(
            old(reader).bytes@,
            old(reader).offset as int,
            base,
            utf8::encode_utf8(segment_file@),
            count as int,
        ) {
            Ok((run, next)) => {
                &&& read is Ok
                &&& run_view(read->Ok_0) == run
                &&& final(reader).offset == next
            },
            Err(error) => read == Err::<DecodedRun, ColumnarError>(error),
        },
{
    let ghost s = reader.bytes@;
    let ghost at = reader.offset as int;
    let ghost name = utf8::encode_utf8(segment_file@);
    let mut run: DecodedRun = DecodedRun {
        deltas: Vec::new(),
        frontier: base,
        bytes: 0,
        mutations: 0,
    };
    assert(metadata::deltas_view(run.deltas@) =~= Seq::empty());
    let mut i: u32 = 0;
    while i < count
        invariant
            i <= count,
            reader.wf(),
            reader.bytes == old(reader).bytes,
            s == old(reader).bytes@,
            at == old(reader).offset,
            name == utf8::encode_utf8(segment_file@),
            deltas_read(s, at, base, name, i as int) == Ok::<(DeltaRun, int), ColumnarError>(
                (run_view(run), reader.offset as int),
            ),
        decreases count - i,
    {
        proof {
            if deltas_read(s, at, base, name, i + 1) is Err {
                lemma_deltas_read_prefix(s, at, base, name, i + 1, count as int);
            }
        }
        let delta: ColumnarDeltaSegmentMetadata = decode_delta_entry(reader)?;
        if !follows(&delta, run.deltas.as_slice(), run.frontier, segment_file) {
            return Err(ColumnarError::Corrupt("broken delta frontier chain"));
        }
        if delta.bytes > u64::MAX - run.bytes {
            return Err(ColumnarError::Corrupt("delta byte count overflow"));
        }
        if delta.mutation_count > u64::MAX - run.mutations {
            return Err(ColumnarError::Corrupt("delta mutation count overflow"));
        }
        run.frontier = delta.after;
        run.bytes = run.bytes + delta.bytes;
        run.mutations = run.mutations + delta.mutation_count;
        let ghost known = metadata::deltas_view(run.deltas@);
        let ghost last = delta@;
        run.deltas.push(delta);
        i = i + 1;
        assert(metadata::deltas_view(run.deltas@) =~= known.push(last));
    }
    Ok(run)
}

fn decode_frontiers(reader: &mut Reader<'_>) -> (read: Result<
    (ColumnarIncrementalMetadata, u32),
    ColumnarError,
>)
    requires
        old(reader).wf(),
    ensures
        final(reader).wf(),
        final(reader).bytes == old(reader).bytes,
        match frontiers_read(old(reader).bytes@, old(reader).offset as int) {
            Ok(((incremental, count), next)) => {
                &&& read is Ok
                &&& read->Ok_0.0@ == incremental
                &&& read->Ok_0.1 == count
                &&& final(reader).offset == next
            },
            Err(error) => read == Err::<(ColumnarIncrementalMetadata, u32), ColumnarError>(error),
        },
{
    let stream_generation: u64 = reader.u64()?;
    let base_frontier: u64 = reader.u64()?;
    let applied_frontier: u64 = reader.u64()?;
    let delta_mutation_count: u64 = reader.u64()?;
    let delta_live_row_count: u64 = reader.u64()?;
    let suppressed_version_count: u64 = reader.u64()?;
    let delta_bytes: u64 = reader.u64()?;
    let count: u32 = reader.u32()?;
    let deltas: Vec<ColumnarDeltaSegmentMetadata> = Vec::new();
    assert(metadata::deltas_view(deltas@) =~= Seq::empty());
    Ok(
        (
            ColumnarIncrementalMetadata {
                stream_generation: ChangeStreamGeneration(stream_generation),
                base_frontier: StorageDataVersion(base_frontier),
                applied_frontier: StorageDataVersion(applied_frontier),
                delta_segments: deltas,
                delta_mutation_count,
                delta_live_row_count,
                suppressed_version_count,
                delta_bytes,
            },
            count,
        ),
    )
}

fn decode_incremental(
    reader: &mut Reader<'_>,
    segment_count: u64,
    segment_file: &str,
) -> (read: Result<ColumnarIncrementalMetadata, ColumnarError>)
    requires
        old(reader).wf(),
    ensures
        final(reader).wf(),
        final(reader).bytes == old(reader).bytes,
        match incremental_read(
            old(reader).bytes@,
            old(reader).offset as int,
            segment_count,
            utf8::encode_utf8(segment_file@),
        ) {
            Ok((incremental, next)) => {
                &&& read is Ok
                &&& read->Ok_0@ == incremental
                &&& final(reader).offset == next
            },
            Err(error) => read == Err::<ColumnarIncrementalMetadata, ColumnarError>(error),
        },
{
    let (mut incremental, count) = decode_frontiers(reader)?;
    if count > MAX_ROW_GROUPS {
        return Err(
            ColumnarError::ResourceLimit { resource: "delta segment count", value: count as u64 },
        );
    }
    if segment_count != count as u64 + 1 {
        return Err(ColumnarError::Corrupt("manifest segment count mismatch"));
    }
    if incremental.stream_generation.0 == 0 || incremental.applied_frontier.0
        < incremental.base_frontier.0 {
        return Err(ColumnarError::Corrupt("invalid incremental frontier"));
    }
    let run: DecodedRun = decode_deltas(reader, incremental.base_frontier, segment_file, count)?;
    if run.frontier != incremental.applied_frontier || run.bytes != incremental.delta_bytes
        || run.mutations != incremental.delta_mutation_count {
        return Err(ColumnarError::Corrupt("delta inventory totals mismatch"));
    }
    incremental.delta_segments = run.deltas;
    Ok(incremental)
}

/// Reads a manifest.
pub fn decode_manifest(bytes: &[u8]) -> (read: Result<Manifest, ColumnarError>)
    ensures
        match manifest_of(bytes@) {
            Ok(manifest) => read is Ok && read->Ok_0@ == manifest,
            Err(error) => read == Err::<Manifest, ColumnarError>(error),
        },
{
    let payload: &[u8] = reader::validate_checksum(bytes)?;
    let mut reader: Reader<'_> = Reader::new(payload);
    let head: ManifestHead = decode_head(&mut reader)?;
    let columns: Vec<ColumnarColumnSpec> = decode_columns(&mut reader)?;
    let segment: u64 = reader.u64()?;
    let segment_file: String = reader.string()?;
    if !is_segment_name(segment_file.as_str()) {
        return Err(ColumnarError::Corrupt("invalid segment file name"));
    }
    let segment_checksum: u32 = reader.u32()?;
    let (base_format_version, delta_format_version) = decode_formats(&mut reader, head.version)?;
    let incremental: Option<ColumnarIncrementalMetadata> = if delta_format_version.is_some() {
        Some(decode_incremental(&mut reader, head.segment_count, segment_file.as_str())?)
    } else {
        if head.segment_count != 1 {
            return Err(ColumnarError::Corrupt("snapshot manifest must contain one segment"));
        }
        None
    };
    reader.finish()?;
    Ok(
        Manifest {
            metadata: ColumnarProjectionMetadata {
                id: head.id,
                generation: head.generation,
                table_id: head.table_id,
                source_storage_id: head.source_token.storage_id,
                source_token: head.source_token,
                schema_fingerprint: head.schema_fingerprint,
                columns,
                row_count: head.row_count,
                row_group_count: head.row_group_count,
                segment_count: head.segment_count,
                segment_bytes: head.segment_bytes,
                incremental,
            },
            segment_id: ColumnarSegmentId(segment),
            segment_file,
            segment_checksum,
            version: head.version,
            base_format_version,
            delta_format_version,
        },
    )
}

} // verus!
