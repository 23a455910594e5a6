//! Delta segments of the first format: row changes and the rows that they
//! bring, under one check value.
use super::descriptor::{self, DescriptorContext};
use super::error::ColumnarError;
use super::group::{self, RowGroup};
use super::metadata::{
    ColumnarDeltaSegmentMetadata, ColumnarProjectionMetadata, DeltaSegmentView, MetadataView,
    DELTA_FORMAT_VERSION,
};
use super::overlay::{self, DeltaDescriptor, DeltaMutation, ProjectedDeltaMutation};
use super::project::{self, RowBatch, RowBatchView};
use super::reader::{self, Parsed, Reader};
use super::segment;
use super::statistics::{ColumnarColumnStatistics, StatisticsView};
use super::vector::{self, ColumnarVector, VectorView};
use super::version::{self, SnapshotKind};
use crate::bytes;
use crate::change_stream::log::CHANGE_LOG_MAX_MUTATIONS;
use crate::ids::{ChangeStreamGeneration, StorageDataVersion};
use crate::value::{self, ScalarValue, ScalarView};
use std::collections::HashSet;
use vstd::prelude::*;

verus! {

broadcast use {crate::bytes::group_le_len, vstd::std_specs::hash::group_hash_axioms};

/// The first bytes of a delta segment: `NBCD`.
pub open spec fn delta_magic() -> Seq<u8> {
    seq![0x4e, 0x42, 0x43, 0x44]
}

// ---------------------------------------------------------------------------
// Writing
// ---------------------------------------------------------------------------
/// The rows that the first `n` row changes bring.
pub open spec fn rows_brought(mutations: Seq<DeltaMutation<Seq<ScalarView>>>, n: int) -> Seq<
    Seq<ScalarView>,
>
    decreases n,
{
    if n <= 0 {
        Seq::empty()
    } else {
        match mutations[n - 1].after {
            Some(row) => rows_brought(mutations, n - 1).push(row),
            None => rows_brought(mutations, n - 1),
        }
    }
}

/// As many rows are brought as row changes bring one.
pub proof fn lemma_rows_brought(mutations: Seq<DeltaMutation<Seq<ScalarView>>>, n: int)
    requires
        0 <= n,
    ensures
        rows_brought(mutations, n).len() == descriptor::brought(mutations, n),
    decreases n,
{
    if n > 0 {
        lemma_rows_brought(mutations, n - 1);
    }
}

/// Copies of the rows that row changes bring.
pub fn collect_rows(mutations: &[ProjectedDeltaMutation]) -> (rows: Vec<Vec<ScalarValue>>)
    ensures
        vector::rows_view(rows@) == rows_brought(
            overlay::mutations_view(mutations@),
            mutations@.len() as int,
        ),
{
    let ghost known = overlay::mutations_view(mutations@);
    let mut rows: Vec<Vec<ScalarValue>> = Vec::new();
    assert(vector::rows_view(rows@) =~= Seq::empty());
    let mut i: usize = 0;
    while i < mutations.len()
        invariant
            i <= mutations@.len(),
            known == overlay::mutations_view(mutations@),
            vector::rows_view(rows@) == rows_brought(known, i as int),
        decreases mutations@.len() - i,
    {
        assert(known[i as int] == overlay::mutation_view(mutations@[i as int]));
        if let Some(row) = &mutations[i].after {
            let ghost before = vector::rows_view(rows@);
            let copy: Vec<ScalarValue> = value::copy_row(row.as_slice());
            let ghost last = value::row_view(copy@);
            rows.push(copy);
            assert(vector::rows_view(rows@) =~= before.push(last));
        }
        i = i + 1;
    }
    rows
}

/// The identity at the start of a delta segment.
pub open spec fn context_le(known: MetadataView, version: u16) -> Seq<u8> {
    delta_magic() + bytes::u16_le(version) + bytes::u16_le(0) + bytes::u64_le(known.id.0)
        + bytes::u64_le(known.generation.0) + bytes::u64_le(known.table_id.0) + bytes::u64_le(
        known.source_storage_id.0,
    ) + known.schema_fingerprint.bytes@ + seq![version::kind_tag(known.source_token.kind)]
        + bytes::zeros(7)
}

/// The bounds and counts of a delta segment.
pub open spec fn counts_le(
    generation: ChangeStreamGeneration,
    before: StorageDataVersion,
    after: StorageDataVersion,
    batches: nat,
    mutations: nat,
    rows: nat,
    columns: nat,
) -> Seq<u8> {
    bytes::u64_le(generation.0) + bytes::u64_le(before.0) + bytes::u64_le(after.0) + bytes::u32_le(
        batches as u32,
    ) + bytes::u64_le(mutations as u64) + bytes::u64_le(rows as u64) + bytes::u32_le(columns as u32)
}

/// The payload of a delta segment.
pub open spec fn delta_payload(
    known: MetadataView,
    batches: Seq<RowBatchView>,
    mutations: Seq<DeltaMutation<Seq<ScalarView>>>,
) -> Seq<u8> {
    let rows = rows_brought(mutations, mutations.len() as int);
    context_le(known, DELTA_FORMAT_VERSION) + counts_le(
        known.incremental->0.stream_generation,
        batches[0].before,
        batches.last().after,
        batches.len(),
        mutations.len(),
        rows.len(),
        known.columns.len(),
    ) + descriptor::batches_le(batches, mutations, batches.len() as int)
        + segment::group_chunks_le(
        known.columns,
        group::group_of(known.columns, rows, None),
        known.columns.len() as int,
    )
}

/// Why a delta segment cannot be written, if it cannot.
pub open spec fn delta_error(
    known: MetadataView,
    batches: Seq<RowBatchView>,
    mutations: Seq<DeltaMutation<Seq<ScalarView>>>,
) -> Option<ColumnarError> {
    let rows = rows_brought(mutations, mutations.len() as int);
    let chunks = segment::group_chunks_error(
        known.columns,
        group::group_of(known.columns, rows, None),
        "delta column statistics missing",
        known.columns.len() as int,
    );
    if known.incremental is None {
        Some(ColumnarError::InvalidInput("snapshot projection cannot encode delta"))
    } else if batches.len() > u32::MAX {
        Some(ColumnarError::InvalidInput("batch count overflow"))
    } else if descriptor::descriptors_error(
        batches,
        mutations,
        known.source_storage_id,
    ) is Some {
        descriptor::descriptors_error(batches, mutations, known.source_storage_id)
    } else if group::group_error(known.columns, rows) is Some {
        group::group_error(known.columns, rows)
    } else {
        chunks
    }
}

/// Writes the identity at the start of a delta segment.
pub fn push_context(output: &mut Vec<u8>, metadata: &ColumnarProjectionMetadata, version: u16)
    ensures
        final(output)@ == old(output)@ + context_le(metadata@, version),
{
    let magic: [u8; 4] = [0x4e, 0x42, 0x43, 0x44];
    assert(magic@ =~= delta_magic());
    bytes::push_bytes(output, &magic);
    bytes::push_u16(output, version);
    bytes::push_u16(output, 0);
    bytes::push_u64(output, metadata.id.0);
    bytes::push_u64(output, metadata.generation.0);
    bytes::push_u64(output, metadata.table_id.0);
    bytes::push_u64(output, metadata.source_storage_id.0);
    bytes::push_bytes(output, metadata.schema_fingerprint.as_bytes());
    output.push(version::snapshot_tag(metadata.source_token.kind));
    bytes::push_zeros(output, 7);
    assert(output@ =~= old(output)@ + context_le(metadata@, version));
}

/// Writes a delta segment.
pub fn encode_delta(
    metadata: &ColumnarProjectionMetadata,
    batches: &[RowBatch],
    mutations: &[ProjectedDeltaMutation],
) -> (written: Result<Vec<u8>, ColumnarError>)
    requires
        batches@.len() > 0,
        descriptor::changes_in(project::batches_view(batches@), batches@.len() as int)
            == mutations@.len(),
    ensures
        match delta_error(
            metadata@,
            project::batches_view(batches@),
            overlay::mutations_view(mutations@),
        ) {
            Some(error) => written == Err::<Vec<u8>, ColumnarError>(error),
            None => written is Ok && written->Ok_0@ == reader::checked(
                delta_payload(
                    metadata@,
                    project::batches_view(batches@),
                    overlay::mutations_view(mutations@),
                ),
            ),
        },
{
    let generation: ChangeStreamGeneration = match &metadata.incremental {
        Some(incremental) => incremental.stream_generation,
        None => {
            return Err(ColumnarError::InvalidInput("snapshot projection cannot encode delta"));
        },
    };
    let ghost frames = project::batches_view(batches@);
    let ghost known = overlay::mutations_view(mutations@);
    let before: StorageDataVersion = batches[0].before;
    let after: StorageDataVersion = batches[batches.len() - 1].after;
    assert(frames[0] == batches@[0]@ && frames.last() == batches@.last()@);
    let rows: Vec<Vec<ScalarValue>> = collect_rows(mutations);
    let ghost table = vector::rows_view(rows@);
    let mut output: Vec<u8> = Vec::new();
    push_context(&mut output, metadata, DELTA_FORMAT_VERSION);
    let ghost p1 = context_le(metadata@, DELTA_FORMAT_VERSION);
    assert(output@ =~= p1);
    bytes::push_u64(&mut output, generation.0);
    bytes::push_u64(&mut output, before.0);
    bytes::push_u64(&mut output, after.0);
    if batches.len() > u32::MAX as usize {
        return Err(ColumnarError::InvalidInput("batch count overflow"));
    }
    bytes::push_u32(&mut output, batches.len() as u32);
    bytes::push_u64(&mut output, mutations.len() as u64);
    bytes::push_u64(&mut output, rows.len() as u64);
    bytes::push_u32(&mut output, #[verifier::truncate] (metadata.columns.len() as u32));
    let ghost p2 = p1 + counts_le(
        generation,
        before,
        after,
        frames.len(),
        known.len(),
        table.len(),
        metadata@.columns.len(),
    );
    assert(output@ =~= p2);
    descriptor::encode_delta_descriptors(
        &mut output,
        metadata.source_storage_id,
        batches,
        mutations,
    )?;
    let made: RowGroup = group::encode_row_group(metadata.columns.as_slice(), rows.as_slice())?;
    segment::encode_group_chunks(
        &mut output,
        metadata.columns.as_slice(),
        &made,
        "delta column statistics missing",
    )?;
    reader::append_checksum(&mut output);
    Ok(output)
}

// ---------------------------------------------------------------------------
// Reading
// ---------------------------------------------------------------------------
/// The projection that a delta segment names, which must be the expected one.
pub open spec fn owner_read(s: Seq<u8>, at: int, known: MetadataView, identity: &'static str)
    -> Parsed<()> {
    match segment::expected_read(s, at, known.id.0, identity) {
        Err(error) => Err(error),
        Ok((_, at)) => match segment::expected_read(s, at, known.generation.0, identity) {
            Err(error) => Err(error),
            Ok((_, at)) => match segment::expected_read(s, at, known.table_id.0, identity) {
                Err(error) => Err(error),
                Ok((_, at)) => match segment::expected_read(
                    s,
                    at,
                    known.source_storage_id.0,
                    identity,
                ) {
                    Err(error) => Err(error),
                    Ok((_, at)) => match reader::fingerprint_read(s, at) {
                        Err(error) => Err(error),
                        Ok((fingerprint, at)) => if fingerprint != known.schema_fingerprint {
                            Err(ColumnarError::IdentityMismatch(identity))
                        } else {
                            Ok(((), at))
                        },
                    },
                },
            },
        },
    }
}

/// The engine that a delta segment names, which must be the expected one.
pub open spec fn engine_read(s: Seq<u8>, at: int, known: MetadataView, identity: &'static str)
    -> Parsed<()> {
    match reader::u8_read(s, at) {
        Err(error) => Err(error),
        Ok((tag, at)) => match version::kind_tagged(tag) {
            Err(error) => Err(error),
            Ok(kind) => if kind != known.source_token.kind {
                Err(ColumnarError::IdentityMismatch(identity))
            } else {
                match reader::zero_read(s, at, 7) {
                    Err(error) => Err(error),
                    Ok((zero, at)) => if !zero {
                        Err(ColumnarError::IdentityMismatch(identity))
                    } else {
                        Ok(((), at))
                    },
                }
            },
        },
    }
}

/// The start of a delta segment.
pub open spec fn start_read(
    s: Seq<u8>,
    at: int,
    version: u16,
    reserved: &'static str,
) -> Parsed<()> {
    match reader::magic_read(s, at, delta_magic()) {
        Err(error) => Err(error),
        Ok((_, at)) => match reader::u16_read(s, at) {
            Err(error) => Err(error),
            Ok((found, at)) => if found != version {
                Err(ColumnarError::UnsupportedVersion(found))
            } else {
                match reader::u16_read(s, at) {
                    Err(error) => Err(error),
                    Ok((gap, at)) => if gap != 0 {
                        Err(ColumnarError::Corrupt(reserved))
                    } else {
                        Ok(((), at))
                    },
                }
            },
        },
    }
}

/// The bounds of a delta segment, which must be the expected ones.
pub open spec fn bounds_read(
    s: Seq<u8>,
    at: int,
    known: MetadataView,
    expected: DeltaSegmentView,
) -> Parsed<()> {
    match known.incremental {
        None => Err(ColumnarError::Corrupt("delta on snapshot projection")),
        Some(incremental) => match segment::expected_read(
            s,
            at,
            incremental.stream_generation.0,
            "delta stream generation",
        ) {
            Err(error) => Err(error),
            Ok((_, at)) => match reader::u64_read(s, at) {
                Err(error) => Err(error),
                Ok((before, at)) => match reader::u64_read(s, at) {
                    Err(error) => Err(error),
                    Ok((after, at)) => if StorageDataVersion(before) != expected.before
                        || StorageDataVersion(after) != expected.after {
                        Err(ColumnarError::IdentityMismatch("delta frontier"))
                    } else {
                        Ok(((), at))
                    },
                },
            },
        },
    }
}

/// The number of batches of a delta segment, behind which its other counts must
/// be the expected ones.
pub open spec fn counts_read(
    s: Seq<u8>,
    at: int,
    known: MetadataView,
    expected: DeltaSegmentView,
) -> Parsed<u32> {
    match reader::u32_read(s, at) {
        Err(error) => Err(error),
        Ok((batches, at)) => if batches == 0 || batches > CHANGE_LOG_MAX_MUTATIONS {
            Err(
                ColumnarError::ResourceLimit {
                    resource: "delta batch count",
                    value: batches as u64,
                },
            )
        } else {
            match reader::u64_read(s, at) {
                Err(error) => Err(error),
                Ok((mutations, at)) => match reader::u64_read(s, at) {
                    Err(error) => Err(error),
                    Ok((rows, at)) => if mutations != expected.mutation_count || rows
                        != expected.after_row_count || mutations > CHANGE_LOG_MAX_MUTATIONS {
                        Err(ColumnarError::Corrupt("delta counts mismatch"))
                    } else {
                        match reader::u32_read(s, at) {
                            Err(error) => Err(error),
                            Ok((columns, at)) => if columns != known.columns.len() {
                                Err(ColumnarError::Corrupt("delta column count mismatch"))
                            } else {
                                Ok((batches, at))
                            },
                        }
                    },
                },
            }
        },
    }
}

/// What row changes of a projection's delta segment are read for.
pub open spec fn eager_context(known: MetadataView, rows: u64) -> DescriptorContext {
    DescriptorContext {
        storage_id: known.source_storage_id,
        kind: known.source_token.kind,
        lazy: false,
        after_count: rows,
    }
}

/// The values of a row in the first `n` vectors.
pub open spec fn row_values(vectors: Seq<VectorView>, row: int, n: int) -> Result<
    Seq<ScalarView>,
    ColumnarError,
>
    decreases n,
{
    if n <= 0 {
        Ok(Seq::empty())
    } else {
        match row_values(vectors, row, n - 1) {
            Err(error) => Err(error),
            Ok(before) => match vector::value_of(vectors[n - 1], row) {
                Err(error) => Err(error),
                Ok(found) => Ok(before.push(found)),
            },
        }
    }
}

/// The row that a row change brings, out of vectors.
pub open spec fn resolved_row(
    vectors: Seq<VectorView>,
    descriptors: Seq<DeltaDescriptor>,
    i: int,
    after_count: u64,
) -> Result<Option<Seq<ScalarView>>, ColumnarError> {
    match descriptors[i].after {
        None => Ok(None),
        Some(row) => if !descriptor::row_free(descriptors.take(i), descriptors[i], after_count) {
            Err(ColumnarError::Corrupt("invalid delta after-row reference"))
        } else if row > usize::MAX {
            Err(ColumnarError::Corrupt("after-row index overflow"))
        } else {
            match row_values(vectors, row as int, vectors.len() as int) {
                Err(error) => Err(error),
                Ok(values) => Ok(Some(values)),
            }
        },
    }
}

/// The first `n` row changes with the rows that they bring.
pub open spec fn resolved(
    vectors: Seq<VectorView>,
    descriptors: Seq<DeltaDescriptor>,
    after_count: u64,
    n: int,
) -> Result<Seq<DeltaMutation<Seq<ScalarView>>>, ColumnarError>
    decreases n,
{
    if n <= 0 {
        Ok(Seq::empty())
    } else {
        match resolved(vectors, descriptors, after_count, n - 1) {
            Err(error) => Err(error),
            Ok(before) => match resolved_row(vectors, descriptors, n - 1, after_count) {
                Err(error) => Err(error),
                Ok(after) => Ok(
                    before.push(
                        DeltaMutation {
                            old_version: descriptors[n - 1].old_version,
                            new_version: descriptors[n - 1].new_version,
                            after,
                        },
                    ),
                ),
            },
        }
    }
}

/// The vectors of chunks.
pub open spec fn vectors_of(chunks: Seq<(VectorView, StatisticsView)>) -> Seq<VectorView> {
    chunks.map_values(|read: (VectorView, StatisticsView)| read.0)
}

/// The row changes in the payload of a delta segment behind its counts.
pub open spec fn body_read(
    s: Seq<u8>,
    at: int,
    known: MetadataView,
    expected: DeltaSegmentView,
    batches: u32,
) -> Result<Seq<DeltaMutation<Seq<ScalarView>>>, ColumnarError> {
    let rows = expected.after_row_count;
    match descriptor::frames_read(
        s,
        at,
        eager_context(known, rows),
        expected.before,
        batches as int,
    ) {
        Err(error) => Err(error),
        Ok(((list, frontier), at)) => if frontier != expected.after || list.len()
            != expected.mutation_count {
            Err(ColumnarError::Corrupt("delta chain or mutation count mismatch"))
        } else if rows > u32::MAX {
            Err(ColumnarError::ResourceLimit { resource: "delta after rows", value: rows })
        } else {
            match segment::chunks_read(
                s,
                at,
                known.columns,
                rows as u32,
                known.columns.len() as int,
            ) {
                Err(error) => Err(error),
                Ok((chunks, at)) => match reader::end_error(s, at) {
                    Some(error) => Err(error),
                    None => match resolved(vectors_of(chunks), list, rows, list.len() as int) {
                        Err(error) => Err(error),
                        Ok(mutations) => if descriptor::brought(list, list.len() as int) != rows {
                            Err(ColumnarError::Corrupt("unreferenced delta after row"))
                        } else {
                            Ok(mutations)
                        },
                    },
                },
            }
        },
    }
}

/// The row changes in the payload of a delta segment.
pub open spec fn delta_read(s: Seq<u8>, known: MetadataView, expected: DeltaSegmentView) -> Result<
    Seq<DeltaMutation<Seq<ScalarView>>>,
    ColumnarError,
> {
    match start_read(s, 0, DELTA_FORMAT_VERSION, "delta reserved field is nonzero") {
        Err(error) => Err(error),
        Ok((_, at)) => match owner_read(s, at, known, "delta projection context") {
            Err(error) => Err(error),
            Ok((_, at)) => match engine_read(s, at, known, "delta engine kind") {
                Err(error) => Err(error),
                Ok((_, at)) => match bounds_read(s, at, known, expected) {
                    Err(error) => Err(error),
                    Ok((_, at)) => match counts_read(s, at, known, expected) {
                        Err(error) => Err(error),
                        Ok((batches, at)) => body_read(s, at, known, expected, batches),
                    },
                },
            },
        },
    }
}

/// The row changes in the file of a delta segment.
pub open spec fn delta_of(s: Seq<u8>, known: MetadataView, expected: DeltaSegmentView) -> Result<
    Seq<DeltaMutation<Seq<ScalarView>>>,
    ColumnarError,
> {
    match reader::checksum_error(s) {
        Some(error) => Err(error),
        None => delta_read(reader::payload_of(s), known, expected),
    }
}

/// Reads the start of a delta segment.
pub fn decode_start(reader: &mut Reader<'_>, version: u16, reserved: &'static str) -> (read: Result<
    (),
    ColumnarError,
>)
    requires
        old(reader).wf(),
    ensures
        final(reader).wf(),
        final(reader).bytes == old(reader).bytes,
        reader::reads(
            read,
            final(reader).offset as int,
            start_read(old(reader).bytes@, old(reader).offset as int, version, reserved),
        ),
{
    let magic: [u8; 4] = [0x4e, 0x42, 0x43, 0x44];
    assert(magic@ =~= delta_magic());
    reader.expect(&magic)?;
    let found: u16 = reader.u16()?;
    if found != version {
        return Err(ColumnarError::UnsupportedVersion(found));
    }
    let gap: u16 = reader.u16()?;
    if gap != 0 {
        return Err(ColumnarError::Corrupt(reserved));
    }
    Ok(())
}

/// Reads the projection that a delta segment names.
pub fn decode_owner(
    reader: &mut Reader<'_>,
    metadata: &ColumnarProjectionMetadata,
    identity: &'static str,
) -> (read: Result<(), ColumnarError>)
    requires
        old(reader).wf(),
    ensures
        final(reader).wf(),
        final(reader).bytes == old(reader).bytes,
        reader::reads(
            read,
            final(reader).offset as int,
            owner_read(old(reader).bytes@, old(reader).offset as int, metadata@, identity),
        ),
{
    segment::expect_u64(reader, metadata.id.0, identity)?;
    segment::expect_u64(reader, metadata.generation.0, identity)?;
    segment::expect_u64(reader, metadata.table_id.0, identity)?;
    segment::expect_u64(reader, metadata.source_storage_id.0, identity)?;
    let fingerprint = reader.fingerprint()?;
    if !fingerprint.same_as(&metadata.schema_fingerprint) {
        return Err(ColumnarError::IdentityMismatch(identity));
    }
    Ok(())
}

/// Reads the engine that a delta segment names.
pub fn decode_engine(
    reader: &mut Reader<'_>,
    metadata: &ColumnarProjectionMetadata,
    identity: &'static str,
) -> (read: Result<(), ColumnarError>)
    requires
        old(reader).wf(),
    ensures
        final(reader).wf(),
        final(reader).bytes == old(reader).bytes,
        reader::reads(
            read,
            final(reader).offset as int,
            engine_read(old(reader).bytes@, old(reader).offset as int, metadata@, identity),
        ),
{
    let tag: u8 = reader.u8()?;
    let kind: SnapshotKind = version::decode_snapshot_tag(tag)?;
    if kind != metadata.source_token.kind {
        return Err(ColumnarError::IdentityMismatch(identity));
    }
    let zero: bool = reader.zeros(7)?;
    if !zero {
        return Err(ColumnarError::IdentityMismatch(identity));
    }
    Ok(())
}

fn decode_bounds(
    reader: &mut Reader<'_>,
    metadata: &ColumnarProjectionMetadata,
    expected: &ColumnarDeltaSegmentMetadata,
) -> (read: Result<(), ColumnarError>)
    requires
        old(reader).wf(),
    ensures
        final(reader).wf(),
        final(reader).bytes == old(reader).bytes,
        reader::reads(
            read,
            final(reader).offset as int,
            bounds_read(old(reader).bytes@, old(reader).offset as int, metadata@, expected@),
        ),
{
    match &metadata.incremental {
        None => {
            return Err(ColumnarError::Corrupt("delta on snapshot projection"));
        },
        Some(incremental) => {
            segment::expect_u64(reader, incremental.stream_generation.0, "delta stream generation")?;
        },
    }
    let before: u64 = reader.u64()?;
    let after: u64 = reader.u64()?;
    if StorageDataVersion(before) != expected.before || StorageDataVersion(after)
        != expected.after {
        return Err(ColumnarError::IdentityMismatch("delta frontier"));
    }
    Ok(())
}

fn decode_counts(
    reader: &mut Reader<'_>,
    metadata: &ColumnarProjectionMetadata,
    expected: &ColumnarDeltaSegmentMetadata,
) -> (read: Result<u32, ColumnarError>)
    requires
        old(reader).wf(),
    ensures
        final(reader).wf(),
        final(reader).bytes == old(reader).bytes,
        reader::reads(
            read,
            final(reader).offset as int,
            counts_read(old(reader).bytes@, old(reader).offset as int, metadata@, expected@),
        ),
{
    let batches: u32 = reader.u32()?;
    if batches == 0 || batches > CHANGE_LOG_MAX_MUTATIONS {
        return Err(
            ColumnarError::ResourceLimit { resource: "delta batch count", value: batches as u64 },
        );
    }
    let mutations: u64 = reader.u64()?;
    let rows: u64 = reader.u64()?;
    if mutations != expected.mutation_count || rows != expected.after_row_count || mutations
        > CHANGE_LOG_MAX_MUTATIONS as u64 {
        return Err(ColumnarError::Corrupt("delta counts mismatch"));
    }
    let columns: u32 = reader.u32()?;
    if columns as usize != metadata.columns.len() {
        return Err(ColumnarError::Corrupt("delta column count mismatch"));
    }
    Ok(batches)
}

proof fn lemma_row_values_prefix(vectors: Seq<VectorView>, row: int, n: int, m: int)
    requires
        n <= m,
        row_values(vectors, row, n) is Err,
    ensures
        row_values(vectors, row, m) == row_values(vectors, row, n),
    decreases m - n,
{
    if n < m {
        lemma_row_values_prefix(vectors, row, n, m - 1);
    }
}

/// What vectors hold.
pub open spec fn vectors_view(vectors: Seq<ColumnarVector>) -> Seq<VectorView> {
    vectors.map_values(|found: ColumnarVector| found@)
}

/// The values of a row in vectors.
pub fn read_row(vectors: &[ColumnarVector], row: usize) -> (read: Result<
    Vec<ScalarValue>,
    ColumnarError,
>)
    ensures
        match row_values(vectors_view(vectors@), row as int, vectors@.len() as int) {
            Ok(values) => read is Ok && value::row_view(read->Ok_0@) == values,
            Err(error) => read == Err::<Vec<ScalarValue>, ColumnarError>(error),
        },
{
    let ghost known = vectors_view(vectors@);
    let mut values: Vec<ScalarValue> = Vec::new();
    assert(value::row_view(values@) =~= Seq::empty());
    let mut i: usize = 0;
    while i < vectors.len()
        invariant
            i <= vectors@.len(),
            known == vectors_view(vectors@),
            row_values(known, row as int, i as int) == Ok::<Seq<ScalarView>, ColumnarError>(
                value::row_view(values@),
            ),
        decreases vectors@.len() - i,
    {
        proof {
            if row_values(known, row as int, i + 1) is Err {
                lemma_row_values_prefix(known, row as int, i + 1, known.len() as int);
            }
        }
        assert(known[i as int] == vectors@[i as int]@);
        let found: ScalarValue = vectors[i].value(row)?;
        let ghost before = value::row_view(values@);
        let ghost last = value::scalar_view(found);
        values.push(found);
        i = i + 1;
        assert(value::row_view(values@) =~= before.push(last));
    }
    Ok(values)
}

proof fn lemma_resolved_prefix(
    vectors: Seq<VectorView>,
    descriptors: Seq<DeltaDescriptor>,
    after_count: u64,
    n: int,
    m: int,
)
    requires
        n <= m,
        resolved(vectors, descriptors, after_count, n) is Err,
    ensures
        resolved(vectors, descriptors, after_count, m) == resolved(
            vectors,
            descriptors,
            after_count,
            n,
        ),
    decreases m - n,
{
    if n < m {
        lemma_resolved_prefix(vectors, descriptors, after_count, n, m - 1);
    }
}

fn resolve(
    vectors: &[ColumnarVector],
    descriptors: &[DeltaDescriptor],
    after_count: u64,
) -> (read: Result<Vec<ProjectedDeltaMutation>, ColumnarError>)
    ensures
        match resolved(
            vectors_view(vectors@),
            descriptors@,
            after_count,
            descriptors@.len() as int,
        ) {
            Ok(mutations) => read is Ok && overlay::mutations_view(read->Ok_0@) == mutations,
            Err(error) => read == Err::<Vec<ProjectedDeltaMutation>, ColumnarError>(error),
        },
{
    let ghost known = vectors_view(vectors@);
    let mut mutations: Vec<ProjectedDeltaMutation> = Vec::new();
    let mut used: HashSet<u64> = HashSet::new();
    assert(overlay::mutations_view(mutations@) =~= Seq::empty());
    assert(descriptor::rows_in(used@, descriptors@.take(0)));
    let mut i: usize = 0;
    while i < descriptors.len()
        invariant
            i <= descriptors@.len(),
            known == vectors_view(vectors@),
            descriptor::rows_in(used@, descriptors@.take(i as int)),
            resolved(known, descriptors@, after_count, i as int) == Ok::<
                Seq<DeltaMutation<Seq<ScalarView>>>,
                ColumnarError,
            >(overlay::mutations_view(mutations@)),
        decreases descriptors@.len() - i,
    {
        proof {
            if resolved(known, descriptors@, after_count, i + 1) is Err {
                lemma_resolved_prefix(
                    known,
                    descriptors@,
                    after_count,
                    i + 1,
                    descriptors@.len() as int,
                );
            }
            descriptor::lemma_rows_in(
                used@,
                descriptors@.take(i as int),
                descriptors@[i as int],
            );
            assert(descriptors@.take(i as int).push(descriptors@[i as int])
                =~= descriptors@.take(i + 1));
        }
        let found: &DeltaDescriptor = &descriptors[i];
        let after: Option<Vec<ScalarValue>> = match found.after {
            Some(row) => {
                assert(used@.contains(row) <==> descriptor::row_used(
                    descriptors@.take(i as int),
                    row,
                ));
                if row >= after_count || used.contains(&row) {
                    return Err(ColumnarError::Corrupt("invalid delta after-row reference"));
                }
                used.insert(row);
                if row > usize::MAX as u64 {
                    return Err(ColumnarError::Corrupt("after-row index overflow"));
                }
                Some(read_row(vectors, row as usize)?)
            },
            None => None,
        };
        let mutation: ProjectedDeltaMutation = DeltaMutation {
            old_version: found.old_version,
            new_version: found.new_version,
            after,
        };
        let ghost before = overlay::mutations_view(mutations@);
        let ghost last = overlay::mutation_view(mutation);
        mutations.push(mutation);
        i = i + 1;
        assert(overlay::mutations_view(mutations@) =~= before.push(last));
    }
    Ok(mutations)
}

fn take_vectors(chunks: Vec<(ColumnarVector, ColumnarColumnStatistics)>) -> (vectors: Vec<
    ColumnarVector,
>)
    ensures
        vectors_view(vectors@) == vectors_of(segment::chunks_view(chunks@)),
{
    let ghost whole = vectors_of(segment::chunks_view(chunks@));
    let ghost all = chunks@;
    let mut rest: Vec<(ColumnarVector, ColumnarColumnStatistics)> = chunks;
    let mut reversed: Vec<ColumnarVector> = Vec::new();
    while rest.len() > 0
        invariant
            rest@.len() + reversed@.len() == all.len(),
            rest@ == all.take(rest@.len() as int),
            forall|k: int|
                0 <= k < reversed@.len() ==> (#[trigger] reversed@[k]) == all[all.len() - 1 - k].0,
        decreases rest@.len(),
    {
        let ghost last = rest@.len() - 1;
        if let Some((found, _)) = rest.pop() {
            assert(found == all[last].0);
            reversed.push(found);
        }
        assert(rest@ =~= all.take(last));
    }
    let mut vectors: Vec<ColumnarVector> = Vec::new();
    while reversed.len() > 0
        invariant
            reversed@.len() + vectors@.len() == all.len(),
            forall|k: int|
                0 <= k < reversed@.len() ==> (#[trigger] reversed@[k]) == all[all.len() - 1 - k].0,
            forall|k: int| 0 <= k < vectors@.len() ==> (#[trigger] vectors@[k]) == all[k].0,
        decreases reversed@.len(),
    {
        let ghost at = reversed@.len() - 1;
        let ghost place = vectors@.len() as int;
        if let Some(found) = reversed.pop() {
            assert(found == all[place].0);
            vectors.push(found);
        }
    }
    assert(vectors_view(vectors@) =~= whole);
    vectors
}

/// Reads a delta segment of a projection.
pub fn decode_delta(
    bytes: &[u8],
    metadata: &ColumnarProjectionMetadata,
    expected: &ColumnarDeltaSegmentMetadata,
) -> (read: Result<Vec<ProjectedDeltaMutation>, ColumnarError>)
    ensures
        match delta_of(bytes@, metadata@, expected@) {
            Ok(mutations) => read is Ok && overlay::mutations_view(read->Ok_0@) == mutations,
            Err(error) => read == Err::<Vec<ProjectedDeltaMutation>, ColumnarError>(error),
        },
{
    let payload: &[u8] = reader::validate_checksum(bytes)?;
    let mut reader: Reader<'_> = Reader::new(payload);
    decode_start(&mut reader, DELTA_FORMAT_VERSION, "delta reserved field is nonzero")?;
    decode_owner(&mut reader, metadata, "delta projection context")?;
    decode_engine(&mut reader, metadata, "delta engine kind")?;
    decode_bounds(&mut reader, metadata, expected)?;
    let batches: u32 = decode_counts(&mut reader, metadata, expected)?;
    let rows: u64 = expected.after_row_count;
    let context: DescriptorContext = DescriptorContext {
        storage_id: metadata.source_storage_id,
        kind: metadata.source_token.kind,
        lazy: false,
        after_count: rows,
    };
    let (list, frontier) = descriptor::decode_frames(
        &mut reader,
        &context,
        expected.before,
        batches,
    )?;
    if frontier != expected.after || list.len() as u64 != expected.mutation_count {
        return Err(ColumnarError::Corrupt("delta chain or mutation count mismatch"));
    }
    if rows > u32::MAX as u64 {
        return Err(ColumnarError::ResourceLimit { resource: "delta after rows", value: rows });
    }
    let chunks = segment::decode_chunks(&mut reader, metadata.columns.as_slice(), rows as u32)?;
    reader.finish()?;
    let vectors: Vec<ColumnarVector> = take_vectors(chunks);
    let mutations = resolve(vectors.as_slice(), list.as_slice(), rows)?;
    if descriptor::count_brought(list.as_slice()) != rows {
        return Err(ColumnarError::Corrupt("unreferenced delta after row"));
    }
    Ok(mutations)
}

} // verus!
