//! Advancing a projection: change batches become one more delta segment and a
//! replacement manifest.
use super::compact;
use super::delta;
use super::delta_laws;
use super::descriptor;
use super::error::ColumnarError;
use super::group::TableDef;
use super::lazy_delta::{self, EncodedDelta};
use super::manifest::{self, Manifest};
use super::metadata::{
    self, ColumnarDeltaSegmentMetadata, ColumnarIncrementalMetadata, ColumnarProjectionMetadata,
    DeltaSegmentView, IncrementalView, MetadataView,
};
use super::open::FileBytes;
use super::overlay::{
    self, DeltaDescriptor, DeltaMutation, DeltaOverlay, DeltaRowRef, ProjectedDeltaMutation,
};
use super::project::{self, RowBatch, RowBatchView};
use super::projection::{ColumnarProjection, ProjectionView};
use super::reader;
use crate::bytes;
use crate::ids::{SchemaFingerprint, StorageDataVersion, TableId};
use crate::value::{ScalarValue, ScalarView};
use vstd::prelude::*;
use vstd::utf8;

verus! {

broadcast use crate::bytes::group_le_len;

// ---------------------------------------------------------------------------
// The delta segment
// ---------------------------------------------------------------------------
/// The file of a delta segment, and its check value.
pub struct DeltaBytes {
    pub file: Seq<u8>,
    pub checksum: u32,
}

/// The delta segment of row changes, in the format of a projection's segments.
pub open spec fn delta_bytes(
    known: ProjectionView,
    batches: Seq<RowBatchView>,
    mutations: Seq<DeltaMutation<Seq<ScalarView>>>,
) -> Result<DeltaBytes, ColumnarError> {
    if known.lazy is Some {
        match lazy_delta::delta_made(known.metadata, batches, mutations) {
            Err(error) => Err(error),
            Ok(file) => Ok(
                DeltaBytes {
                    file: lazy_delta::delta_file_of(file),
                    checksum: bytes::u32_at(file.footer, file.footer.len() - 4),
                },
            ),
        }
    } else {
        match delta::delta_error(known.metadata, batches, mutations) {
            Some(error) => Err(error),
            None => {
                let file = reader::checked(
                    delta::delta_payload(known.metadata, batches, mutations),
                );
                Ok(DeltaBytes { file, checksum: bytes::u32_at(file, file.len() - 4) })
            },
        }
    }
}

/// How many rows are added, and how many versions replaced, after row changes.
pub open spec fn counts_after(
    known: ProjectionView,
    mutations: Seq<DeltaMutation<Seq<ScalarView>>>,
) -> Result<(nat, nat), ColumnarError> {
    let n = mutations.len() as int;
    match known.lazy {
        Some(indexed) => match overlay::steps(
            indexed.parts.added,
            overlay::all_located(
                delta_laws::descriptors_of(mutations),
                indexed.parts.deltas.len() as u32,
            ),
            "invalid lazy delta mutation image",
            n,
        ) {
            Err(error) => Err(error),
            Ok(next) => Ok((next.live_keys.len(), next.suppressed.len())),
        },
        None => match overlay::steps(
            known.added,
            mutations,
            "invalid delta mutation image",
            n,
        ) {
            Err(error) => Err(error),
            Ok(next) => Ok((next.live_keys.len(), next.suppressed.len())),
        },
    }
}

// ---------------------------------------------------------------------------
// The replacement manifest
// ---------------------------------------------------------------------------
/// What a new delta segment's metadata says.
pub open spec fn advanced_delta(
    known: MetadataView,
    batches: Seq<RowBatchView>,
    mutations: Seq<DeltaMutation<Seq<ScalarView>>>,
    made: DeltaBytes,
) -> DeltaSegmentView {
    DeltaSegmentView {
        file: utf8::encode_utf8(
            metadata::delta_name(known.id, known.generation, batches.last().after),
        ),
        before: batches[0].before,
        after: batches.last().after,
        mutation_count: mutations.len() as u64,
        after_row_count: descriptor::brought(mutations, mutations.len() as int) as u64,
        bytes: made.file.len() as u64,
        checksum: made.checksum,
    }
}

/// The metadata of a projection with one more delta segment.
pub open spec fn advanced_metadata(
    known: MetadataView,
    delta: DeltaSegmentView,
    live: nat,
    suppressed: nat,
) -> Result<MetadataView, ColumnarError> {
    let before = known.incremental->0;
    let deltas = before.delta_segments.push(delta);
    if before.delta_mutation_count + delta.mutation_count > u64::MAX {
        Err(ColumnarError::InvalidInput("delta mutation total overflow"))
    } else if before.delta_bytes + delta.bytes > u64::MAX {
        Err(ColumnarError::InvalidInput("delta byte total overflow"))
    } else if 1 + deltas.len() > u64::MAX {
        Err(ColumnarError::InvalidInput("segment count overflow"))
    } else {
        Ok(
            MetadataView {
                segment_count: (1 + deltas.len()) as u64,
                incremental: Some(
                    IncrementalView {
                        stream_generation: before.stream_generation,
                        base_frontier: before.base_frontier,
                        applied_frontier: delta.after,
                        delta_segments: deltas,
                        delta_mutation_count: (before.delta_mutation_count
                            + delta.mutation_count) as u64,
                        delta_live_row_count: live as u64,
                        suppressed_version_count: suppressed as u64,
                        delta_bytes: (before.delta_bytes + delta.bytes) as u64,
                    },
                ),
                ..known
            },
        )
    }
}

/// An advance of a projection.
pub struct AdvanceView {
    pub delta_file: Seq<char>,
    pub delta: Seq<u8>,
    pub metadata: MetadataView,
    pub manifest: Seq<u8>,
}

/// The replacement manifest, which keeps the base segment of the current one.
pub open spec fn replacement(
    known: ProjectionView,
    advanced: MetadataView,
    current: FileBytes,
) -> Result<Seq<u8>, ColumnarError> {
    match current {
        Err(error) => Err(error),
        Ok(s) => match manifest::manifest_of(s@) {
            Err(error) => Err(error),
            Ok(before) => match manifest::manifest_error(advanced, known.segment_file) {
                Some(error) => Err(error),
                None => Ok(
                    manifest::manifest_le(
                        advanced,
                        known.segment_id,
                        known.segment_file,
                        before.segment_checksum,
                        known.manifest_format_version,
                    ),
                ),
            },
        },
    }
}

/// Why a projection cannot advance by batches of a table, if it cannot.
pub open spec fn advance_error(
    known: MetadataView,
    table: TableDef,
    batches: Seq<RowBatchView>,
) -> Option<ColumnarError> {
    if known.incremental is None {
        Some(ColumnarError::InvalidInput("snapshot projection cannot advance"))
    } else if batches.len() == 0 {
        Some(ColumnarError::InvalidInput("advance contains no batches"))
    } else {
        compact::schema_error(known, table, "advance schema")
    }
}

/// The advance of a projection by row changes.
pub open spec fn advanced(
    known: ProjectionView,
    batches: Seq<RowBatchView>,
    mutations: Seq<DeltaMutation<Seq<ScalarView>>>,
    current: FileBytes,
) -> Result<AdvanceView, ColumnarError> {
    match delta_bytes(known, batches, mutations) {
        Err(error) => Err(error),
        Ok(made) => match counts_after(known, mutations) {
            Err(error) => Err(error),
            Ok((live, suppressed)) => match advanced_metadata(
                known.metadata,
                advanced_delta(known.metadata, batches, mutations, made),
                live,
                suppressed,
            ) {
                Err(error) => Err(error),
                Ok(next) => match replacement(known, next, current) {
                    Err(error) => Err(error),
                    Ok(encoded) => Ok(
                        AdvanceView {
                            delta_file: metadata::delta_name(
                                known.metadata.id,
                                known.metadata.generation,
                                batches.last().after,
                            ),
                            delta: made.file,
                            metadata: next,
                            manifest: encoded,
                        },
                    ),
                },
            },
        },
    }
}

/// The advance of a projection by batches of a table.
pub open spec fn advance_spec(
    known: ProjectionView,
    table: TableDef,
    batches: Seq<RowBatchView>,
    current: FileBytes,
) -> Result<AdvanceView, ColumnarError> {
    match advance_error(known.metadata, table, batches) {
        Some(error) => Err(error),
        None => match project::projection_of(table.columns@, known.metadata, batches) {
            Err(error) => Err(error),
            Ok(mutations) => if batches[0].before
                != known.metadata.incremental->0.applied_frontier {
                Err(ColumnarError::IdentityMismatch("advance frontier"))
            } else {
                advanced(known, batches, mutations, current)
            },
        },
    }
}

/// A delta segment and a replacement manifest that are to be written.
#[derive(Debug)]
pub struct PreparedColumnarAdvance {
    pub delta_file: String,
    pub delta: Vec<u8>,
    pub metadata: ColumnarProjectionMetadata,
    pub manifest: Vec<u8>,
    pub expected_table_id: TableId,
    pub expected_fingerprint: SchemaFingerprint,
}

/// Whether advancing ended as it must.
pub open spec fn advances(
    result: Result<PreparedColumnarAdvance, ColumnarError>,
    expected: Result<AdvanceView, ColumnarError>,
) -> bool {
    match expected {
        Ok(view) => {
            &&& result is Ok
            &&& result->Ok_0.delta_file@ == view.delta_file
            &&& result->Ok_0.delta@ == view.delta
            &&& result->Ok_0.metadata@ == view.metadata
            &&& result->Ok_0.manifest@ == view.manifest
            &&& result->Ok_0.expected_table_id == view.metadata.table_id
            &&& result->Ok_0.expected_fingerprint == view.metadata.schema_fingerprint
        },
        Err(error) => result == Err::<PreparedColumnarAdvance, ColumnarError>(error),
    }
}

// ---------------------------------------------------------------------------
// Execution
// ---------------------------------------------------------------------------
fn make_delta(
    projection: &ColumnarProjection,
    batches: &[RowBatch],
    mutations: &[ProjectedDeltaMutation],
) -> (made: Result<(Vec<u8>, u32), ColumnarError>)
    requires
        batches@.len() > 0,
        descriptor::changes_in(project::batches_view(batches@), batches@.len() as int)
            == mutations@.len(),
    ensures
        match delta_bytes(
            projection@,
            project::batches_view(batches@),
            overlay::mutations_view(mutations@),
        ) {
            Ok(expected) => {
                &&& made is Ok
                &&& made->Ok_0.0@ == expected.file
                &&& made->Ok_0.1 == expected.checksum
            },
            Err(error) => made == Err::<(Vec<u8>, u32), ColumnarError>(error),
        },
{
    if projection.lazy.is_some() {
        let encoded: EncodedDelta = lazy_delta::encode_lazy_delta(
            &projection.metadata,
            batches,
            mutations,
        )?;
        let mut file: Vec<u8> = encoded.header;
        bytes::push_bytes(&mut file, encoded.body.as_slice());
        proof {
            let expected = lazy_delta::delta_made(
                projection.metadata@,
                project::batches_view(batches@),
                overlay::mutations_view(mutations@),
            )->Ok_0;
            assert(file@ =~= lazy_delta::delta_file_of(expected));
        }
        return Ok((file, encoded.checksum));
    }
    let file: Vec<u8> = delta::encode_delta(&projection.metadata, batches, mutations)?;
    let checksum: u32 = reader::stored_checksum(file.as_slice())?;
    Ok((file, checksum))
}

fn list_descriptors(mutations: &[ProjectedDeltaMutation]) -> (list: Vec<DeltaDescriptor>)
    ensures
        list@ == delta_laws::descriptors_of(overlay::mutations_view(mutations@)),
{
    let ghost known = overlay::mutations_view(mutations@);
    let ghost whole = delta_laws::descriptors_of(known);
    let mut list: Vec<DeltaDescriptor> = Vec::new();
    let mut row: u64 = 0;
    let mut i: usize = 0;
    while i < mutations.len()
        invariant
            i <= mutations@.len(),
            known == overlay::mutations_view(mutations@),
            whole == delta_laws::descriptors_of(known),
            row == descriptor::brought(known, i as int),
            row <= i,
            list@ == whole.take(i as int),
        decreases mutations@.len() - i,
    {
        assert(known[i as int] == overlay::mutation_view(mutations@[i as int]));
        let mutation: &ProjectedDeltaMutation = &mutations[i];
        let after: Option<u64> = if mutation.after.is_some() {
            Some(row)
        } else {
            None
        };
        list.push(
            DeltaMutation {
                old_version: mutation.old_version,
                new_version: mutation.new_version,
                after,
            },
        );
        if mutation.after.is_some() {
            row = row + 1;
        }
        i = i + 1;
        assert(list@ =~= whole.take(i as int));
    }
    assert(list@ =~= whole);
    list
}

fn count_after(projection: &ColumnarProjection, mutations: &[ProjectedDeltaMutation]) -> (counts:
    Result<(usize, usize), ColumnarError>)
    requires
        projection.wf(),
    ensures
        match counts_after(projection@, overlay::mutations_view(mutations@)) {
            Ok((live, suppressed)) => {
                &&& counts is Ok
                &&& counts->Ok_0.0 == live
                &&& counts->Ok_0.1 == suppressed
            },
            Err(error) => counts == Err::<(usize, usize), ColumnarError>(error),
        },
{
    match &projection.lazy {
        Some(lazy) => {
            let mut next: DeltaOverlay<DeltaRowRef> = overlay::copy_lazy_overlay(&lazy.overlay);
            let list: Vec<DeltaDescriptor> = list_descriptors(mutations);
            overlay::apply_lazy_descriptors(
                &mut next,
                list.as_slice(),
                lazy.deltas.len() as u32,
            )?;
            Ok((next.live_keys.len(), next.suppressed.len()))
        },
        None => {
            let mut next: DeltaOverlay<Vec<ScalarValue>> = overlay::copy_overlay(
                &projection.overlay,
            );
            overlay::apply_overlay(&mut next, mutations)?;
            Ok((next.live_keys.len(), next.suppressed.len()))
        },
    }
}

fn advance_metadata(
    known: &ColumnarProjectionMetadata,
    delta: ColumnarDeltaSegmentMetadata,
    live: usize,
    suppressed: usize,
) -> (advanced: Result<ColumnarProjectionMetadata, ColumnarError>)
    requires
        known.incremental is Some,
    ensures
        match advanced_metadata(known@, delta@, live as nat, suppressed as nat) {
            Ok(next) => advanced is Ok && advanced->Ok_0@ == next,
            Err(error) => advanced == Err::<ColumnarProjectionMetadata, ColumnarError>(error),
        },
{
    let before: &ColumnarIncrementalMetadata = match &known.incremental {
        Some(before) => before,
        None => {
            return Err(ColumnarError::Corrupt("incremental metadata disappeared"));
        },
    };
    if delta.mutation_count > u64::MAX - before.delta_mutation_count {
        return Err(ColumnarError::InvalidInput("delta mutation total overflow"));
    }
    if delta.bytes > u64::MAX - before.delta_bytes {
        return Err(ColumnarError::InvalidInput("delta byte total overflow"));
    }
    let count: u64 = before.delta_segments.len() as u64;
    if count > u64::MAX - 2 {
        return Err(ColumnarError::InvalidInput("segment count overflow"));
    }
    let mut delta_segments: Vec<ColumnarDeltaSegmentMetadata> = metadata::copy_deltas(
        before.delta_segments.as_slice(),
    );
    let applied_frontier: StorageDataVersion = delta.after;
    let delta_mutation_count: u64 = before.delta_mutation_count + delta.mutation_count;
    let delta_bytes: u64 = before.delta_bytes + delta.bytes;
    let ghost listed = metadata::deltas_view(delta_segments@);
    let ghost last = delta@;
    delta_segments.push(delta);
    assert(metadata::deltas_view(delta_segments@) =~= listed.push(last));
    Ok(
        ColumnarProjectionMetadata {
            id: known.id,
            generation: known.generation,
            table_id: known.table_id,
            source_storage_id: known.source_storage_id,
            source_token: known.source_token,
            schema_fingerprint: known.schema_fingerprint,
            columns: metadata::copy_columns(known.columns.as_slice()),
            row_count: known.row_count,
            row_group_count: known.row_group_count,
            segment_count: count + 2,
            segment_bytes: known.segment_bytes,
            incremental: Some(
                ColumnarIncrementalMetadata {
                    stream_generation: before.stream_generation,
                    base_frontier: before.base_frontier,
                    applied_frontier,
                    delta_segments,
                    delta_mutation_count,
                    delta_live_row_count: live as u64,
                    suppressed_version_count: suppressed as u64,
                    delta_bytes,
                },
            ),
        },
    )
}

fn replace_manifest(
    projection: &ColumnarProjection,
    advanced: &ColumnarProjectionMetadata,
    current: &FileBytes,
) -> (encoded: Result<Vec<u8>, ColumnarError>)
    ensures
        match replacement(projection@, advanced@, *current) {
            Ok(expected) => encoded is Ok && encoded->Ok_0@ == expected,
            Err(error) => encoded == Err::<Vec<u8>, ColumnarError>(error),
        },
{
    let s: &Vec<u8> = match current {
        Ok(s) => s,
        Err(error) => {
            return Err(error.same());
        },
    };
    let before: Manifest = manifest::decode_manifest(s.as_slice())?;
    manifest::encode_manifest_version(
        advanced,
        projection.segment_id,
        projection.segment_file.as_str(),
        before.segment_checksum,
        projection.manifest_format_version,
    )
}

/// Advances a projection by contiguous batches of its change stream. `current` is
/// the manifest that is replaced.
pub fn prepare_advance(
    projection: &ColumnarProjection,
    table: &TableDef,
    batches: &[RowBatch],
    current: &FileBytes,
) -> (advanced: Result<PreparedColumnarAdvance, ColumnarError>)
    requires
        projection.wf(),
    ensures
        advances(
            advanced,
            advance_spec(projection@, *table, project::batches_view(batches@), *current),
        ),
{
    let ghost frames = project::batches_view(batches@);
    let known: &ColumnarProjectionMetadata = &projection.metadata;
    let applied: StorageDataVersion = match &known.incremental {
        Some(incremental) => incremental.applied_frontier,
        None => {
            return Err(ColumnarError::InvalidInput("snapshot projection cannot advance"));
        },
    };
    if batches.len() == 0 {
        return Err(ColumnarError::InvalidInput("advance contains no batches"));
    }
    compact::check_schema(known, table, "advance schema")?;
    let mutations: Vec<ProjectedDeltaMutation> = project::project_change_batches(
        table,
        known,
        batches,
    )?;
    let ghost changes = overlay::mutations_view(mutations@);
    assert(frames[0] == batches@[0]@ && frames.last() == batches@.last()@);
    let before: StorageDataVersion = batches[0].before;
    let after: StorageDataVersion = batches[batches.len() - 1].after;
    if before != applied {
        return Err(ColumnarError::IdentityMismatch("advance frontier"));
    }
    proof {
        descriptor::lemma_projected_len(
            frames,
            project::positions_of(table.columns@, known.columns@),
            known@,
            frames.len() as int,
        );
        lazy_delta::lemma_brought_view(mutations@, mutations@.len() as int);
    }
    let (delta, checksum) = make_delta(projection, batches, mutations.as_slice())?;
    let (live, suppressed) = count_after(projection, mutations.as_slice())?;
    let delta_file: String = metadata::delta_file_name(known.id, known.generation, after);
    let entry: ColumnarDeltaSegmentMetadata = ColumnarDeltaSegmentMetadata {
        file: delta_file.clone(),
        before,
        after,
        mutation_count: mutations.len() as u64,
        after_row_count: descriptor::count_brought(mutations.as_slice()),
        bytes: delta.len() as u64,
        checksum,
    };
    let next: ColumnarProjectionMetadata = advance_metadata(known, entry, live, suppressed)?;
    let encoded: Vec<u8> = replace_manifest(projection, &next, current)?;
    Ok(
        PreparedColumnarAdvance {
            delta_file,
            delta,
            expected_table_id: known.table_id,
            expected_fingerprint: known.schema_fingerprint,
            metadata: next,
            manifest: encoded,
        },
    )
}

// ---------------------------------------------------------------------------
// Laws
// ---------------------------------------------------------------------------
/// Advancing takes a projection from the place in its change stream that it was
/// at to the end of the batches, and keeps the base segment and the earlier delta
/// segments.
pub proof fn law_advance_moves_frontier(
    known: ProjectionView,
    table: TableDef,
    batches: Seq<RowBatchView>,
    current: FileBytes,
)
    requires
        advance_spec(known, table, batches, current) is Ok,
    ensures
        ({
            let before = known.metadata.incremental->0;
            let view = advance_spec(known, table, batches, current)->Ok_0;
            let after = view.metadata.incremental->0;
            &&& batches[0].before == before.applied_frontier
            &&& after.applied_frontier == batches.last().after
            &&& after.base_frontier == before.base_frontier
            &&& after.delta_segments.len() == before.delta_segments.len() + 1
            &&& after.delta_segments.drop_last() == before.delta_segments
            &&& after.delta_segments.last().before == before.applied_frontier
            &&& after.delta_segments.last().after == after.applied_frontier
            &&& view.metadata.row_count == known.metadata.row_count
            &&& view.metadata.segment_bytes == known.metadata.segment_bytes
            &&& view.metadata.columns == known.metadata.columns
            &&& view.metadata.generation == known.metadata.generation
        }),
{
    let before = known.metadata.incremental->0;
    let view = advance_spec(known, table, batches, current)->Ok_0;
    let after = view.metadata.incremental->0;
    assert(after.delta_segments.drop_last() =~= before.delta_segments);
}

} // verus!
