//! What was read from files is fit for scans and compaction.
use super::block;
use super::chunk;
use super::chunk_laws;
use super::delta;
use super::descriptor;
use super::metadata::{DeltaSegmentView, MetadataView, DELTA_FORMAT_VERSION};
use super::overlay::{self, DeltaDescriptor, DeltaMutation, OverlayView};
use super::reader;
use super::scan;
use super::segment;
use super::vector::{self, ColumnarColumnSpec, VectorView};
use super::version::{self, SnapshotKind};
use crate::ids::StorageId;
use crate::value::ScalarView;
use vstd::prelude::*;

verus! {

proof fn lemma_chunk_advances(s: Seq<u8>, at: int, column: ColumnarColumnSpec, rows: u32)
    requires
        0 <= at,
    ensures
        chunk::chunk_read(s, at, column, rows) matches Ok((_, next)) ==> next >= at,
{
    if chunk::chunk_read(s, at, column, rows) is Ok {
        let at2 = chunk::chunk_head_read(s, at, column, rows)->Ok_0.1;
        assert(at2 >= at);
        let at3 = chunk::chunk_bounds_read(s, at2, column.physical_type)->Ok_0.1;
        assert(at3 >= at2);
    }
}

proof fn lemma_chunks_sound(
    s: Seq<u8>,
    at: int,
    columns: Seq<ColumnarColumnSpec>,
    rows: u32,
    n: int,
)
    requires
        0 <= at,
        0 <= n <= columns.len(),
    ensures
        segment::chunks_read(s, at, columns, rows, n) matches Ok((chunks, next)) ==> {
            &&& next >= at
            &&& chunks.len() == n
            &&& forall|i: int|
                0 <= i < n ==> {
                    &&& vector::well_formed((#[trigger] chunks[i]).0)
                    &&& vector::vector_len(chunks[i].0) == rows
                }
        },
    decreases n,
{
    if n > 0 {
        lemma_chunks_sound(s, at, columns, rows, n - 1);
        if let Ok((_, at2)) = segment::chunks_read(s, at, columns, rows, n - 1) {
            lemma_chunk_advances(s, at2, columns[n - 1], rows);
            chunk_laws::law_read_chunk_is_well_formed(s, at2, columns[n - 1], rows);
        }
    }
}

proof fn lemma_keys_advance(
    s: Seq<u8>,
    at: int,
    storage_id: StorageId,
    kind: SnapshotKind,
    n: int,
)
    ensures
        version::keys_read(s, at, storage_id, kind, n) matches Ok((_, next)) ==> next >= at,
    decreases n,
{
    if n > 0 {
        lemma_keys_advance(s, at, storage_id, kind, n - 1);
    }
}

proof fn lemma_groups_sound(s: Seq<u8>, at: int, known: MetadataView, version: u16, n: int)
    requires
        0 <= at,
        0 <= n,
    ensures
        segment::groups_read(s, at, known, version, n) matches Ok(((groups, _), next)) ==> {
            &&& next >= at
            &&& forall|i: int| 0 <= i < groups.len() ==> scan::group_sound(#[trigger] groups[i])
        },
    decreases n,
{
    if n > 0 {
        lemma_groups_sound(s, at, known, version, n - 1);
        if segment::groups_read(s, at, known, version, n) is Ok {
            let ((groups, before), at2) = segment::groups_read(s, at, known, version, n - 1)->Ok_0;
            let (read, _) = segment::group_read(s, at2, known, version, before)->Ok_0;
            let (rows, at3) = reader::u32_read(s, at2)->Ok_0;
            lemma_keys_advance(
                s,
                at3,
                known.source_storage_id,
                known.source_token.kind,
                rows as int,
            );
            version::lemma_keys_read_len(
                s,
                at3,
                known.source_storage_id,
                known.source_token.kind,
                rows as int,
            );
            let (versions, at4) = segment::versions_read(s, at3, known, version, rows)->Ok_0;
            lemma_chunks_sound(s, at4, known.columns, rows, known.columns.len() as int);
            assert(scan::group_sound(read));
        }
    }
}

/// The groups of a base segment that is read have rows in all their columns.
pub proof fn law_read_segment_is_sound(s: Seq<u8>, known: MetadataView)
    ensures
        segment::segment_of(s, known) matches Ok((_, groups)) ==> forall|i: int|
            0 <= i < groups.len() ==> scan::group_sound(#[trigger] groups[i]),
{
    if segment::segment_of(s, known) is Ok {
        let payload = reader::payload_of(s);
        let (version, at) = segment::format_read(payload, 0, known)->Ok_0;
        let (_, at2) = segment::identity_read(payload, at, known)->Ok_0;
        let (count, at3) = segment::group_count_read(payload, at2, known)->Ok_0;
        lemma_groups_sound(payload, at3, known, version, count as int);
    }
}

proof fn lemma_row_width(vectors: Seq<VectorView>, row: int, n: int)
    requires
        0 <= n,
    ensures
        delta::row_values(vectors, row, n) matches Ok(values) ==> values.len() == n,
    decreases n,
{
    if n > 0 {
        lemma_row_width(vectors, row, n - 1);
    }
}

/// Whether every row that row changes bring has so many values.
pub open spec fn widths_kept(mutations: Seq<DeltaMutation<Seq<ScalarView>>>, width: nat) -> bool {
    forall|i: int|
        0 <= i < mutations.len() ==> ((#[trigger] mutations[i]).after matches Some(row)
            ==> row.len() == width)
}

proof fn lemma_resolved_widths(
    vectors: Seq<VectorView>,
    descriptors: Seq<DeltaDescriptor>,
    after_count: u64,
    n: int,
)
    requires
        0 <= n,
    ensures
        delta::resolved(vectors, descriptors, after_count, n) matches Ok(mutations) ==> widths_kept(
            mutations,
            vectors.len(),
        ),
    decreases n,
{
    if n > 0 {
        lemma_resolved_widths(vectors, descriptors, after_count, n - 1);
        if let Some(row) = descriptors[n - 1].after {
            lemma_row_width(vectors, row as int, vectors.len() as int);
        }
    }
}

/// Chunks that were read are as many as were asked for.
pub proof fn lemma_chunks_count(
    s: Seq<u8>,
    at: int,
    columns: Seq<ColumnarColumnSpec>,
    rows: u32,
    n: int,
)
    requires
        0 <= n,
    ensures
        segment::chunks_read(s, at, columns, rows, n) matches Ok((chunks, _)) ==> chunks.len() == n,
    decreases n,
{
    if n > 0 {
        lemma_chunks_count(s, at, columns, rows, n - 1);
    }
}

proof fn lemma_delta_sound(
    s: Seq<u8>,
    at: int,
    known: MetadataView,
    expected: DeltaSegmentView,
    batches: u32,
)
    ensures
        delta::body_read(s, at, known, expected, batches) matches Ok(mutations) ==> widths_kept(
            mutations,
            known.columns.len(),
        ),
{
    if delta::body_read(s, at, known, expected, batches) is Ok {
        let rows = expected.after_row_count;
        let ((list, _), at2) = descriptor::frames_read(
            s,
            at,
            delta::eager_context(known, rows),
            expected.before,
            batches as int,
        )->Ok_0;
        let n = known.columns.len() as int;
        lemma_chunks_count(s, at2, known.columns, rows as u32, n);
        let (chunks, _) = segment::chunks_read(s, at2, known.columns, rows as u32, n)->Ok_0;
        lemma_resolved_widths(delta::vectors_of(chunks), list, rows, list.len() as int);
    }
}

/// The rows of a delta segment that is read have a value for each column.
pub proof fn law_read_delta_is_sound(s: Seq<u8>, known: MetadataView, expected: DeltaSegmentView)
    ensures
        delta::delta_of(s, known, expected) matches Ok(mutations) ==> widths_kept(
            mutations,
            known.columns.len(),
        ),
{
    if delta::delta_of(s, known, expected) is Ok {
        let payload = reader::payload_of(s);
        let (_, at) = delta::start_read(
            payload,
            0,
            DELTA_FORMAT_VERSION,
            "delta reserved field is nonzero",
        )->Ok_0;
        let (_, at2) = delta::owner_read(payload, at, known, "delta projection context")->Ok_0;
        let (_, at3) = delta::engine_read(payload, at2, known, "delta engine kind")->Ok_0;
        let (_, at4) = delta::bounds_read(payload, at3, known, expected)->Ok_0;
        let (batches, at5) = delta::counts_read(payload, at4, known, expected)->Ok_0;
        lemma_delta_sound(payload, at5, known, expected, batches);
    }
}

// ---------------------------------------------------------------------------
// Overlays
// ---------------------------------------------------------------------------
/// A row change whose row has so many values keeps an overlay of such rows.
pub proof fn lemma_step_keeps_widths(
    added: OverlayView<Seq<ScalarView>>,
    mutation: DeltaMutation<Seq<ScalarView>>,
    invalid: &'static str,
    width: nat,
)
    requires
        overlay::overlay_kept(added),
        scan::rows_sound(added.live_rows, width),
        mutation.after matches Some(row) ==> row.len() == width,
    ensures
        overlay::step(added, mutation, invalid) matches Ok(next) ==> scan::rows_sound(
            next.live_rows,
            width,
        ),
{
    if let Ok(next) = overlay::step(added, mutation, invalid) {
        if let Some(key) = mutation.old_version {
            overlay::lemma_place_among(added.live_keys, key);
        }
        let middle = overlay::step_old(added, mutation.old_version)->Ok_0;
        assert(scan::rows_sound(middle.live_rows, width));
        overlay::law_step_keeps_overlay(
            added,
            DeltaMutation { new_version: None, after: None, ..mutation },
            invalid,
        );
        if let Some(key) = mutation.new_version {
            overlay::lemma_place_among(middle.live_keys, key);
        }
    }
}

/// Row changes whose rows have so many values keep an overlay of such rows.
pub proof fn lemma_steps_keep_widths(
    added: OverlayView<Seq<ScalarView>>,
    mutations: Seq<DeltaMutation<Seq<ScalarView>>>,
    invalid: &'static str,
    width: nat,
    n: int,
)
    requires
        overlay::overlay_kept(added),
        scan::rows_sound(added.live_rows, width),
        widths_kept(mutations, width),
        0 <= n <= mutations.len(),
    ensures
        overlay::steps(added, mutations, invalid, n) matches Ok(next) ==> scan::rows_sound(
            next.live_rows,
            width,
        ),
    decreases n,
{
    if n > 0 {
        lemma_steps_keep_widths(added, mutations, invalid, width, n - 1);
        if let Ok(next) = overlay::steps(added, mutations, invalid, n - 1) {
            overlay::law_steps_keep_overlay(added, mutations, invalid, n - 1);
            lemma_step_keeps_widths(next, mutations[n - 1], invalid, width);
        }
    }
}

// ---------------------------------------------------------------------------
// Directories
// ---------------------------------------------------------------------------
/// The groups of a directory that is read have rows.
pub proof fn lemma_directories_rows(
    s: Seq<u8>,
    at: int,
    columns: Seq<ColumnarColumnSpec>,
    required: bool,
    overflow: &'static str,
    n: int,
)
    requires
        0 <= n,
    ensures
        block::directories_read(s, at, columns, required, overflow, n) matches Ok(((groups, _), _))
            ==> forall|i: int| 0 <= i < groups.len() ==> (#[trigger] groups[i]).rows > 0,
    decreases n,
{
    if n > 0 {
        lemma_directories_rows(s, at, columns, required, overflow, n - 1);
    }
}

} // verus!
