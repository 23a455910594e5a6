//! A projection that was opened, and one that was advanced, has rows such as its
//! metadata says, so that it can be compacted.
use super::advance;
use super::advance_laws;
use super::block;
use super::compact;
use super::compact_laws;
use super::delta;
use super::delta_laws;
use super::descriptor::{self, DescriptorContext};
use super::group::{self, GroupView, TableDef};
use super::indexed;
use super::lazy_compact;
use super::lazy_compact_laws;
use super::lazy_delta;
use super::lazy_scan;
use super::lazy_scan_laws;
use super::lazy_segment;
use super::manifest;
use super::metadata::{
    DeltaSegmentView, MetadataView, DELTA_FORMAT_VERSION, INCREMENTAL_FORMAT_VERSION,
};
use super::open::{self, DeltasOpened, FileBytes, FileParts};
use super::overlay::{self, DeltaDescriptor, DeltaMutation, DeltaRowRef, OverlayView};
use super::payload::Fetched;
use super::project::{self, RowBatch};
use super::projection::ProjectionView;
use super::reader;
use super::scan;
use super::scan_laws;
use super::segment;
use super::segment_laws;
use super::sound;
use super::vector::{self, ColumnarColumnSpec, VectorView};
use super::version::{self, SnapshotKind};
use crate::change_stream::types::{StorageChange, StorageVersionKey};
use crate::ids::{
    ColumnId, ColumnarGeneration, SchemaFingerprint, StorageDataVersion, StorageId, TableId,
};
use crate::value::{self, ScalarView};
use vstd::prelude::*;
use vstd::utf8;

verus! {

// ---------------------------------------------------------------------------
// Rows
// ---------------------------------------------------------------------------
/// Whether a row has so many values, with texts in valid UTF-8.
pub open spec fn row_valid(row: Seq<ScalarView>, width: nat) -> bool {
    &&& row.len() == width
    &&& vector::texts_valid(row)
}

proof fn lemma_rows_valid(columns: Seq<ColumnarColumnSpec>, rows: Seq<Seq<ScalarView>>)
    ensures
        compact_laws::rows_valid(columns, rows) <==> forall|i: int|
            0 <= i < rows.len() ==> row_valid(#[trigger] rows[i], columns.len()),
{
    let width = columns.len();
    if compact_laws::rows_valid(columns, rows) {
        assert forall|i: int| 0 <= i < rows.len() implies row_valid(
            #[trigger] rows[i],
            width,
        ) by {
            assert forall|c: int| 0 <= c < width implies utf8::valid_utf8(
                vector::text_of(#[trigger] rows[i][c]),
            ) by {
                let values = vector::column_values(rows, c);
                assert(vector::texts_valid(values));
                assert(values[i] == rows[i][c]);
            }
        }
    }
    if forall|i: int| 0 <= i < rows.len() ==> row_valid(#[trigger] rows[i], width) {
        assert forall|i: int| 0 <= i < rows.len() implies (#[trigger] rows[i]).len() == width by {
            assert(row_valid(rows[i], width));
        }
        assert forall|c: int| 0 <= c < width implies vector::texts_valid(
            #[trigger] vector::column_values(rows, c),
        ) by {
            let values = vector::column_values(rows, c);
            assert forall|i: int| 0 <= i < values.len() implies utf8::valid_utf8(
                vector::text_of(#[trigger] values[i]),
            ) by {
                assert(row_valid(rows[i], width));
                assert(values[i] == rows[i][c]);
            }
        }
    }
}

proof fn lemma_value_valid(vector: VectorView, row: int)
    ensures
        vector::value_of(vector, row) matches Ok(found) ==> utf8::valid_utf8(
            vector::text_of(found),
        ),
{
}

proof fn lemma_group_row(known: GroupView, row: int)
    requires
        forall|i: int|
            0 <= i < known.columns.len() ==> {
                &&& vector::well_formed((#[trigger] known.columns[i]).1)
                &&& vector::vector_len(known.columns[i].1) == known.rows
            },
        0 <= row < known.rows,
    ensures
        row_valid(lazy_scan::row_of(compact::group_vectors(known), row), known.columns.len()),
{
    let found = lazy_scan::row_of(compact::group_vectors(known), row);
    assert forall|c: int| 0 <= c < found.len() implies utf8::valid_utf8(
        vector::text_of(#[trigger] found[c]),
    ) by {
        let column = known.columns[c].1;
        vector::lemma_well_formed_values(column);
        assert(vector::value_of(column, row) is Ok);
        lemma_value_valid(column, row);
    }
}

proof fn lemma_base_rows(
    groups: Seq<GroupView>,
    suppressed: Seq<StorageVersionKey>,
    width: nat,
    n: int,
)
    requires
        0 <= n <= groups.len(),
        forall|i: int|
            0 <= i < groups.len() ==> scan::group_sound(#[trigger] groups[i])
                && groups[i].columns.len() == width,
    ensures
        ({
            let rows = scan_laws::base_visible(groups, suppressed, n);
            forall|i: int| 0 <= i < rows.len() ==> row_valid(#[trigger] rows[i], width)
        }),
    decreases n,
{
    if n > 0 {
        lemma_base_rows(groups, suppressed, width, n - 1);
        let known = groups[n - 1];
        let last = scan_laws::group_visible(known, suppressed);
        scan_laws::lemma_retained(known, suppressed);
        assert forall|i: int| 0 <= i < last.len() implies row_valid(#[trigger] last[i], width) by {
            lemma_group_row(known, scan::retained(known, suppressed)[i] as int);
        }
        let front = scan_laws::base_visible(groups, suppressed, n - 1);
        let rows = scan_laws::base_visible(groups, suppressed, n);
        assert forall|i: int| 0 <= i < rows.len() implies row_valid(#[trigger] rows[i], width) by {
            if i < front.len() {
                assert(rows[i] == front[i]);
            } else {
                assert(rows[i] == last[i - front.len()]);
            }
        }
    }
}

// ---------------------------------------------------------------------------
// Row changes
// ---------------------------------------------------------------------------
/// Whether a row change brings a row of a storage, and such a row as is wanted.
pub open spec fn change_valid<R>(
    mutation: DeltaMutation<R>,
    storage_id: StorageId,
    kind: SnapshotKind,
    wanted: spec_fn(R) -> bool,
) -> bool {
    &&& mutation.new_version matches Some(key) ==> version::key_error(
        key,
        storage_id,
        kind,
    ) is None
    &&& mutation.after matches Some(row) ==> wanted(row)
}

/// Whether the added rows of an overlay are of a storage, and as is wanted.
pub open spec fn added_valid<R>(
    added: OverlayView<R>,
    storage_id: StorageId,
    kind: SnapshotKind,
    wanted: spec_fn(R) -> bool,
) -> bool {
    &&& overlay::overlay_kept(added)
    &&& compact_laws::keys_valid(added.live_keys, storage_id, kind)
    &&& forall|i: int| 0 <= i < added.live_rows.len() ==> wanted(#[trigger] added.live_rows[i])
}

proof fn lemma_step_valid<R>(
    added: OverlayView<R>,
    mutation: DeltaMutation<R>,
    invalid: &'static str,
    storage_id: StorageId,
    kind: SnapshotKind,
    wanted: spec_fn(R) -> bool,
)
    requires
        added_valid(added, storage_id, kind, wanted),
        change_valid(mutation, storage_id, kind, wanted),
    ensures
        overlay::step(added, mutation, invalid) matches Ok(next) ==> added_valid(
            next,
            storage_id,
            kind,
            wanted,
        ),
{
    if let Ok(next) = overlay::step(added, mutation, invalid) {
        overlay::law_step_keeps_overlay(added, mutation, invalid);
        overlay::lemma_step_old_keeps(added, mutation.old_version);
        let middle = overlay::step_old(added, mutation.old_version)->Ok_0;
        if let Some(key) = mutation.old_version {
            overlay::lemma_place_among(added.live_keys, key);
            if added.live_keys.contains(key) {
                let place = overlay::place_among(added.live_keys, key);
                assert forall|i: int| 0 <= i < middle.live_keys.len() implies version::key_error(
                    #[trigger] middle.live_keys[i],
                    storage_id,
                    kind,
                ) is None && wanted(middle.live_rows[i]) by {
                    let earlier = if i < place {
                        i
                    } else {
                        i + 1
                    };
                    assert(middle.live_keys[i] == added.live_keys[earlier]);
                    assert(middle.live_rows[i] == added.live_rows[earlier]);
                }
            }
        }
        assert(added_valid(middle, storage_id, kind, wanted));
        if let Some(key) = mutation.new_version {
            if let Some(row) = mutation.after {
                overlay::lemma_place_among(middle.live_keys, key);
                let place = overlay::place_among(middle.live_keys, key);
                assert forall|i: int| 0 <= i < next.live_keys.len() implies version::key_error(
                    #[trigger] next.live_keys[i],
                    storage_id,
                    kind,
                ) is None && wanted(next.live_rows[i]) by {
                    if i < place {
                        assert(next.live_keys[i] == middle.live_keys[i]);
                        assert(next.live_rows[i] == middle.live_rows[i]);
                    } else if i > place {
                        assert(next.live_keys[i] == middle.live_keys[i - 1]);
                        assert(next.live_rows[i] == middle.live_rows[i - 1]);
                    }
                }
            }
        }
    }
}

proof fn lemma_steps_valid<R>(
    added: OverlayView<R>,
    mutations: Seq<DeltaMutation<R>>,
    invalid: &'static str,
    storage_id: StorageId,
    kind: SnapshotKind,
    wanted: spec_fn(R) -> bool,
    n: int,
)
    requires
        added_valid(added, storage_id, kind, wanted),
        0 <= n <= mutations.len(),
        forall|i: int|
            0 <= i < mutations.len() ==> change_valid(
                #[trigger] mutations[i],
                storage_id,
                kind,
                wanted,
            ),
    ensures
        overlay::steps(added, mutations, invalid, n) matches Ok(next) ==> added_valid(
            next,
            storage_id,
            kind,
            wanted,
        ),
    decreases n,
{
    if n > 0 {
        lemma_steps_valid(added, mutations, invalid, storage_id, kind, wanted, n - 1);
        if let Ok(next) = overlay::steps(added, mutations, invalid, n - 1) {
            lemma_step_valid(next, mutations[n - 1], invalid, storage_id, kind, wanted);
        }
    }
}

/// Whether a row has a value for each column of a projection, with texts in valid
/// UTF-8.
pub open spec fn row_wanted(known: MetadataView) -> spec_fn(Seq<ScalarView>) -> bool {
    |row: Seq<ScalarView>| row_valid(row, known.columns.len())
}

/// The rows of a projection are valid where the groups of its base segment and
/// the rows of its overlay are.
proof fn lemma_projection_valid(
    known: MetadataView,
    groups: Seq<GroupView>,
    added: OverlayView<Seq<ScalarView>>,
)
    requires
        segment_laws::distinct(known.columns),
        added_valid(
            added,
            known.source_storage_id,
            known.source_token.kind,
            row_wanted(known),
        ),
        forall|i: int| 0 <= i < groups.len() ==> group_valid(#[trigger] groups[i], known),
    ensures
        compact_laws::projection_valid(known, groups, added),
{
    let width = known.columns.len();
    let base = scan_laws::base_visible(groups, added.suppressed, groups.len() as int);
    let all = scan_laws::visible_rows(groups, added);
    assert forall|i: int| 0 <= i < groups.len() implies scan::group_sound(#[trigger] groups[i])
        && groups[i].columns.len() == width by {
        assert(group_valid(groups[i], known));
        assert(scan::column_ids(groups[i].columns).len() == group::spec_ids(known.columns).len());
    }
    lemma_base_rows(groups, added.suppressed, width, groups.len() as int);
    assert forall|i: int| 0 <= i < all.len() implies row_valid(#[trigger] all[i], width) by {
        if i < base.len() {
            assert(all[i] == base[i]);
        } else {
            assert(all[i] == added.live_rows[i - base.len()]);
            assert(row_wanted(known)(added.live_rows[i - base.len()]));
        }
    }
    lemma_rows_valid(known.columns, all);
}

/// Whether a group of a base segment has the columns of its projection, and rows
/// of its storage.
pub open spec fn group_valid(found: GroupView, known: MetadataView) -> bool {
    &&& scan::group_sound(found)
    &&& scan_laws::has_columns(found, known.columns)
    &&& found.source_versions is Some
    &&& compact_laws::keys_valid(
        found.source_versions->0,
        known.source_storage_id,
        known.source_token.kind,
    )
}

// ---------------------------------------------------------------------------
// What is read
// ---------------------------------------------------------------------------
proof fn lemma_keys_read_valid(
    s: Seq<u8>,
    at: int,
    storage_id: StorageId,
    kind: SnapshotKind,
    n: int,
)
    ensures
        version::keys_read(s, at, storage_id, kind, n) matches Ok((keys, _))
            ==> compact_laws::keys_valid(keys, storage_id, kind),
    decreases n,
{
    if n > 0 {
        lemma_keys_read_valid(s, at, storage_id, kind, n - 1);
    }
}

proof fn lemma_groups_read_valid(s: Seq<u8>, at: int, known: MetadataView, n: int)
    ensures
        segment::groups_read(s, at, known, INCREMENTAL_FORMAT_VERSION, n) matches Ok(
            ((groups, _), _),
        ) ==> forall|i: int|
            0 <= i < groups.len() ==> {
                &&& scan_laws::has_columns(#[trigger] groups[i], known.columns)
                &&& groups[i].source_versions is Some
                &&& compact_laws::keys_valid(
                    groups[i].source_versions->0,
                    known.source_storage_id,
                    known.source_token.kind,
                )
            },
    decreases n,
{
    let version = INCREMENTAL_FORMAT_VERSION;
    if n > 0 {
        lemma_groups_read_valid(s, at, known, n - 1);
        if segment::groups_read(s, at, known, version, n) is Ok {
            let ((_, before), at2) = segment::groups_read(s, at, known, version, n - 1)->Ok_0;
            let (read, _) = segment::group_read(s, at2, known, version, before)->Ok_0;
            let (rows, at3) = reader::u32_read(s, at2)->Ok_0;
            lemma_keys_read_valid(
                s,
                at3,
                known.source_storage_id,
                known.source_token.kind,
                rows as int,
            );
            assert(scan::column_ids(read.columns) =~= group::spec_ids(known.columns));
        }
    }
}

proof fn lemma_segment_valid(s: Seq<u8>, known: MetadataView)
    requires
        known.incremental is Some,
    ensures
        segment::segment_of(s, known) matches Ok((_, groups)) ==> forall|i: int|
            0 <= i < groups.len() ==> group_valid(#[trigger] groups[i], known),
{
    sound::law_read_segment_is_sound(s, known);
    if segment::segment_of(s, known) is Ok {
        let payload = reader::payload_of(s);
        let (version, at) = segment::format_read(payload, 0, known)->Ok_0;
        let (_, at2) = segment::identity_read(payload, at, known)->Ok_0;
        let (count, at3) = segment::group_count_read(payload, at2, known)->Ok_0;
        lemma_groups_read_valid(payload, at3, known, count as int);
    }
}

/// Whether the row changes of a delta segment bring versions of a storage.
spec fn versions_valid(
    list: Seq<DeltaDescriptor>,
    storage_id: StorageId,
    kind: SnapshotKind,
) -> bool {
    forall|i: int|
        0 <= i < list.len() ==> ((#[trigger] list[i]).new_version matches Some(key)
            ==> version::key_error(key, storage_id, kind) is None)
}

proof fn lemma_run_valid(
    s: Seq<u8>,
    at: int,
    context: DescriptorContext,
    prior: Seq<DeltaDescriptor>,
    n: int,
)
    requires
        versions_valid(prior, context.storage_id, context.kind),
    ensures
        descriptor::run_read(s, at, context, prior, n) matches Ok((list, _)) ==> versions_valid(
            list,
            context.storage_id,
            context.kind,
        ),
    decreases n,
{
    if n > 0 {
        lemma_run_valid(s, at, context, prior, n - 1);
    }
}

proof fn lemma_frames_valid(
    s: Seq<u8>,
    at: int,
    context: DescriptorContext,
    before: StorageDataVersion,
    n: int,
)
    ensures
        descriptor::frames_read(s, at, context, before, n) matches Ok(((list, _), _))
            ==> versions_valid(list, context.storage_id, context.kind),
    decreases n,
{
    if n > 0 {
        lemma_frames_valid(s, at, context, before, n - 1);
        if let Ok(((list, frontier), at2)) = descriptor::frames_read(
            s,
            at,
            context,
            before,
            n - 1,
        ) {
            if let Ok(((_, count), at3)) = descriptor::frame_read(s, at2, context, frontier) {
                lemma_run_valid(s, at3, context, list, count as int);
            }
        }
    }
}

proof fn lemma_row_values_valid(vectors: Seq<VectorView>, row: int, n: int)
    requires
        0 <= n,
    ensures
        delta::row_values(vectors, row, n) matches Ok(values) ==> row_valid(values, n as nat),
    decreases n,
{
    if n > 0 {
        lemma_row_values_valid(vectors, row, n - 1);
        lemma_value_valid(vectors[n - 1], row);
    }
}

proof fn lemma_resolved_valid(
    vectors: Seq<VectorView>,
    list: Seq<DeltaDescriptor>,
    after_count: u64,
    known: MetadataView,
    n: int,
)
    requires
        0 <= n <= list.len(),
        vectors.len() == known.columns.len(),
        versions_valid(list, known.source_storage_id, known.source_token.kind),
    ensures
        delta::resolved(vectors, list, after_count, n) matches Ok(mutations) ==> changes_valid(
            mutations,
            known,
        ),
    decreases n,
{
    if n > 0 {
        lemma_resolved_valid(vectors, list, after_count, known, n - 1);
        if let Some(row) = list[n - 1].after {
            lemma_row_values_valid(vectors, row as int, vectors.len() as int);
        }
    }
}

/// Whether row changes bring rows such as a projection's metadata says.
pub open spec fn changes_valid(
    mutations: Seq<DeltaMutation<Seq<ScalarView>>>,
    known: MetadataView,
) -> bool {
    forall|i: int|
        0 <= i < mutations.len() ==> change_valid(
            #[trigger] mutations[i],
            known.source_storage_id,
            known.source_token.kind,
            row_wanted(known),
        )
}

/// A delta segment that is read brings rows such as its projection's metadata
/// says.
pub proof fn law_read_delta_is_valid(s: Seq<u8>, known: MetadataView, expected: DeltaSegmentView)
    ensures
        delta::delta_of(s, known, expected) matches Ok(mutations) ==> changes_valid(
            mutations,
            known,
        ),
{
    if delta::delta_of(s, known, expected) is Ok {
        let payload = reader::payload_of(s);
        let (_, at) = delta::start_read(
            payload,
            0,
            DELTA_FORMAT_VERSION,
            "delta reserved field is nonzero",
        )->Ok_0;
        let (_, at2) = delta::owner_read(payload, at, known, "delta projection context")->Ok_0;
        let (_, at3) = delta::engine_read(payload, at2, known, "delta engine kind")->Ok_0;
        let (_, at4) = delta::bounds_read(payload, at3, known, expected)->Ok_0;
        let (batches, at5) = delta::counts_read(payload, at4, known, expected)->Ok_0;
        let rows = expected.after_row_count;
        let context = delta::eager_context(known, rows);
        lemma_frames_valid(payload, at5, context, expected.before, batches as int);
        let ((list, _), at6) = descriptor::frames_read(
            payload,
            at5,
            context,
            expected.before,
            batches as int,
        )->Ok_0;
        let n = known.columns.len() as int;
        sound::lemma_chunks_count(payload, at6, known.columns, rows as u32, n);
        let (chunks, _) = segment::chunks_read(payload, at6, known.columns, rows as u32, n)->Ok_0;
        lemma_resolved_valid(delta::vectors_of(chunks), list, rows, known, list.len() as int);
    }
}

proof fn lemma_columns_distinct(s: Seq<u8>, at: int, n: int)
    ensures
        manifest::columns_read(s, at, n) matches Ok((columns, _)) ==> segment_laws::distinct(
            columns,
        ),
    decreases n,
{
    if n > 0 {
        lemma_columns_distinct(s, at, n - 1);
    }
}

/// A manifest that is read names no column twice.
pub proof fn law_manifest_columns_are_distinct(
    s: Seq<u8>,
    table_id: Option<TableId>,
    fingerprint: Option<SchemaFingerprint>,
)
    ensures
        open::manifest_opened(s, table_id, fingerprint) matches Ok(known)
            ==> segment_laws::distinct(known.metadata.columns),
{
    if manifest::manifest_of(s) is Ok {
        let payload = reader::payload_of(s);
        let (_, at) = manifest::head_read(payload, 0)->Ok_0;
        let (count, at2) = reader::u32_read(payload, at)->Ok_0;
        lemma_columns_distinct(payload, at2, count as int);
    }
}

// ---------------------------------------------------------------------------
// Opening
// ---------------------------------------------------------------------------
proof fn lemma_eager_deltas_valid(
    known: MetadataView,
    deltas: Seq<DeltaSegmentView>,
    files: Seq<FileBytes>,
    paths: Seq<String>,
    frontier: StorageDataVersion,
    n: int,
)
    ensures
        open::eager_deltas(known, deltas, files, paths, frontier, n) matches Ok((added, _))
            ==> added_valid(
            added,
            known.source_storage_id,
            known.source_token.kind,
            row_wanted(known),
        ),
    decreases n,
{
    if n > 0 {
        lemma_eager_deltas_valid(known, deltas, files, paths, frontier, n - 1);
        if let Ok((added, _)) = open::eager_deltas(known, deltas, files, paths, frontier, n - 1) {
            if let Ok(mutations) = open::eager_delta(
                known,
                deltas[n - 1],
                files[n - 1],
                paths[n],
            ) {
                law_read_delta_is_valid(files[n - 1]->Ok_0@, known, deltas[n - 1]);
                lemma_steps_valid(
                    added,
                    mutations,
                    "invalid delta mutation image",
                    known.source_storage_id,
                    known.source_token.kind,
                    row_wanted(known),
                    mutations.len() as int,
                );
            }
        }
    }
}

/// A projection that follows a change stream and was opened in memory has rows
/// such as its metadata says.
pub proof fn law_opened_projection_is_valid(
    s: Seq<u8>,
    table_id: Option<TableId>,
    fingerprint: Option<SchemaFingerprint>,
    base: FileBytes,
    deltas: Seq<FileBytes>,
    paths: Seq<String>,
)
    requires
        open::manifest_opened(s, table_id, fingerprint) is Ok,
        open::manifest_opened(s, table_id, fingerprint)->Ok_0.metadata.incremental is Some,
    ensures
        open::eager_opened(
            open::manifest_opened(s, table_id, fingerprint)->Ok_0,
            base,
            deltas,
            paths,
        ) matches Ok(opened) ==> compact_laws::projection_valid(
            opened.metadata,
            opened.groups,
            opened.added,
        ),
{
    let manifest = open::manifest_opened(s, table_id, fingerprint)->Ok_0;
    let known = manifest.metadata;
    let incremental = known.incremental->0;
    if let Ok(opened) = open::eager_opened(manifest, base, deltas, paths) {
        law_manifest_columns_are_distinct(s, table_id, fingerprint);
        lemma_segment_valid(base->Ok_0@, known);
        lemma_eager_deltas_valid(
            known,
            incremental.delta_segments,
            deltas,
            paths,
            incremental.base_frontier,
            incremental.delta_segments.len() as int,
        );
        lemma_projection_valid(known, opened.groups, opened.added);
    }
}

proof fn lemma_directories_versions(
    s: Seq<u8>,
    at: int,
    columns: Seq<ColumnarColumnSpec>,
    overflow: &'static str,
    n: int,
)
    ensures
        block::directories_read(s, at, columns, true, overflow, n) matches Ok(((groups, _), _))
            ==> forall|i: int|
            0 <= i < groups.len() ==> (#[trigger] groups[i]).source_versions is Some,
    decreases n,
{
    if n > 0 {
        lemma_directories_versions(s, at, columns, overflow, n - 1);
    }
}

proof fn lemma_lazy_base(manifest: manifest::ManifestView, base: FileParts, path: String)
    requires
        manifest.metadata.incremental is Some,
    ensures
        open::lazy_base(manifest, base, path) matches Ok((groups, _)) ==> forall|i: int|
            0 <= i < groups.len() ==> (#[trigger] groups[i]).rows > 0
                && groups[i].source_versions is Some,
{
    if open::lazy_base(manifest, base, path) is Ok {
        let known = manifest.metadata;
        let payload = reader::payload_of(base.footer->Ok_0@);
        let (_, at) = reader::magic_read(payload, 0, lazy_segment::footer_magic())->Ok_0;
        let (_, at2) = lazy_segment::footer_head_read(
            payload,
            at,
            known,
            manifest.segment_id,
        )->Ok_0;
        let count = known.row_group_count as int;
        lemma_directories_versions(
            payload,
            at2,
            known.columns,
            "indexed row count overflow",
            count,
        );
        sound::lemma_directories_rows(
            payload,
            at2,
            known.columns,
            true,
            "indexed row count overflow",
            count,
        );
    }
}

proof fn lemma_lazy_deltas_valid(
    known: MetadataView,
    deltas: Seq<DeltaSegmentView>,
    parts: Seq<FileParts>,
    paths: Seq<String>,
    start: DeltasOpened,
    n: int,
)
    requires
        start.added == overlay::no_overlay::<DeltaRowRef>(),
    ensures
        open::lazy_deltas(known, deltas, parts, paths, start, n) matches Ok(all) ==> added_valid(
            all.added,
            known.source_storage_id,
            known.source_token.kind,
            |reference: DeltaRowRef| true,
        ),
    decreases n,
{
    let wanted = |reference: DeltaRowRef| true;
    if n > 0 {
        lemma_lazy_deltas_valid(known, deltas, parts, paths, start, n - 1);
        if let Ok(so_far) = open::lazy_deltas(known, deltas, parts, paths, start, n - 1) {
            let expected = deltas[n - 1];
            let part = parts[n - 1];
            if let Ok((_, list, _)) = open::lazy_delta_opened(known, expected, part, paths[n]) {
                let totals = lazy_delta::totals_of(
                    part.header->Ok_0@,
                    known,
                    expected,
                    part.file_bytes->Ok_0,
                )->Ok_0;
                let payload = reader::payload_of(part.footer->Ok_0@);
                let (_, at) = lazy_delta::footer_start_read(payload, 0, known, totals)->Ok_0;
                let (_, at2) = reader::u32_read(payload, at)->Ok_0;
                lemma_frames_valid(
                    payload,
                    at2,
                    lazy_delta::lazy_context(known, totals.rows),
                    totals.before,
                    totals.batches as int,
                );
                let located = overlay::all_located(list, (n - 1) as u32);
                assert forall|i: int| 0 <= i < located.len() implies change_valid(
                    #[trigger] located[i],
                    known.source_storage_id,
                    known.source_token.kind,
                    wanted,
                ) by {
                    assert(list[i].new_version == located[i].new_version);
                }
                lemma_steps_valid(
                    so_far.added,
                    located,
                    "invalid lazy delta mutation image",
                    known.source_storage_id,
                    known.source_token.kind,
                    wanted,
                    list.len() as int,
                );
            }
        }
    }
}

/// An indexed projection that follows a change stream and was opened has rows
/// such as its metadata says, where its files hold what its directories say.
pub proof fn law_opened_indexed_projection_is_valid(
    s: Seq<u8>,
    table_id: Option<TableId>,
    fingerprint: Option<SchemaFingerprint>,
    manifest_bytes: u64,
    base: FileParts,
    deltas: Seq<FileParts>,
    paths: Seq<String>,
    files: Seq<Seq<u8>>,
    groups: Seq<GroupView>,
    held: Seq<GroupView>,
    rows: Seq<Seq<ScalarView>>,
)
    requires
        open::manifest_opened(s, table_id, fingerprint) is Ok,
        open::manifest_opened(s, table_id, fingerprint)->Ok_0.metadata.incremental is Some,
    ensures
        open::lazy_opened(
            open::manifest_opened(s, table_id, fingerprint)->Ok_0,
            manifest_bytes,
            base,
            deltas,
            paths,
        ) matches Ok(opened) ==> {
            let parts = opened.lazy->0.parts;
            lazy_scan_laws::projection_stands(
                opened.metadata,
                parts,
                files,
                groups,
                held,
                rows,
            ) ==> compact_laws::projection_valid(
                opened.metadata,
                groups,
                lazy_scan_laws::overlay_with(parts.added, rows),
            )
        },
{
    let manifest = open::manifest_opened(s, table_id, fingerprint)->Ok_0;
    let known = manifest.metadata;
    let incremental = known.incremental->0;
    if let Ok(opened) = open::lazy_opened(manifest, manifest_bytes, base, deltas, paths) {
        let parts = opened.lazy->0.parts;
        if lazy_scan_laws::projection_stands(known, parts, files, groups, held, rows) {
            law_manifest_columns_are_distinct(s, table_id, fingerprint);
            lemma_lazy_base(manifest, base, paths[0]);
            let (_, taken) = open::lazy_base(manifest, base, paths[0])->Ok_0;
            let resident = scan::grown(manifest_bytes, taken as int);
            lemma_lazy_deltas_valid(
                known,
                incremental.delta_segments,
                deltas,
                paths,
                open::no_deltas(incremental.base_frontier, resident),
                incremental.delta_segments.len() as int,
            );
            lemma_standing_valid(known, parts, files, groups, held, rows);
        }
    }
}

proof fn lemma_standing_valid(
    known: MetadataView,
    parts: indexed::LazyView,
    files: Seq<Seq<u8>>,
    groups: Seq<GroupView>,
    held: Seq<GroupView>,
    rows: Seq<Seq<ScalarView>>,
)
    requires
        segment_laws::distinct(known.columns),
        lazy_scan_laws::projection_stands(known, parts, files, groups, held, rows),
        added_valid(
            parts.added,
            known.source_storage_id,
            known.source_token.kind,
            |reference: DeltaRowRef| true,
        ),
        forall|i: int|
            0 <= i < parts.base_groups.len() ==> (#[trigger] parts.base_groups[i]).rows > 0
                && parts.base_groups[i].source_versions is Some,
    ensures
        compact_laws::projection_valid(
            known,
            groups,
            lazy_scan_laws::overlay_with(parts.added, rows),
        ),
{
    let added = lazy_scan_laws::overlay_with(parts.added, rows);
    let spots = indexed::all_spots(parts.deltas, parts.deltas.len() as int);
    let references = parts.added.live_rows;
    let width = known.columns.len();
    assert forall|i: int| 0 <= i < groups.len() implies group_valid(
        #[trigger] groups[i],
        known,
    ) by {
        assert(lazy_scan_laws::group_stands(
            files[0],
            known.columns,
            groups[i],
            parts.base_groups[i],
            lazy_scan::context_of(known),
        ));
        lemma_columns_sound(known.columns, groups[i]);
    }
    assert forall|i: int| 0 <= i < rows.len() implies row_wanted(known)(#[trigger] rows[i]) by {
        assert(lazy_scan_laws::in_some(spots, references[i], spots.len() as int));
        let k = choose|k: int|
            0 <= k < spots.len() && indexed::inside(#[trigger] spots[k], references[i]);
        assert(indexed::inside(spots[k], references[i]));
        assert(lazy_scan_laws::spot_stands(files, known.columns, spots[k], held[k]));
        lemma_columns_sound(known.columns, held[k]);
        lemma_group_row(held[k], references[i].row - spots[k].start);
    }
    assert(overlay::overlay_kept(added)) by {
        assert forall|key: StorageVersionKey| added.suppressed.contains(key) implies
            !#[trigger] added.live_keys.contains(key) by {
            assert(parts.added.suppressed.contains(key));
            assert(!parts.added.live_keys.contains(key));
        }
    }
    lemma_projection_valid(known, groups, added);
}

proof fn lemma_columns_sound(columns: Seq<ColumnarColumnSpec>, known: GroupView)
    requires
        segment_laws::columns_kept(columns, known),
    ensures
        scan_laws::has_columns(known, columns),
        known.columns.len() == columns.len(),
        forall|i: int|
            0 <= i < known.columns.len() ==> {
                &&& vector::well_formed((#[trigger] known.columns[i]).1)
                &&& vector::vector_len(known.columns[i].1) == known.rows
            },
{
    assert(scan::column_ids(known.columns) =~= group::spec_ids(columns));
    assert forall|i: int| 0 <= i < known.columns.len() implies {
        &&& vector::well_formed((#[trigger] known.columns[i]).1)
        &&& vector::vector_len(known.columns[i].1) == known.rows
    } by {
        assert(known.statistics[i].0 == columns[i].column_id);
    }
}

// ---------------------------------------------------------------------------
// Advancing
// ---------------------------------------------------------------------------
/// Whether a change has texts in valid UTF-8.
spec fn texts_change(change: StorageChange<Seq<ScalarView>>) -> bool {
    match change {
        StorageChange::Insert { after, .. } => vector::texts_valid(after),
        StorageChange::Update { after, .. } => vector::texts_valid(after),
        StorageChange::Delete { .. } => true,
    }
}

proof fn lemma_texts_row(row: Seq<value::ScalarValue>)
    ensures
        vector::texts_valid(value::row_view(row)),
{
    let shown = value::row_view(row);
    assert forall|i: int| 0 <= i < shown.len() implies utf8::valid_utf8(
        vector::text_of(#[trigger] shown[i]),
    ) by {
        if let value::Scalar::Text(text) = row[i] {
            utf8::encode_utf8_valid_utf8(text@);
        }
    }
}

proof fn lemma_texts_batch(batch: RowBatch, i: int)
    requires
        0 <= i < batch@.mutations.len(),
    ensures
        texts_change(batch@.mutations[i]),
{
    match batch.mutations@[i] {
        StorageChange::Insert { after, .. } => lemma_texts_row(after@),
        StorageChange::Update { after, .. } => lemma_texts_row(after@),
        StorageChange::Delete { .. } => {},
    }
}

proof fn lemma_projected_valid(
    change: StorageChange<Seq<ScalarView>>,
    table: Seq<group::ColumnDef>,
    known: MetadataView,
)
    requires
        texts_change(change),
        project::positions_error(table, known.columns, known.columns.len() as int) is None,
    ensures
        project::projected_mutation(
            change,
            project::positions_of(table, known.columns),
            known,
        ) matches Ok(mutation) ==> change_valid(
            mutation,
            known.source_storage_id,
            known.source_token.kind,
            row_wanted(known),
        ),
{
    let positions = project::positions_of(table, known.columns);
    if let Ok(mutation) = project::projected_mutation(change, positions, known) {
        if let Some(row) = mutation.after {
            assert forall|c: int| 0 <= c < row.len() implies utf8::valid_utf8(
                vector::text_of(#[trigger] row[c]),
            ) by {
                lemma_position_found(table, known.columns, known.columns.len() as int, c);
                assert(positions[c] >= 0);
            }
            assert(row_wanted(known)(row));
        }
    }
}

proof fn lemma_position_found(
    table: Seq<group::ColumnDef>,
    columns: Seq<ColumnarColumnSpec>,
    n: int,
    c: int,
)
    requires
        0 <= c < n <= columns.len(),
        project::positions_error(table, columns, n) is None,
    ensures
        project::positions_of(table, columns)[c] >= 0,
    decreases n,
{
    if c < n - 1 {
        lemma_position_found(table, columns, n - 1, c);
    } else {
        group::lemma_place(group::table_ids(table), columns[c].column_id, 0);
    }
}

proof fn lemma_projected_changes_valid(
    changes: Seq<StorageChange<Seq<ScalarView>>>,
    table: Seq<group::ColumnDef>,
    known: MetadataView,
    n: int,
)
    requires
        0 <= n <= changes.len(),
        forall|i: int| 0 <= i < changes.len() ==> texts_change(#[trigger] changes[i]),
        project::positions_error(table, known.columns, known.columns.len() as int) is None,
    ensures
        project::projected_changes(
            changes,
            project::positions_of(table, known.columns),
            known,
            n,
        ) matches Ok(mutations) ==> changes_valid(mutations, known),
    decreases n,
{
    if n > 0 {
        lemma_projected_changes_valid(changes, table, known, n - 1);
        lemma_projected_valid(changes[n - 1], table, known);
    }
}

proof fn lemma_projected_batches_valid(
    batches: Seq<RowBatch>,
    table: Seq<group::ColumnDef>,
    known: MetadataView,
    n: int,
)
    requires
        0 <= n <= batches.len(),
        project::positions_error(table, known.columns, known.columns.len() as int) is None,
    ensures
        project::projected_batches(
            project::batches_view(batches),
            project::positions_of(table, known.columns),
            known,
            n,
        ) matches Ok((mutations, _)) ==> changes_valid(mutations, known),
    decreases n,
{
    let positions = project::positions_of(table, known.columns);
    let views = project::batches_view(batches);
    if n > 0 {
        lemma_projected_batches_valid(batches, table, known, n - 1);
        let changes = views[n - 1].mutations;
        assert forall|i: int| 0 <= i < changes.len() implies texts_change(
            #[trigger] changes[i],
        ) by {
            lemma_texts_batch(batches[n - 1], i);
        }
        lemma_projected_changes_valid(changes, table, known, changes.len() as int);
        if project::projected_batches(views, positions, known, n) is Ok {
            let (front, _) = project::projected_batches(views, positions, known, n - 1)->Ok_0;
            let last = project::projected_changes(
                changes,
                positions,
                known,
                changes.len() as int,
            )->Ok_0;
            let all = front + last;
            assert forall|i: int| 0 <= i < all.len() implies change_valid(
                #[trigger] all[i],
                known.source_storage_id,
                known.source_token.kind,
                row_wanted(known),
            ) by {
                if i < front.len() {
                    assert(all[i] == front[i]);
                } else {
                    assert(all[i] == last[i - front.len()]);
                }
            }
        }
    }
}

/// The row changes of batches for a projection bring rows such as its metadata
/// says.
pub proof fn law_projected_changes_are_valid(
    table: Seq<group::ColumnDef>,
    known: MetadataView,
    batches: Seq<RowBatch>,
)
    ensures
        project::projection_of(table, known, project::batches_view(batches)) matches Ok(mutations)
            ==> changes_valid(mutations, known),
{
    if project::projection_of(table, known, project::batches_view(batches)) is Ok {
        lemma_projected_batches_valid(batches, table, known, batches.len() as int);
    }
}

proof fn lemma_advanced_valid(
    known: MetadataView,
    next: MetadataView,
    groups: Seq<GroupView>,
    added: OverlayView<Seq<ScalarView>>,
    mutations: Seq<DeltaMutation<Seq<ScalarView>>>,
    invalid: &'static str,
)
    requires
        compact_laws::projection_valid(known, groups, added),
        changes_valid(mutations, known),
        next.columns == known.columns,
        next.source_storage_id == known.source_storage_id,
        next.source_token == known.source_token,
        overlay::steps(added, mutations, invalid, mutations.len() as int) is Ok,
    ensures
        compact_laws::projection_valid(
            next,
            groups,
            overlay::steps(added, mutations, invalid, mutations.len() as int)->Ok_0,
        ),
{
    let after = overlay::steps(added, mutations, invalid, mutations.len() as int)->Ok_0;
    let all = scan_laws::visible_rows(groups, added);
    let base = scan_laws::base_visible(groups, added.suppressed, groups.len() as int);
    lemma_rows_valid(known.columns, all);
    assert forall|i: int| 0 <= i < added.live_rows.len() implies row_wanted(known)(
        #[trigger] added.live_rows[i],
    ) by {
        assert(all[base.len() + i] == added.live_rows[i]);
    }
    lemma_steps_valid(
        added,
        mutations,
        invalid,
        known.source_storage_id,
        known.source_token.kind,
        row_wanted(known),
        mutations.len() as int,
    );
    assert(row_wanted(next) == row_wanted(known));
    assert forall|i: int| 0 <= i < groups.len() implies group_valid(#[trigger] groups[i], next) by {
        assert(scan::group_sound(groups[i]));
    }
    lemma_projection_valid(next, groups, after);
}

/// Advancing a projection in memory keeps that its rows are such as its metadata
/// says: the row changes of the batches lead to an overlay that fits the base
/// segment and the metadata of the advance.
pub proof fn law_advanced_projection_is_valid(
    known: ProjectionView,
    table: TableDef,
    batches: Seq<RowBatch>,
    current: FileBytes,
)
    requires
        known.lazy is None,
        compact_laws::projection_valid(known.metadata, known.groups, known.added),
        advance::advance_spec(known, table, project::batches_view(batches), current) is Ok,
    ensures
        ({
            let views = project::batches_view(batches);
            let made = advance::advance_spec(known, table, views, current)->Ok_0;
            let mutations = project::projection_of(table.columns@, known.metadata, views)->Ok_0;
            match overlay::steps(
                known.added,
                mutations,
                "invalid delta mutation image",
                mutations.len() as int,
            ) {
                Ok(added) => compact_laws::projection_valid(made.metadata, known.groups, added),
                Err(_) => false,
            }
        }),
{
    let views = project::batches_view(batches);
    let made = advance::advance_spec(known, table, views, current)->Ok_0;
    let mutations = project::projection_of(table.columns@, known.metadata, views)->Ok_0;
    law_projected_changes_are_valid(table.columns@, known.metadata, batches);
    lemma_advanced_valid(
        known.metadata,
        made.metadata,
        known.groups,
        known.added,
        mutations,
        "invalid delta mutation image",
    );
}

/// Advancing an indexed projection keeps it too, of the groups of its base
/// segment and of the added rows that its references stand for.
pub proof fn law_advanced_indexed_projection_is_valid(
    known: ProjectionView,
    table: TableDef,
    batches: Seq<RowBatch>,
    current: FileBytes,
    groups: Seq<GroupView>,
    rows: Seq<Seq<ScalarView>>,
)
    requires
        known.lazy is Some,
        overlay::overlay_kept(known.lazy->0.parts.added),
        compact_laws::projection_valid(
            known.metadata,
            groups,
            lazy_scan_laws::overlay_with(known.lazy->0.parts.added, rows),
        ),
        advance::advance_spec(known, table, project::batches_view(batches), current) is Ok,
    ensures
        ({
            let views = project::batches_view(batches);
            let made = advance::advance_spec(known, table, views, current)->Ok_0;
            let mutations = project::projection_of(table.columns@, known.metadata, views)->Ok_0;
            let parts = known.lazy->0.parts;
            let referred = overlay::steps(
                parts.added,
                overlay::all_located(
                    delta_laws::descriptors_of(mutations),
                    parts.deltas.len() as u32,
                ),
                "invalid lazy delta mutation image",
                mutations.len() as int,
            );
            let shown = overlay::steps(
                lazy_scan_laws::overlay_with(parts.added, rows),
                mutations,
                "invalid lazy delta mutation image",
                mutations.len() as int,
            );
            match (referred, shown) {
                (Ok(references), Ok(added)) => {
                    &&& added == lazy_scan_laws::overlay_with(references, added.live_rows)
                    &&& compact_laws::projection_valid(made.metadata, groups, added)
                },
                _ => false,
            }
        }),
{
    let views = project::batches_view(batches);
    let made = advance::advance_spec(known, table, views, current)->Ok_0;
    let mutations = project::projection_of(table.columns@, known.metadata, views)->Ok_0;
    let parts = known.lazy->0.parts;
    let n = mutations.len() as int;
    let invalid = "invalid lazy delta mutation image";
    let before = lazy_scan_laws::overlay_with(parts.added, rows);
    let located = overlay::all_located(
        delta_laws::descriptors_of(mutations),
        parts.deltas.len() as u32,
    );
    law_projected_changes_are_valid(table.columns@, known.metadata, batches);
    let of_reference = |reference: DeltaRowRef| ();
    let of_row = |row: Seq<ScalarView>| ();
    let bare = Seq::new(
        mutations.len(),
        |i: int| advance_laws::mutation_mapped(mutations[i], of_row),
    );
    assert(advance_laws::overlay_mapped(parts.added, of_reference).live_rows
        =~= advance_laws::overlay_mapped(before, of_row).live_rows);
    assert forall|i: int| 0 <= i < n implies #[trigger] bare[i] == advance_laws::mutation_mapped(
        located[i],
        of_reference,
    ) by {}
    advance_laws::law_references_follow_rows(
        parts.added,
        located,
        bare,
        of_reference,
        invalid,
        n,
    );
    advance_laws::law_references_follow_rows(before, mutations, bare, of_row, invalid, n);
    lemma_advanced_valid(known.metadata, made.metadata, groups, before, mutations, invalid);
}

// ---------------------------------------------------------------------------
// Compaction
// ---------------------------------------------------------------------------
/// A scan of a compacted projection gives, for every list of columns, the rows
/// that a scan gave of the projection that was opened in memory, in the same
/// order.
pub proof fn law_opened_projection_compacts(
    s: Seq<u8>,
    table_id: Option<TableId>,
    fingerprint: Option<SchemaFingerprint>,
    base: FileBytes,
    deltas: Seq<FileBytes>,
    opened_paths: Seq<String>,
    table: TableDef,
    generation: ColumnarGeneration,
    columns: Seq<ColumnId>,
    blocks: Seq<Fetched>,
    paths: Seq<String>,
)
    requires
        open::manifest_opened(s, table_id, fingerprint) is Ok,
        open::manifest_opened(s, table_id, fingerprint)->Ok_0.metadata.incremental is Some,
        ({
            let manifest = open::manifest_opened(s, table_id, fingerprint)->Ok_0;
            match open::eager_opened(manifest, base, deltas, opened_paths) {
                Ok(opened) => {
                    let known = opened.metadata;
                    &&& compact::eager_compaction(
                        known,
                        opened.groups,
                        opened.added,
                        table,
                        generation,
                    ) is Ok
                    &&& scan::eager_scan(
                        known,
                        opened.groups,
                        opened.added,
                        columns,
                        Seq::empty(),
                    ) is Ok
                    &&& compact_laws::compacted_readable(
                        known,
                        opened.groups,
                        opened.added,
                        table,
                        generation,
                        columns,
                        blocks,
                        paths,
                    )
                },
                Err(_) => false,
            }
        }),
    ensures
        ({
            let manifest = open::manifest_opened(s, table_id, fingerprint)->Ok_0;
            let opened = open::eager_opened(manifest, base, deltas, opened_paths)->Ok_0;
            let before = scan::eager_scan(
                opened.metadata,
                opened.groups,
                opened.added,
                columns,
                Seq::empty(),
            )->Ok_0.batches;
            let made = compact::eager_compaction(
                opened.metadata,
                opened.groups,
                opened.added,
                table,
                generation,
            )->Ok_0;
            match lazy_scan::lazy_scan(
                made.metadata,
                lazy_scan_laws::fresh_view(made.file.groups, paths),
                columns,
                Seq::empty(),
                blocks,
            ) {
                Ok(found) => scan_laws::batches_rows(found.batches, found.batches.len() as int)
                    == scan_laws::batches_rows(before, before.len() as int),
                Err(_) => false,
            }
        }),
{
    let manifest = open::manifest_opened(s, table_id, fingerprint)->Ok_0;
    let opened = open::eager_opened(manifest, base, deltas, opened_paths)->Ok_0;
    law_opened_projection_is_valid(s, table_id, fingerprint, base, deltas, opened_paths);
    compact_laws::law_compaction_keeps_scans(
        opened.metadata,
        opened.groups,
        opened.added,
        table,
        generation,
        columns,
        blocks,
        paths,
    );
}

/// The same holds of an indexed projection that was opened, where its files hold
/// what its directories say.
pub proof fn law_opened_indexed_projection_compacts(
    s: Seq<u8>,
    table_id: Option<TableId>,
    fingerprint: Option<SchemaFingerprint>,
    manifest_bytes: u64,
    base: FileParts,
    deltas: Seq<FileParts>,
    opened_paths: Seq<String>,
    files: Seq<Seq<u8>>,
    groups: Seq<GroupView>,
    held: Seq<GroupView>,
    rows: Seq<Seq<ScalarView>>,
    table: TableDef,
    generation: ColumnarGeneration,
    base_blocks: Seq<Vec<Fetched>>,
    added_blocks: Seq<Vec<Fetched>>,
    columns: Seq<ColumnId>,
    scan_blocks: Seq<Fetched>,
    blocks: Seq<Fetched>,
    paths: Seq<String>,
)
    requires
        open::manifest_opened(s, table_id, fingerprint) is Ok,
        open::manifest_opened(s, table_id, fingerprint)->Ok_0.metadata.incremental is Some,
        ({
            let manifest = open::manifest_opened(s, table_id, fingerprint)->Ok_0;
            match open::lazy_opened(manifest, manifest_bytes, base, deltas, opened_paths) {
                Ok(opened) => {
                    let known = opened.metadata;
                    let lazy = opened.lazy->0.parts;
                    &&& lazy_scan_laws::projection_stands(known, lazy, files, groups, held, rows)
                    &&& lazy_compact_laws::compaction_fetched(
                        files,
                        lazy,
                        base_blocks,
                        added_blocks,
                    )
                    &&& lazy_scan_laws::fetched_at(
                        files,
                        indexed::scan_requests(lazy, columns, Seq::empty()),
                        scan_blocks,
                        0,
                    )
                    &&& lazy_compact::lazy_compaction(
                        known,
                        lazy,
                        table,
                        generation,
                        base_blocks,
                        added_blocks,
                    ) is Ok
                    &&& lazy_scan::lazy_scan(
                        known,
                        lazy,
                        columns,
                        Seq::empty(),
                        scan_blocks,
                    ) is Ok
                    &&& compact_laws::compacted_readable(
                        known,
                        groups,
                        lazy_scan_laws::overlay_with(lazy.added, rows),
                        table,
                        generation,
                        columns,
                        blocks,
                        paths,
                    )
                },
                Err(_) => false,
            }
        }),
    ensures
        ({
            let manifest = open::manifest_opened(s, table_id, fingerprint)->Ok_0;
            let opened = open::lazy_opened(
                manifest,
                manifest_bytes,
                base,
                deltas,
                opened_paths,
            )->Ok_0;
            let lazy = opened.lazy->0.parts;
            let before = lazy_scan::lazy_scan(
                opened.metadata,
                lazy,
                columns,
                Seq::empty(),
                scan_blocks,
            )->Ok_0.batches;
            let made = lazy_compact::lazy_compaction(
                opened.metadata,
                lazy,
                table,
                generation,
                base_blocks,
                added_blocks,
            )->Ok_0;
            match lazy_scan::lazy_scan(
                made.metadata,
                lazy_scan_laws::fresh_view(made.file.groups, paths),
                columns,
                Seq::empty(),
                blocks,
            ) {
                Ok(found) => scan_laws::batches_rows(found.batches, found.batches.len() as int)
                    == scan_laws::batches_rows(before, before.len() as int),
                Err(_) => false,
            }
        }),
{
    let manifest = open::manifest_opened(s, table_id, fingerprint)->Ok_0;
    let opened = open::lazy_opened(manifest, manifest_bytes, base, deltas, opened_paths)->Ok_0;
    let lazy = opened.lazy->0.parts;
    law_opened_indexed_projection_is_valid(
        s,
        table_id,
        fingerprint,
        manifest_bytes,
        base,
        deltas,
        opened_paths,
        files,
        groups,
        held,
        rows,
    );
    let (_, taken) = open::lazy_base(manifest, base, opened_paths[0])->Ok_0;
    let incremental = opened.metadata.incremental->0;
    lemma_lazy_delta_count(
        opened.metadata,
        incremental.delta_segments,
        deltas,
        opened_paths,
        open::no_deltas(incremental.base_frontier, scan::grown(manifest_bytes, taken as int)),
        incremental.delta_segments.len() as int,
    );
    compact_laws::law_indexed_compaction_keeps_scans(
        opened.metadata,
        lazy,
        files,
        groups,
        held,
        rows,
        table,
        generation,
        base_blocks,
        added_blocks,
        columns,
        scan_blocks,
        blocks,
        paths,
    );
}

proof fn lemma_lazy_delta_count(
    known: MetadataView,
    deltas: Seq<DeltaSegmentView>,
    parts: Seq<FileParts>,
    paths: Seq<String>,
    start: DeltasOpened,
    n: int,
)
    requires
        0 <= n,
        start.groups.len() == 0,
    ensures
        open::lazy_deltas(known, deltas, parts, paths, start, n) matches Ok(all)
            ==> all.groups.len() == n && n <= u32::MAX,
    decreases n,
{
    if n > 0 {
        lemma_lazy_delta_count(known, deltas, parts, paths, start, n - 1);
    }
}

} // verus!
