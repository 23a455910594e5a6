//! Projections: what is read of them, and what is written for them.
use super::advance::{self, PreparedColumnarAdvance};
use super::block::{self, LazyGroupView, LazyRowGroup};
use super::compact;
use super::error::ColumnarError;
use super::feed;
use super::group::{self, ColumnarBatch, GroupView, RowGroup, TableDef};
use super::indexed::{self, LazyProjection, LazyView};
use super::lazy_compact;
use super::lazy_scan;
use super::lazy_segment;
use super::metadata::{ColumnarProjectionMetadata, MetadataView};
use super::open::FileBytes;
use super::overlay::{self, DeltaOverlay, DeltaRowRef, OverlayView};
use super::payload::{BlockRequest, Fetched};
use super::prepare::{self, PreparedColumnarProjection};
use super::project::{self, RowBatch};
use super::scan::{self, ColumnarScanStatistics, Scanned};
use super::statistics::{ColumnarColumnStatistics, ColumnarConstraint, StatisticsView};
use super::vector;
use super::version::StorageSnapshotToken;
use crate::change_stream::stream::ChangeStreamCursor;
use crate::change_stream::types::StorageVersionKey;
use crate::ids::{
    ColumnId, ColumnarGeneration, ColumnarProjectionId, ColumnarSegmentId, StorageId,
};
use crate::value::{Scalar, ScalarValue, ScalarView};
use vstd::prelude::*;
use vstd::utf8;

verus! {

/// A projection, with its segments in memory or with their directories.
#[derive(Debug)]
pub struct ColumnarProjection {
    pub metadata: ColumnarProjectionMetadata,
    pub segment_id: ColumnarSegmentId,
    pub segment_file: String,
    pub row_groups: Vec<RowGroup>,
    pub overlay: DeltaOverlay<Vec<ScalarValue>>,
    pub manifest_format_version: u16,
    pub base_format_version: u16,
    pub delta_format_version: Option<u16>,
    pub lazy: Option<LazyProjection>,
}

/// What is known of an indexed projection, and how many bytes it takes.
pub struct IndexedView {
    pub parts: LazyView,
    pub resident_metadata_bytes: u64,
    pub base_index_bytes: u64,
    pub delta_descriptor_bytes: u64,
}

/// What is known of a projection.
pub struct ProjectionView {
    pub metadata: MetadataView,
    pub segment_id: ColumnarSegmentId,
    pub segment_file: Seq<u8>,
    pub groups: Seq<GroupView>,
    pub added: OverlayView<Seq<ScalarView>>,
    pub manifest_format_version: u16,
    pub base_format_version: u16,
    pub delta_format_version: Option<u16>,
    pub lazy: Option<IndexedView>,
}

/// What is known of an indexed projection, if a projection is indexed.
pub open spec fn indexed_view(lazy: Option<LazyProjection>) -> Option<IndexedView> {
    match lazy {
        None => None,
        Some(known) => Some(
            IndexedView {
                parts: known@,
                resident_metadata_bytes: known.resident_metadata_bytes,
                base_index_bytes: known.base_index_bytes,
                delta_descriptor_bytes: known.delta_descriptor_bytes,
            },
        ),
    }
}

impl View for ColumnarProjection {
    type V = ProjectionView;

    open spec fn view(&self) -> ProjectionView {
        ProjectionView {
            metadata: self.metadata@,
            segment_id: self.segment_id,
            segment_file: utf8::encode_utf8(self.segment_file@),
            groups: group::groups_view(self.row_groups@),
            added: overlay::values_overlay(self.overlay@),
            manifest_format_version: self.manifest_format_version,
            base_format_version: self.base_format_version,
            delta_format_version: self.delta_format_version,
            lazy: indexed_view(self.lazy),
        }
    }
}

// ---------------------------------------------------------------------------
// Statistics
// ---------------------------------------------------------------------------
/// The statistics of one group.
#[derive(Debug)]
pub struct ColumnarRowGroupStatistics {
    pub rows: u32,
    pub columns: Vec<(ColumnId, ColumnarColumnStatistics)>,
}

/// What the statistics of one group say.
pub struct RowGroupStatisticsView {
    pub rows: u32,
    pub columns: Seq<(ColumnId, StatisticsView)>,
}

impl View for ColumnarRowGroupStatistics {
    type V = RowGroupStatisticsView;

    open spec fn view(&self) -> RowGroupStatisticsView {
        RowGroupStatisticsView {
            rows: self.rows,
            columns: group::statistics_view(self.columns@),
        }
    }
}

/// What the statistics of groups say.
pub open spec fn group_statistics_view(list: Seq<ColumnarRowGroupStatistics>) -> Seq<
    RowGroupStatisticsView,
> {
    list.map_values(|known: ColumnarRowGroupStatistics| known@)
}

/// The statistics of a projection's groups.
pub open spec fn group_statistics_of(known: ProjectionView) -> Seq<RowGroupStatisticsView> {
    match known.lazy {
        Some(lazy) => lazy.parts.base_groups.map_values(
            |entry: LazyGroupView|
                RowGroupStatisticsView {
                    rows: entry.rows,
                    columns: block::directory_statistics(entry),
                },
        ),
        None => known.groups.map_values(
            |entry: GroupView|
                RowGroupStatisticsView { rows: entry.rows, columns: entry.statistics },
        ),
    }
}

/// How a projection is held in memory, and what that takes.
#[derive(Debug, Clone, Copy, PartialEq, Eq)]
pub struct ColumnarRepresentationStatistics {
    pub representation: &'static str,
    pub manifest_format_version: u16,
    pub base_format_version: u16,
    pub delta_format_version: Option<u16>,
    pub resident_metadata_bytes: u64,
    pub resident_payload_bytes: u64,
    pub indexed_base_chunks: u64,
    pub indexed_delta_chunks: u64,
    pub indexed_delta_row_references: u64,
    pub resident_suppressed_version_bytes: u64,
    pub resident_delta_row_reference_bytes: u64,
    pub base_index_bytes: u64,
    pub delta_descriptor_bytes: u64,
    pub base_block_count: u64,
    pub delta_block_count: u64,
}

/// How many columns the first `n` indexed groups have together.
pub open spec fn chunk_count(groups: Seq<LazyGroupView>, n: int) -> u64
    decreases n,
{
    if n <= 0 {
        0
    } else {
        scan::grown(chunk_count(groups, n - 1), groups[n - 1].columns.len() as int)
    }
}

/// How many blocks the first `n` indexed groups have together.
pub open spec fn block_count(groups: Seq<LazyGroupView>, n: int) -> u64
    decreases n,
{
    if n <= 0 {
        0
    } else {
        scan::grown(
            block_count(groups, n - 1),
            groups[n - 1].columns.len() + if groups[n - 1].source_versions is Some {
                1int
            } else {
                0
            },
        )
    }
}

/// How many columns the groups of the first `n` delta segments have together.
pub open spec fn delta_chunk_count(deltas: Seq<Seq<LazyGroupView>>, n: int) -> u64
    decreases n,
{
    if n <= 0 {
        0
    } else {
        scan::grown(
            delta_chunk_count(deltas, n - 1),
            chunk_count(deltas[n - 1], deltas[n - 1].len() as int) as int,
        )
    }
}

/// How many bytes so many things of a size take; more than can be counted is the
/// largest count.
pub open spec fn total_size(count: nat, size: nat) -> u64 {
    if count * size > u64::MAX {
        u64::MAX
    } else {
        (count * size) as u64
    }
}

/// How many bytes a value takes.
pub open spec fn resident_bytes(value: ScalarView) -> int {
    match value {
        Scalar::Null => 0,
        Scalar::Bool(_) => 1,
        Scalar::Int64(_) => 8,
        Scalar::UInt64(_) => 8,
        Scalar::Text(text) => text.len() as int,
    }
}

/// A count grown by what the first `n` values of a row take.
pub open spec fn grown_by_row(count: u64, row: Seq<ScalarView>, n: int) -> u64
    decreases n,
{
    if n <= 0 {
        count
    } else {
        scan::grown(grown_by_row(count, row, n - 1), resident_bytes(row[n - 1]))
    }
}

/// A count grown by what the first `n` rows take.
pub open spec fn grown_by_rows(count: u64, rows: Seq<Seq<ScalarView>>, n: int) -> u64
    decreases n,
{
    if n <= 0 {
        count
    } else {
        grown_by_row(
            grown_by_rows(count, rows, n - 1),
            rows[n - 1],
            rows[n - 1].len() as int,
        )
    }
}

/// A count grown by what the columns of the first `n` groups take.
pub open spec fn grown_by_groups(count: u64, groups: Seq<GroupView>, n: int) -> u64
    decreases n,
{
    if n <= 0 {
        count
    } else {
        scan::grown_by_sizes(
            grown_by_groups(count, groups, n - 1),
            groups[n - 1].columns,
            groups[n - 1].columns.len() as int,
        )
    }
}

/// How an indexed projection is held in memory.
pub open spec fn lazy_statistics(known: ProjectionView, lazy: IndexedView)
    -> ColumnarRepresentationStatistics {
    let base = lazy.parts.base_groups;
    let deltas = lazy.parts.deltas;
    let key_size = vstd::layout::size_of::<StorageVersionKey>();
    let row_size = vstd::layout::size_of::<DeltaRowRef>();
    ColumnarRepresentationStatistics {
        representation: "lazy-indexed",
        manifest_format_version: known.manifest_format_version,
        base_format_version: known.base_format_version,
        delta_format_version: known.delta_format_version,
        resident_metadata_bytes: lazy.resident_metadata_bytes,
        resident_payload_bytes: 0,
        indexed_base_chunks: chunk_count(base, base.len() as int),
        indexed_delta_chunks: delta_chunk_count(deltas, deltas.len() as int),
        indexed_delta_row_references: lazy.parts.added.live_keys.len() as u64,
        resident_suppressed_version_bytes: total_size(
            lazy.parts.added.suppressed.len(),
            key_size,
        ),
        resident_delta_row_reference_bytes: total_size(
            lazy.parts.added.live_keys.len(),
            key_size + row_size,
        ),
        base_index_bytes: lazy.base_index_bytes,
        delta_descriptor_bytes: lazy.delta_descriptor_bytes,
        base_block_count: block_count(base, base.len() as int),
        delta_block_count: delta_chunk_count(deltas, deltas.len() as int),
    }
}

/// How a projection with its segments in memory is held.
pub open spec fn eager_statistics(known: ProjectionView) -> ColumnarRepresentationStatistics {
    let rows = known.added.live_rows;
    ColumnarRepresentationStatistics {
        representation: "legacy-eager",
        manifest_format_version: known.manifest_format_version,
        base_format_version: known.base_format_version,
        delta_format_version: known.delta_format_version,
        resident_metadata_bytes: 0,
        resident_payload_bytes: grown_by_rows(
            grown_by_groups(0, known.groups, known.groups.len() as int),
            rows,
            rows.len() as int,
        ),
        indexed_base_chunks: 0,
        indexed_delta_chunks: 0,
        indexed_delta_row_references: 0,
        resident_suppressed_version_bytes: 0,
        resident_delta_row_reference_bytes: 0,
        base_index_bytes: 0,
        delta_descriptor_bytes: 0,
        base_block_count: 0,
        delta_block_count: 0,
    }
}

/// How a projection is held in memory.
pub open spec fn statistics_of(known: ProjectionView) -> ColumnarRepresentationStatistics {
    match known.lazy {
        Some(lazy) => lazy_statistics(known, lazy),
        None => eager_statistics(known),
    }
}

fn count_chunks(groups: &[LazyRowGroup]) -> (count: u64)
    ensures
        count == chunk_count(block::lazy_groups_view(groups@), groups@.len() as int),
{
    let ghost known = block::lazy_groups_view(groups@);
    let mut count: u64 = 0;
    let mut i: usize = 0;
    while i < groups.len()
        invariant
            i <= groups@.len(),
            known == block::lazy_groups_view(groups@),
            count == chunk_count(known, i as int),
        decreases groups@.len() - i,
    {
        assert(known[i as int] == groups@[i as int]@);
        count = count.saturating_add(groups[i].columns.len() as u64);
        i = i + 1;
    }
    count
}

fn count_blocks(groups: &[LazyRowGroup]) -> (count: u64)
    ensures
        count == block_count(block::lazy_groups_view(groups@), groups@.len() as int),
{
    let ghost known = block::lazy_groups_view(groups@);
    let mut count: u64 = 0;
    let mut i: usize = 0;
    while i < groups.len()
        invariant
            i <= groups@.len(),
            known == block::lazy_groups_view(groups@),
            count == block_count(known, i as int),
        decreases groups@.len() - i,
    {
        assert(known[i as int] == groups@[i as int]@);
        let more: u64 = if groups[i].source_versions.is_some() {
            1
        } else {
            0
        };
        count = count.saturating_add(groups[i].columns.len() as u64).saturating_add(more);
        i = i + 1;
    }
    count
}

fn count_delta_chunks(deltas: &[indexed::LazyDeltaSegment]) -> (count: u64)
    ensures
        count == delta_chunk_count(indexed::delta_groups_view(deltas@), deltas@.len() as int),
{
    let ghost known = indexed::delta_groups_view(deltas@);
    let mut count: u64 = 0;
    let mut i: usize = 0;
    while i < deltas.len()
        invariant
            i <= deltas@.len(),
            known == indexed::delta_groups_view(deltas@),
            count == delta_chunk_count(known, i as int),
        decreases deltas@.len() - i,
    {
        assert(known[i as int] == block::lazy_groups_view(deltas@[i as int].groups@));
        count = count.saturating_add(count_chunks(deltas[i].groups.as_slice()));
        i = i + 1;
    }
    count
}

fn size_of_all(count: usize, size: usize) -> (total: u64)
    ensures
        total == total_size(count as nat, size as nat),
{
    let wide: u128 = count as u128;
    let unit: u128 = size as u128;
    assert(wide * unit <= u128::MAX) by (nonlinear_arith)
        requires
            wide <= u64::MAX,
            unit <= u64::MAX,
    ;
    let total: u128 = wide * unit;
    if total > u64::MAX as u128 {
        u64::MAX
    } else {
        total as u64
    }
}

proof fn lemma_total_size(count: nat, left: nat, right: nat)
    ensures
        total_size(count, left + right) == scan::grown(
            total_size(count, left),
            total_size(count, right) as int,
        ),
{
    assert(count * (left + right) == count * left + count * right) by (nonlinear_arith);
    assert(count * left >= 0 && count * right >= 0) by (nonlinear_arith);
}

/// How many bytes a value takes.
pub fn scalar_resident_bytes(value: &ScalarValue) -> (size: u64)
    ensures
        size == resident_bytes(crate::value::scalar_view(*value)),
{
    match value {
        Scalar::Null => 0,
        Scalar::Bool(_) => 1,
        Scalar::Int64(_) => 8,
        Scalar::UInt64(_) => 8,
        Scalar::Text(text) => text.as_str().as_bytes().len() as u64,
    }
}

fn grow_by_row(count: u64, row: &[ScalarValue]) -> (total: u64)
    ensures
        total == grown_by_row(count, crate::value::row_view(row@), row@.len() as int),
{
    let ghost known = crate::value::row_view(row@);
    let mut total: u64 = count;
    let mut i: usize = 0;
    while i < row.len()
        invariant
            i <= row@.len(),
            known == crate::value::row_view(row@),
            total == grown_by_row(count, known, i as int),
        decreases row@.len() - i,
    {
        total = total.saturating_add(scalar_resident_bytes(&row[i]));
        i = i + 1;
    }
    total
}

fn grow_by_rows(count: u64, rows: &[Vec<ScalarValue>]) -> (total: u64)
    ensures
        total == grown_by_rows(count, vector::rows_view(rows@), rows@.len() as int),
{
    let ghost known = vector::rows_view(rows@);
    let mut total: u64 = count;
    let mut i: usize = 0;
    while i < rows.len()
        invariant
            i <= rows@.len(),
            known == vector::rows_view(rows@),
            total == grown_by_rows(count, known, i as int),
        decreases rows@.len() - i,
    {
        assert(known[i as int] == crate::value::row_view(rows@[i as int]@));
        total = grow_by_row(total, rows[i].as_slice());
        i = i + 1;
    }
    total
}

fn grow_by_groups(count: u64, groups: &[RowGroup]) -> (total: u64)
    ensures
        total == grown_by_groups(count, group::groups_view(groups@), groups@.len() as int),
{
    let ghost known = group::groups_view(groups@);
    let mut total: u64 = count;
    let mut i: usize = 0;
    while i < groups.len()
        invariant
            i <= groups@.len(),
            known == group::groups_view(groups@),
            total == grown_by_groups(count, known, i as int),
        decreases groups@.len() - i,
    {
        assert(known[i as int] == groups@[i as int]@);
        total = scan::grow_by_sizes(total, groups[i].columns.as_slice());
        i = i + 1;
    }
    total
}

fn copy_statistics_list(list: &[(ColumnId, ColumnarColumnStatistics)]) -> (copy: Vec<
    (ColumnId, ColumnarColumnStatistics),
>)
    ensures
        group::statistics_view(copy@) == group::statistics_view(list@),
{
    let ghost whole = group::statistics_view(list@);
    let mut copy: Vec<(ColumnId, ColumnarColumnStatistics)> = Vec::new();
    let mut i: usize = 0;
    while i < list.len()
        invariant
            i <= list@.len(),
            whole == group::statistics_view(list@),
            group::statistics_view(copy@) == whole.take(i as int),
        decreases list@.len() - i,
    {
        let ghost before = group::statistics_view(copy@);
        copy.push((list[i].0, lazy_segment::copy_statistics(&list[i].1)));
        i = i + 1;
        assert(group::statistics_view(copy@) =~= before.push(whole[i - 1]));
        assert(before.push(whole[i - 1]) =~= whole.take(i as int));
    }
    assert(group::statistics_view(copy@) =~= whole);
    copy
}

fn list_statistics(known: &LazyRowGroup) -> (list: Vec<(ColumnId, ColumnarColumnStatistics)>)
    ensures
        group::statistics_view(list@) == block::directory_statistics(known@),
{
    let ghost whole = block::directory_statistics(known@);
    let mut list: Vec<(ColumnId, ColumnarColumnStatistics)> = Vec::new();
    let mut i: usize = 0;
    while i < known.columns.len()
        invariant
            i <= known.columns@.len(),
            whole == block::directory_statistics(known@),
            group::statistics_view(list@) == whole.take(i as int),
        decreases known.columns@.len() - i,
    {
        let ghost before = group::statistics_view(list@);
        assert(known@.columns[i as int] == known.columns@[i as int]@);
        list.push(
            (
                known.columns[i].spec.column_id,
                lazy_segment::copy_statistics(&known.columns[i].statistics),
            ),
        );
        i = i + 1;
        assert(group::statistics_view(list@) =~= before.push(whole[i - 1]));
        assert(before.push(whole[i - 1]) =~= whole.take(i as int));
    }
    assert(group::statistics_view(list@) =~= whole);
    list
}

// ---------------------------------------------------------------------------
// Projections
// ---------------------------------------------------------------------------
/// The blocks that a scan of a projection needs.
pub open spec fn scan_needs(
    known: ProjectionView,
    columns: Seq<ColumnId>,
    constraints: Seq<ColumnarConstraint>,
) -> Seq<BlockRequest> {
    match known.lazy {
        Some(lazy) => indexed::scan_requests(lazy.parts, columns, constraints),
        None => Seq::empty(),
    }
}

/// The scan of a projection, out of the blocks that it needs.
pub open spec fn scan_spec(
    known: ProjectionView,
    columns: Seq<ColumnId>,
    constraints: Seq<ColumnarConstraint>,
    blocks: Seq<Fetched>,
) -> Result<Scanned, ColumnarError> {
    match known.lazy {
        Some(lazy) => lazy_scan::lazy_scan(
            known.metadata,
            lazy.parts,
            columns,
            constraints,
            blocks,
        ),
        None => scan::eager_scan(
            known.metadata,
            known.groups,
            known.added,
            columns,
            constraints,
        ),
    }
}

/// The rows of a projection, as offers to its compacted base segment.
pub open spec fn compaction_offers(
    known: ProjectionView,
    base_blocks: Seq<Vec<Fetched>>,
    added_blocks: Seq<Vec<Fetched>>,
) -> Seq<feed::Offer> {
    match known.lazy {
        Some(lazy) => lazy_compact::lazy_offers(
            known.metadata,
            lazy.parts,
            base_blocks,
            added_blocks,
        ),
        None => compact::eager_offers(known.groups, known.added),
    }
}

/// The compaction of a projection, out of the blocks that it needs.
pub open spec fn compaction_spec(
    known: ProjectionView,
    table: TableDef,
    generation: ColumnarGeneration,
    base_blocks: Seq<Vec<Fetched>>,
    added_blocks: Seq<Vec<Fetched>>,
) -> Result<prepare::PreparedView, ColumnarError> {
    match known.lazy {
        Some(lazy) => lazy_compact::lazy_compaction(
            known.metadata,
            lazy.parts,
            table,
            generation,
            base_blocks,
            added_blocks,
        ),
        None => compact::eager_compaction(
            known.metadata,
            known.groups,
            known.added,
            table,
            generation,
        ),
    }
}

/// The names of a projection's segment files, the base segment's first.
pub open spec fn segment_names(known: ProjectionView) -> Seq<Seq<u8>> {
    seq![known.segment_file] + match known.metadata.incremental {
        Some(incremental) => incremental.delta_segments.map_values(
            |delta: super::metadata::DeltaSegmentView| delta.file,
        ),
        None => Seq::empty(),
    }
}

impl ColumnarProjection {
    /// Whether groups have rows in all their columns, overlays are in order, and
    /// added rows have a value for each column.
    pub open spec fn wf(&self) -> bool {
        &&& forall|i: int|
            0 <= i < self.row_groups@.len() ==> scan::group_sound(
                (#[trigger] self.row_groups@[i])@,
            )
        &&& overlay::overlay_kept(self.overlay@)
        &&& scan::rows_sound(self@.added.live_rows, self.metadata.columns@.len())
        &&& self.lazy matches Some(lazy) ==> indexed::indexed_kept(lazy@)
    }

    /// Prepares a snapshot projection of rows.
    pub fn prepare(
        id: ColumnarProjectionId,
        generation: ColumnarGeneration,
        table: &TableDef,
        source_storage_id: StorageId,
        source_token: StorageSnapshotToken,
        columns: &[ColumnId],
        rows: &[Vec<ScalarValue>],
        row_group_rows: Option<usize>,
    ) -> (completed: Result<PreparedColumnarProjection, ColumnarError>)
        ensures
            prepare::prepares(
                completed,
                prepare::prepare_spec(
                    prepare::table_order(
                        id,
                        generation,
                        *table,
                        source_storage_id,
                        source_token,
                        None,
                        columns@,
                        row_group_rows,
                    ),
                    *table,
                    columns@,
                    "snapshot storage",
                    prepare::snapshot_offers(columns@.len(), vector::rows_view(rows@)),
                ),
            ),
    {
        prepare::prepare(
            id,
            generation,
            table,
            source_storage_id,
            source_token,
            columns,
            rows,
            row_group_rows,
        )
    }

    /// Prepares a snapshot projection, with one group of rows in memory besides
    /// the bytes.
    pub fn prepare_streaming(
        id: ColumnarProjectionId,
        generation: ColumnarGeneration,
        table: &TableDef,
        source_storage_id: StorageId,
        source_token: StorageSnapshotToken,
        columns: &[ColumnId],
        rows: Vec<Vec<ScalarValue>>,
        row_group_rows: Option<usize>,
    ) -> (completed: Result<PreparedColumnarProjection, ColumnarError>)
        ensures
            prepare::prepares(
                completed,
                prepare::stream_spec(
                    prepare::table_order(
                        id,
                        generation,
                        *table,
                        source_storage_id,
                        source_token,
                        None,
                        columns@,
                        row_group_rows,
                    ),
                    *table,
                    columns@,
                    prepare::snapshot_offers(columns@.len(), vector::rows_view(rows@)),
                ),
            ),
    {
        prepare::prepare_streaming(
            id,
            generation,
            table,
            source_storage_id,
            source_token,
            columns,
            rows,
            row_group_rows,
        )
    }

    /// Prepares an incremental projection of rows and their versions, which are
    /// those at a place in a change stream.
    pub fn prepare_incremental(
        id: ColumnarProjectionId,
        generation: ColumnarGeneration,
        table: &TableDef,
        source_storage_id: StorageId,
        source_token: StorageSnapshotToken,
        cursor: ChangeStreamCursor,
        columns: &[ColumnId],
        rows: &[(StorageVersionKey, Vec<ScalarValue>)],
        row_group_rows: Option<usize>,
    ) -> (completed: Result<PreparedColumnarProjection, ColumnarError>)
        ensures
            prepare::prepares(
                completed,
                prepare::prepare_spec(
                    prepare::table_order(
                        id,
                        generation,
                        *table,
                        source_storage_id,
                        source_token,
                        Some(cursor),
                        columns@,
                        row_group_rows,
                    ),
                    *table,
                    columns@,
                    "incremental source storage",
                    feed::source_offers(
                        source_storage_id,
                        source_token.kind,
                        columns@.len(),
                        feed::rows_with_keys(rows@),
                    ),
                ),
            ),
    {
        prepare::prepare_incremental(
            id,
            generation,
            table,
            source_storage_id,
            source_token,
            cursor,
            columns,
            rows,
            row_group_rows,
        )
    }

    /// Prepares an incremental projection, with one group of rows in memory
    /// besides the bytes and the versions.
    pub fn prepare_incremental_streaming(
        id: ColumnarProjectionId,
        generation: ColumnarGeneration,
        table: &TableDef,
        source_storage_id: StorageId,
        source_token: StorageSnapshotToken,
        cursor: ChangeStreamCursor,
        columns: &[ColumnId],
        rows: Vec<(StorageVersionKey, Vec<ScalarValue>)>,
        row_group_rows: Option<usize>,
    ) -> (completed: Result<PreparedColumnarProjection, ColumnarError>)
        ensures
            prepare::prepares(
                completed,
                prepare::stream_spec(
                    prepare::table_order(
                        id,
                        generation,
                        *table,
                        source_storage_id,
                        source_token,
                        Some(cursor),
                        columns@,
                        row_group_rows,
                    ),
                    *table,
                    columns@,
                    feed::source_offers(
                        source_storage_id,
                        source_token.kind,
                        columns@.len(),
                        feed::rows_with_keys(rows@),
                    ),
                ),
            ),
    {
        prepare::prepare_incremental_streaming(
            id,
            generation,
            table,
            source_storage_id,
            source_token,
            cursor,
            columns,
            rows,
            row_group_rows,
        )
    }

    /// What is known of the projection.
    #[must_use]
    pub fn metadata(&self) -> (known: &ColumnarProjectionMetadata)
        ensures
            *known == self.metadata,
    {
        &self.metadata
    }

    /// The projection's base segment.
    #[must_use]
    pub fn segment_id(&self) -> (segment_id: ColumnarSegmentId)
        ensures
            segment_id == self.segment_id,
    {
        self.segment_id
    }

    /// Whether the projection follows a change stream.
    #[must_use]
    pub fn is_incremental(&self) -> (incremental: bool)
        ensures
            incremental == self@.metadata.incremental is Some,
    {
        self.metadata.incremental.is_some()
    }

    /// The names of the projection's segment files, the base segment's first.
    pub fn segment_files(&self) -> (files: Vec<String>)
        ensures
            files@.map_values(|file: String| utf8::encode_utf8(file@)) == segment_names(self@),
    {
        let ghost whole = segment_names(self@);
        let mut files: Vec<String> = Vec::new();
        files.push(self.segment_file.clone());
        assert(files@.map_values(|file: String| utf8::encode_utf8(file@)) =~= whole.take(1));
        if let Some(incremental) = &self.metadata.incremental {
            let mut i: usize = 0;
            while i < incremental.delta_segments.len()
                invariant
                    i <= incremental.delta_segments@.len(),
                    self@.metadata.incremental == Some(incremental@),
                    whole == segment_names(self@),
                    files@.map_values(|file: String| utf8::encode_utf8(file@)) == whole.take(i + 1),
                decreases incremental.delta_segments@.len() - i,
            {
                let ghost before = files@.map_values(|file: String| utf8::encode_utf8(file@));
                files.push(incremental.delta_segments[i].file.clone());
                i = i + 1;
                assert(files@.map_values(|file: String| utf8::encode_utf8(file@)) =~= before.push(
                    whole[i as int],
                ));
                assert(before.push(whole[i as int]) =~= whole.take(i + 1));
            }
        }
        assert(files@.map_values(|file: String| utf8::encode_utf8(file@)) =~= whole);
        files
    }

    /// How the projection is held in memory.
    #[must_use]
    pub fn representation_statistics(&self) -> (statistics: ColumnarRepresentationStatistics)
        ensures
            statistics == statistics_of(self@),
    {
        match &self.lazy {
            Some(lazy) => {
                let key_size: usize = core::mem::size_of::<StorageVersionKey>();
                let row_size: usize = core::mem::size_of::<DeltaRowRef>();
                proof {
                    lemma_total_size(
                        lazy.overlay.live_keys@.len(),
                        key_size as nat,
                        row_size as nat,
                    );
                }
                ColumnarRepresentationStatistics {
                    representation: "lazy-indexed",
                    manifest_format_version: self.manifest_format_version,
                    base_format_version: self.base_format_version,
                    delta_format_version: self.delta_format_version,
                    resident_metadata_bytes: lazy.resident_metadata_bytes,
                    resident_payload_bytes: 0,
                    indexed_base_chunks: count_chunks(lazy.base_groups.as_slice()),
                    indexed_delta_chunks: count_delta_chunks(lazy.deltas.as_slice()),
                    indexed_delta_row_references: lazy.overlay.live_keys.len() as u64,
                    resident_suppressed_version_bytes: size_of_all(
                        lazy.overlay.suppressed.len(),
                        key_size,
                    ),
                    resident_delta_row_reference_bytes: size_of_all(
                        lazy.overlay.live_keys.len(),
                        key_size,
                    ).saturating_add(size_of_all(lazy.overlay.live_keys.len(), row_size)),
                    base_index_bytes: lazy.base_index_bytes,
                    delta_descriptor_bytes: lazy.delta_descriptor_bytes,
                    base_block_count: count_blocks(lazy.base_groups.as_slice()),
                    delta_block_count: count_delta_chunks(lazy.deltas.as_slice()),
                }
            },
            None => {
                let payload: u64 = grow_by_groups(0, self.row_groups.as_slice());
                assert(vector::rows_view(self.overlay.live_rows@) =~= self@.added.live_rows);
                ColumnarRepresentationStatistics {
                    representation: "legacy-eager",
                    manifest_format_version: self.manifest_format_version,
                    base_format_version: self.base_format_version,
                    delta_format_version: self.delta_format_version,
                    resident_metadata_bytes: 0,
                    resident_payload_bytes: grow_by_rows(
                        payload,
                        self.overlay.live_rows.as_slice(),
                    ),
                    indexed_base_chunks: 0,
                    indexed_delta_chunks: 0,
                    indexed_delta_row_references: 0,
                    resident_suppressed_version_bytes: 0,
                    resident_delta_row_reference_bytes: 0,
                    base_index_bytes: 0,
                    delta_descriptor_bytes: 0,
                    base_block_count: 0,
                    delta_block_count: 0,
                }
            },
        }
    }

    /// The statistics of the projection's groups.
    #[must_use]
    pub fn row_group_statistics(&self) -> (list: Vec<ColumnarRowGroupStatistics>)
        ensures
            group_statistics_view(list@) == group_statistics_of(self@),
    {
        let ghost whole = group_statistics_of(self@);
        let mut list: Vec<ColumnarRowGroupStatistics> = Vec::new();
        assert(group_statistics_view(list@) =~= whole.take(0));
        match &self.lazy {
            Some(lazy) => {
                let mut i: usize = 0;
                while i < lazy.base_groups.len()
                    invariant
                        i <= lazy.base_groups@.len(),
                        self@.lazy is Some,
                        self@.lazy->0.parts == lazy@,
                        whole == group_statistics_of(self@),
                        group_statistics_view(list@) == whole.take(i as int),
                    decreases lazy.base_groups@.len() - i,
                {
                    let known: &LazyRowGroup = &lazy.base_groups[i];
                    let ghost before = group_statistics_view(list@);
                    assert(lazy@.base_groups[i as int] == known@);
                    list.push(
                        ColumnarRowGroupStatistics {
                            rows: known.rows,
                            columns: list_statistics(known),
                        },
                    );
                    i = i + 1;
                    assert(group_statistics_view(list@) =~= before.push(whole[i - 1]));
                    assert(before.push(whole[i - 1]) =~= whole.take(i as int));
                }
            },
            None => {
                let mut i: usize = 0;
                while i < self.row_groups.len()
                    invariant
                        i <= self.row_groups@.len(),
                        self@.lazy is None,
                        whole == group_statistics_of(self@),
                        group_statistics_view(list@) == whole.take(i as int),
                    decreases self.row_groups@.len() - i,
                {
                    let known: &RowGroup = &self.row_groups[i];
                    let ghost before = group_statistics_view(list@);
                    assert(self@.groups[i as int] == known@);
                    list.push(
                        ColumnarRowGroupStatistics {
                            rows: known.rows,
                            columns: copy_statistics_list(known.statistics.as_slice()),
                        },
                    );
                    i = i + 1;
                    assert(group_statistics_view(list@) =~= before.push(whole[i - 1]));
                    assert(before.push(whole[i - 1]) =~= whole.take(i as int));
                }
            },
        }
        assert(group_statistics_view(list@) =~= whole);
        list
    }

    /// The blocks that a scan needs, in the order in which it reads them.
    pub fn plan_scan(&self, columns: &[ColumnId], constraints: &[ColumnarConstraint]) -> (requests:
        Vec<BlockRequest>)
        requires
            self.wf(),
        ensures
            requests@ == scan_needs(self@, columns@, constraints@),
    {
        match &self.lazy {
            Some(lazy) => indexed::plan_scan(lazy, columns, constraints),
            None => Vec::new(),
        }
    }

    /// The rows of the projection, as batches of the wanted columns. Groups whose
    /// statistics rule every row out are left out.
    pub fn scan(
        &self,
        columns: &[ColumnId],
        constraints: &[ColumnarConstraint],
        blocks: &[Fetched],
    ) -> (scanned: Result<(Vec<ColumnarBatch>, ColumnarScanStatistics), ColumnarError>)
        requires
            self.wf(),
            blocks@.len() == scan_needs(self@, columns@, constraints@).len(),
        ensures
            match scan_spec(self@, columns@, constraints@, blocks@) {
                Ok(all) => {
                    &&& scanned is Ok
                    &&& scan::batches_view(scanned->Ok_0.0@) == all.batches
                    &&& scanned->Ok_0.1 == all.statistics
                },
                Err(error) => scanned == Err::<
                    (Vec<ColumnarBatch>, ColumnarScanStatistics),
                    ColumnarError,
                >(error),
            },
    {
        match &self.lazy {
            Some(lazy) => lazy_scan::scan_lazy(
                &self.metadata,
                lazy,
                columns,
                constraints,
                blocks,
            ),
            None => scan::scan_eager(
                &self.metadata,
                self.row_groups.as_slice(),
                &self.overlay,
                columns,
                constraints,
            ),
        }
    }

    /// Advances the projection by contiguous batches of its change stream.
    /// `current` is the manifest that is replaced.
    pub fn prepare_advance(&self, table: &TableDef, batches: &[RowBatch], current: &FileBytes)
        -> (advanced: Result<PreparedColumnarAdvance, ColumnarError>)
        requires
            self.wf(),
        ensures
            advance::advances(
                advanced,
                advance::advance_spec(
                    self@,
                    *table,
                    project::batches_view(batches@),
                    *current,
                ),
            ),
    {
        advance::prepare_advance(self, table, batches, current)
    }

    /// Folds the base segment and the delta segments of the projection into a new
    /// base segment, at the place in the change stream that the projection is at.
    /// An indexed projection needs blocks for each of its groups, and for each row
    /// that delta segments added.
    pub fn prepare_compaction(
        &self,
        table: &TableDef,
        generation: ColumnarGeneration,
        base_blocks: &[Vec<Fetched>],
        added_blocks: &[Vec<Fetched>],
    ) -> (compacted: Result<PreparedColumnarProjection, ColumnarError>)
        requires
            self.wf(),
            self.lazy matches Some(lazy) ==> lazy_compact::has_blocks(
                lazy@,
                base_blocks@,
                added_blocks@,
            ),
        ensures
            compaction_offers(self@, base_blocks@, added_blocks@).len() <= u64::MAX
                ==> prepare::prepares(
                compacted,
                compaction_spec(self@, *table, generation, base_blocks@, added_blocks@),
            ),
    {
        match &self.lazy {
            Some(lazy) => lazy_compact::prepare_lazy_compaction(
                &self.metadata,
                lazy,
                table,
                generation,
                base_blocks,
                added_blocks,
            ),
            None => compact::compact_eager(
                &self.metadata,
                self.row_groups.as_slice(),
                &self.overlay,
                table,
                generation,
            ),
        }
    }
}

} // verus!
