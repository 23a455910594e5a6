//! Scans: the rows of a projection, as batches of the wanted columns.
use super::error::ColumnarError;
use super::group::{self, ColumnarBatch, ColumnarBatchColumn, GroupView, RowGroup};
use super::metadata::{ColumnarProjectionMetadata, MetadataView};
use super::overlay::{self, DeltaOverlay, OverlayView};
use super::select;
use super::statistics::ColumnarConstraint;
use super::vector::{self, ColumnarColumnSpec, ColumnarVector, VectorView};
use crate::change_stream::types::StorageVersionKey;
use crate::ids::ColumnId;
use crate::value::{self, ScalarValue, ScalarView};
use vstd::prelude::*;

verus! {

// ---------------------------------------------------------------------------
// Statistics
// ---------------------------------------------------------------------------
/// What a scan read.
#[derive(Debug, Clone, Copy, PartialEq, Eq, Structural)]
pub struct ColumnarScanStatistics {
    pub row_groups_total: u64,
    pub row_groups_read: u64,
    pub row_groups_pruned: u64,
    pub rows_read: u64,
    pub column_chunks_read: u64,
    pub bytes_read: u64,
    pub base_rows_suppressed: u64,
    pub delta_segments: u64,
    pub delta_mutations: u64,
    pub delta_live_rows: u64,
    pub delta_rows_emitted: u64,
    pub delta_bytes_read: u64,
    pub merged_rows: u64,
    /// Blocks that were read for the scan.
    pub physical_block_reads: u64,
    /// Bytes of the blocks that were read.
    pub physical_bytes_read: u64,
    /// Columns that were read from blocks.
    pub decoded_column_chunks: u64,
    /// Blocks of row versions that were read.
    pub decoded_version_blocks: u64,
    pub base_data_bytes_read: u64,
    pub base_version_key_bytes_read: u64,
    pub delta_data_bytes_read: u64,
    pub version_key_chunks_read: u64,
    pub blocks_verified: u64,
    pub row_groups_pruned_before_data_read: u64,
}

/// The statistics of a scan that has read nothing.
pub open spec fn no_statistics() -> ColumnarScanStatistics {
    ColumnarScanStatistics {
        row_groups_total: 0,
        row_groups_read: 0,
        row_groups_pruned: 0,
        rows_read: 0,
        column_chunks_read: 0,
        bytes_read: 0,
        base_rows_suppressed: 0,
        delta_segments: 0,
        delta_mutations: 0,
        delta_live_rows: 0,
        delta_rows_emitted: 0,
        delta_bytes_read: 0,
        merged_rows: 0,
        physical_block_reads: 0,
        physical_bytes_read: 0,
        decoded_column_chunks: 0,
        decoded_version_blocks: 0,
        base_data_bytes_read: 0,
        base_version_key_bytes_read: 0,
        delta_data_bytes_read: 0,
        version_key_chunks_read: 0,
        blocks_verified: 0,
        row_groups_pruned_before_data_read: 0,
    }
}

impl Default for ColumnarScanStatistics {
    fn default() -> (statistics: Self)
        ensures
            statistics == no_statistics(),
    {
        ColumnarScanStatistics {
            row_groups_total: 0,
            row_groups_read: 0,
            row_groups_pruned: 0,
            rows_read: 0,
            column_chunks_read: 0,
            bytes_read: 0,
            base_rows_suppressed: 0,
            delta_segments: 0,
            delta_mutations: 0,
            delta_live_rows: 0,
            delta_rows_emitted: 0,
            delta_bytes_read: 0,
            merged_rows: 0,
            physical_block_reads: 0,
            physical_bytes_read: 0,
            decoded_column_chunks: 0,
            decoded_version_blocks: 0,
            base_data_bytes_read: 0,
            base_version_key_bytes_read: 0,
            delta_data_bytes_read: 0,
            version_key_chunks_read: 0,
            blocks_verified: 0,
            row_groups_pruned_before_data_read: 0,
        }
    }
}

/// A count grown by some; one that does not fit is the largest count.
pub open spec fn grown(count: u64, by: int) -> u64 {
    if count + by > u64::MAX {
        u64::MAX
    } else {
        (count + by) as u64
    }
}

/// A count grown by the sizes of the first `n` columns.
pub open spec fn grown_by_sizes(count: u64, columns: Seq<(ColumnId, VectorView)>, n: int) -> u64
    decreases n,
{
    if n <= 0 {
        count
    } else {
        grown(
            grown_by_sizes(count, columns, n - 1),
            select::encoded_size(columns[n - 1].1) as int,
        )
    }
}

/// Grows a count by the sizes of columns.
pub fn grow_by_sizes(count: u64, columns: &[ColumnarBatchColumn]) -> (total: u64)
    ensures
        total == grown_by_sizes(
            count,
            group::batch_columns_view(columns@),
            columns@.len() as int,
        ),
{
    let ghost known = group::batch_columns_view(columns@);
    let mut total: u64 = count;
    let mut i: usize = 0;
    while i < columns.len()
        invariant
            i <= columns@.len(),
            known == group::batch_columns_view(columns@),
            total == grown_by_sizes(count, known, i as int),
        decreases columns@.len() - i,
    {
        total = total.saturating_add(select::vector_encoded_bytes(&columns[i].values));
        i = i + 1;
    }
    total
}

// ---------------------------------------------------------------------------
// Batches
// ---------------------------------------------------------------------------
/// What a batch holds.
pub struct BatchView {
    pub row_count: nat,
    pub columns: Seq<(ColumnId, VectorView)>,
}

impl View for ColumnarBatch {
    type V = BatchView;

    open spec fn view(&self) -> BatchView {
        BatchView {
            row_count: self.row_count as nat,
            columns: group::batch_columns_view(self.columns@),
        }
    }
}

/// What batches hold.
pub open spec fn batches_view(batches: Seq<ColumnarBatch>) -> Seq<BatchView> {
    batches.map_values(|batch: ColumnarBatch| batch@)
}

/// Batches and what was read for them.
pub struct Scanned {
    pub batches: Seq<BatchView>,
    pub statistics: ColumnarScanStatistics,
}

/// The places of all rows.
pub open spec fn all_rows(rows: nat) -> Seq<usize> {
    Seq::new(rows, |i: int| i as usize)
}

/// The places of those of the first `n` row versions that were not replaced.
pub open spec fn kept_rows(
    keys: Seq<StorageVersionKey>,
    suppressed: Seq<StorageVersionKey>,
    n: int,
) -> Seq<usize>
    decreases n,
{
    if n <= 0 {
        Seq::empty()
    } else if suppressed.contains(keys[n - 1]) {
        kept_rows(keys, suppressed, n - 1)
    } else {
        kept_rows(keys, suppressed, n - 1).push((n - 1) as usize)
    }
}

/// Kept rows ascend, and each is a row whose version was not replaced.
pub proof fn lemma_kept_rows(
    keys: Seq<StorageVersionKey>,
    suppressed: Seq<StorageVersionKey>,
    n: int,
)
    requires
        0 <= n <= keys.len(),
        n <= usize::MAX,
    ensures
        kept_rows(keys, suppressed, n).len() <= n,
        forall|i: int|
            0 <= i < kept_rows(keys, suppressed, n).len() ==> {
                &&& (#[trigger] kept_rows(keys, suppressed, n)[i]) < n
                &&& !suppressed.contains(keys[kept_rows(keys, suppressed, n)[i] as int])
            },
        forall|i: int, j: int|
            0 <= i < j < kept_rows(keys, suppressed, n).len() ==> kept_rows(
                keys,
                suppressed,
                n,
            )[i] < kept_rows(keys, suppressed, n)[j],
        forall|row: int|
            0 <= row < n && !suppressed.contains(#[trigger] keys[row]) ==> kept_rows(
                keys,
                suppressed,
                n,
            ).contains(row as usize),
    decreases n,
{
    if n > 0 {
        lemma_kept_rows(keys, suppressed, n - 1);
        let before = kept_rows(keys, suppressed, n - 1);
        let after = kept_rows(keys, suppressed, n);
        assert forall|row: int|
            0 <= row < n && !suppressed.contains(#[trigger] keys[row]) implies after.contains(
            row as usize,
        ) by {
            if row < n - 1 {
                let i = choose|i: int| 0 <= i < before.len() && before[i] == row as usize;
                assert(after[i] == row as usize);
            } else {
                assert(after[after.len() - 1] == row as usize);
            }
        }
    }
}

/// The places of all rows.
pub fn list_rows(rows: usize) -> (list: Vec<usize>)
    ensures
        list@ == all_rows(rows as nat),
{
    let mut list: Vec<usize> = Vec::new();
    let mut i: usize = 0;
    while i < rows
        invariant
            i <= rows,
            list@ == all_rows(i as nat),
        decreases rows - i,
    {
        list.push(i);
        i = i + 1;
        assert(list@ =~= all_rows(i as nat));
    }
    list
}

/// The places of the row versions that were not replaced.
pub fn retain_rows(keys: &[StorageVersionKey], suppressed: &[StorageVersionKey]) -> (kept: Vec<
    usize,
>)
    requires
        overlay::ascending(suppressed@),
    ensures
        kept@ == kept_rows(keys@, suppressed@, keys@.len() as int),
        kept@.len() <= keys@.len(),
{
    let mut kept: Vec<usize> = Vec::new();
    let mut i: usize = 0;
    while i < keys.len()
        invariant
            i <= keys@.len(),
            overlay::ascending(suppressed@),
            kept@ == kept_rows(keys@, suppressed@, i as int),
            kept@.len() <= i,
        decreases keys@.len() - i,
    {
        if !overlay::search(suppressed, keys[i]).1 {
            kept.push(i);
        }
        i = i + 1;
    }
    kept
}

// ---------------------------------------------------------------------------
// Wanted columns
// ---------------------------------------------------------------------------
/// Why the first `n` wanted columns are not of the projection, if they are not.
pub open spec fn unknown_error(
    specs: Seq<ColumnarColumnSpec>,
    columns: Seq<ColumnId>,
    n: int,
) -> Option<ColumnarError>
    decreases n,
{
    if n <= 0 {
        None
    } else if unknown_error(specs, columns, n - 1) is Some {
        unknown_error(specs, columns, n - 1)
    } else if group::place_of(group::spec_ids(specs), columns[n - 1]) is None {
        Some(ColumnarError::UnknownColumn(columns[n - 1]))
    } else {
        None
    }
}

proof fn lemma_unknown_prefix(
    specs: Seq<ColumnarColumnSpec>,
    columns: Seq<ColumnId>,
    n: int,
    m: int,
)
    requires
        n <= m,
        unknown_error(specs, columns, n) is Some,
    ensures
        unknown_error(specs, columns, m) == unknown_error(specs, columns, n),
    decreases m - n,
{
    if n < m {
        lemma_unknown_prefix(specs, columns, n, m - 1);
    }
}

/// Where a wanted column stands in the projection.
pub open spec fn position_of(specs: Seq<ColumnarColumnSpec>, column: ColumnId) -> int {
    group::place_of(group::spec_ids(specs), column)->0
}

/// Where the wanted columns stand in the projection.
pub open spec fn positions_of(specs: Seq<ColumnarColumnSpec>, columns: Seq<ColumnId>) -> Seq<int> {
    columns.map_values(|column: ColumnId| position_of(specs, column))
}

/// The wanted columns.
pub open spec fn wanted(specs: Seq<ColumnarColumnSpec>, columns: Seq<ColumnId>) -> Seq<
    ColumnarColumnSpec,
> {
    columns.map_values(|column: ColumnId| specs[position_of(specs, column)])
}

/// The wanted values of a row.
pub open spec fn wanted_row(
    specs: Seq<ColumnarColumnSpec>,
    columns: Seq<ColumnId>,
    row: Seq<ScalarView>,
) -> Seq<ScalarView> {
    columns.map_values(|column: ColumnId| row[position_of(specs, column)])
}

/// The wanted values of rows.
pub open spec fn wanted_rows(
    specs: Seq<ColumnarColumnSpec>,
    columns: Seq<ColumnId>,
    rows: Seq<Seq<ScalarView>>,
) -> Seq<Seq<ScalarView>> {
    rows.map_values(|row: Seq<ScalarView>| wanted_row(specs, columns, row))
}

/// A column of the projection is where it is found.
pub proof fn lemma_known_column(specs: Seq<ColumnarColumnSpec>, columns: Seq<ColumnId>, i: int)
    requires
        unknown_error(specs, columns, columns.len() as int) is None,
        0 <= i < columns.len(),
    ensures
        group::place_of(group::spec_ids(specs), columns[i]) is Some,
        0 <= position_of(specs, columns[i]) < specs.len(),
        specs[position_of(specs, columns[i])].column_id == columns[i],
{
    if unknown_error(specs, columns, i + 1) is Some {
        lemma_unknown_prefix(specs, columns, i + 1, columns.len() as int);
    }
    group::lemma_place(group::spec_ids(specs), columns[i], 0);
}

/// Where the wanted columns stand in the projection.
pub fn find_wanted(specs: &[ColumnarColumnSpec], columns: &[ColumnId]) -> (places: Result<
    Vec<usize>,
    ColumnarError,
>)
    ensures
        match unknown_error(specs@, columns@, columns@.len() as int) {
            Some(error) => places == Err::<Vec<usize>, ColumnarError>(error),
            None => {
                &&& places is Ok
                &&& places->Ok_0@.len() == columns@.len()
                &&& forall|i: int|
                    0 <= i < columns@.len() ==> {
                        &&& (#[trigger] places->Ok_0@[i]) < specs@.len()
                        &&& places->Ok_0@[i] == position_of(specs@, columns@[i])
                    }
            },
        },
{
    let mut places: Vec<usize> = Vec::new();
    let mut i: usize = 0;
    while i < columns.len()
        invariant
            i <= columns@.len(),
            unknown_error(specs@, columns@, i as int) is None,
            places@.len() == i,
            forall|k: int|
                0 <= k < i ==> {
                    &&& (#[trigger] places@[k]) < specs@.len()
                    &&& places@[k] == position_of(specs@, columns@[k])
                },
        decreases columns@.len() - i,
    {
        proof {
            if unknown_error(specs@, columns@, i + 1) is Some {
                lemma_unknown_prefix(specs@, columns@, i + 1, columns@.len() as int);
            }
        }
        match group::find_spec(specs, columns[i]) {
            Some(place) => {
                places.push(place);
            },
            None => {
                return Err(ColumnarError::UnknownColumn(columns[i]));
            },
        }
        i = i + 1;
    }
    Ok(places)
}

/// The wanted columns, by their places.
pub fn pick_specs(specs: &[ColumnarColumnSpec], columns: &[ColumnId], places: &[usize]) -> (picked:
    Vec<ColumnarColumnSpec>)
    requires
        places@.len() == columns@.len(),
        forall|i: int|
            0 <= i < columns@.len() ==> {
                &&& (#[trigger] places@[i]) < specs@.len()
                &&& places@[i] == position_of(specs@, columns@[i])
            },
    ensures
        picked@ == wanted(specs@, columns@),
{
    let ghost whole = wanted(specs@, columns@);
    let mut picked: Vec<ColumnarColumnSpec> = Vec::new();
    let mut i: usize = 0;
    while i < places.len()
        invariant
            i <= places@.len(),
            places@.len() == columns@.len(),
            whole == wanted(specs@, columns@),
            forall|k: int|
                0 <= k < columns@.len() ==> {
                    &&& (#[trigger] places@[k]) < specs@.len()
                    &&& places@[k] == position_of(specs@, columns@[k])
                },
            picked@ == whole.take(i as int),
        decreases places@.len() - i,
    {
        picked.push(specs[places[i]]);
        i = i + 1;
        assert(picked@ =~= whole.take(i as int));
    }
    assert(picked@ =~= whole);
    picked
}

fn pick_values(
    Ghost(specs): Ghost<Seq<ColumnarColumnSpec>>,
    Ghost(columns): Ghost<Seq<ColumnId>>,
    row: &[ScalarValue],
    places: &[usize],
) -> (picked: Vec<ScalarValue>)
    requires
        places@.len() == columns.len(),
        row@.len() == specs.len(),
        forall|i: int|
            0 <= i < columns.len() ==> {
                &&& (#[trigger] places@[i]) < specs.len()
                &&& places@[i] == position_of(specs, columns[i])
            },
    ensures
        value::row_view(picked@) == wanted_row(specs, columns, value::row_view(row@)),
{
    let ghost whole = wanted_row(specs, columns, value::row_view(row@));
    let mut picked: Vec<ScalarValue> = Vec::new();
    let mut i: usize = 0;
    while i < places.len()
        invariant
            i <= places@.len(),
            places@.len() == columns.len(),
            row@.len() == specs.len(),
            whole == wanted_row(specs, columns, value::row_view(row@)),
            forall|k: int|
                0 <= k < columns.len() ==> {
                    &&& (#[trigger] places@[k]) < specs.len()
                    &&& places@[k] == position_of(specs, columns[k])
                },
            value::row_view(picked@) == whole.take(i as int),
        decreases places@.len() - i,
    {
        let ghost before = value::row_view(picked@);
        picked.push(value::copy_value(&row[places[i]]));
        i = i + 1;
        assert(value::row_view(picked@) =~= before.push(whole[i - 1]));
        assert(before.push(whole[i - 1]) =~= whole.take(i as int));
    }
    assert(value::row_view(picked@) =~= whole);
    picked
}

// ---------------------------------------------------------------------------
// Groups in memory
// ---------------------------------------------------------------------------
/// Whether a group has rows, every column has them, and so have the versions.
pub open spec fn group_sound(known: GroupView) -> bool {
    &&& known.rows > 0
    &&& forall|i: int|
        0 <= i < known.columns.len() ==> {
            &&& vector::well_formed((#[trigger] known.columns[i]).1)
            &&& vector::vector_len(known.columns[i].1) == known.rows
        }
    &&& known.source_versions matches Some(keys) ==> keys.len() == known.rows
}

/// The ids of a group's columns.
pub open spec fn column_ids(columns: Seq<(ColumnId, VectorView)>) -> Seq<ColumnId> {
    columns.map_values(|column: (ColumnId, VectorView)| column.0)
}

/// The rows of a group whose versions were not replaced.
pub open spec fn retained(known: GroupView, suppressed: Seq<StorageVersionKey>) -> Seq<usize> {
    match known.source_versions {
        Some(keys) => kept_rows(keys, suppressed, keys.len() as int),
        None => all_rows(known.rows as nat),
    }
}

/// The first `n` wanted columns of a group, at some of its rows.
pub open spec fn picked_columns(
    known: GroupView,
    columns: Seq<ColumnId>,
    rows: Seq<usize>,
    n: int,
) -> Result<Seq<(ColumnId, VectorView)>, ColumnarError>
    decreases n,
{
    if n <= 0 {
        Ok(Seq::empty())
    } else {
        match picked_columns(known, columns, rows, n - 1) {
            Err(error) => Err(error),
            Ok(earlier) => match group::place_of(column_ids(known.columns), columns[n - 1]) {
                None => Err(ColumnarError::Corrupt("row group is missing a projected column")),
                Some(place) => Ok(
                    earlier.push(
                        (columns[n - 1], select::selected(known.columns[place].1, rows)),
                    ),
                ),
            },
        }
    }
}

proof fn lemma_picked_prefix(
    known: GroupView,
    columns: Seq<ColumnId>,
    rows: Seq<usize>,
    n: int,
    m: int,
)
    requires
        n <= m,
        picked_columns(known, columns, rows, n) is Err,
    ensures
        picked_columns(known, columns, rows, m) == picked_columns(known, columns, rows, n),
    decreases m - n,
{
    if n < m {
        lemma_picked_prefix(known, columns, rows, n, m - 1);
    }
}

/// A scan after one more group.
pub open spec fn group_scanned(
    known: GroupView,
    suppressed: Seq<StorageVersionKey>,
    columns: Seq<ColumnId>,
    constraints: Seq<ColumnarConstraint>,
    so_far: Scanned,
) -> Result<Scanned, ColumnarError> {
    let statistics = so_far.statistics;
    let rows = retained(known, suppressed);
    if group::pruned(known.statistics, constraints) {
        Ok(
            Scanned {
                batches: so_far.batches,
                statistics: ColumnarScanStatistics {
                    row_groups_pruned: grown(statistics.row_groups_pruned, 1),
                    ..statistics
                },
            },
        )
    } else {
        match picked_columns(known, columns, rows, columns.len() as int) {
            Err(error) => Err(error),
            Ok(picked) => Ok(
                Scanned {
                    batches: so_far.batches.push(
                        BatchView { row_count: rows.len(), columns: picked },
                    ),
                    statistics: ColumnarScanStatistics {
                        row_groups_read: grown(statistics.row_groups_read, 1),
                        base_rows_suppressed: grown(
                            statistics.base_rows_suppressed,
                            suppressed_rows(known, rows),
                        ),
                        rows_read: grown(statistics.rows_read, rows.len() as int),
                        column_chunks_read: grown(
                            statistics.column_chunks_read,
                            columns.len() as int,
                        ),
                        bytes_read: grown_by_sizes(
                            statistics.bytes_read,
                            picked,
                            picked.len() as int,
                        ),
                        ..statistics
                    },
                },
            ),
        }
    }
}

/// How many rows of a group were left out.
pub open spec fn suppressed_rows(known: GroupView, rows: Seq<usize>) -> int {
    match known.source_versions {
        Some(keys) => keys.len() - rows.len(),
        None => 0,
    }
}

/// A scan after the first `n` groups.
pub open spec fn groups_scanned(
    groups: Seq<GroupView>,
    suppressed: Seq<StorageVersionKey>,
    columns: Seq<ColumnId>,
    constraints: Seq<ColumnarConstraint>,
    start: Scanned,
    n: int,
) -> Result<Scanned, ColumnarError>
    decreases n,
{
    if n <= 0 {
        Ok(start)
    } else {
        match groups_scanned(groups, suppressed, columns, constraints, start, n - 1) {
            Err(error) => Err(error),
            Ok(so_far) => group_scanned(groups[n - 1], suppressed, columns, constraints, so_far),
        }
    }
}

proof fn lemma_scanned_prefix(
    groups: Seq<GroupView>,
    suppressed: Seq<StorageVersionKey>,
    columns: Seq<ColumnId>,
    constraints: Seq<ColumnarConstraint>,
    start: Scanned,
    n: int,
    m: int,
)
    requires
        n <= m,
        groups_scanned(groups, suppressed, columns, constraints, start, n) is Err,
    ensures
        groups_scanned(groups, suppressed, columns, constraints, start, m) == groups_scanned(
            groups,
            suppressed,
            columns,
            constraints,
            start,
            n,
        ),
    decreases m - n,
{
    if n < m {
        lemma_scanned_prefix(groups, suppressed, columns, constraints, start, n, m - 1);
    }
}

fn find_batch_column(columns: &[ColumnarBatchColumn], id: ColumnId) -> (place: Option<usize>)
    ensures
        match group::place_of(column_ids(group::batch_columns_view(columns@)), id) {
            Some(found) => place is Some && place->0 == found && place->0 < columns@.len(),
            None => place is None,
        },
{
    let ghost ids = column_ids(group::batch_columns_view(columns@));
    let mut i: usize = 0;
    while i < columns.len()
        invariant
            i <= columns@.len(),
            ids == column_ids(group::batch_columns_view(columns@)),
            group::place_of(ids, id) == group::place_from(ids, id, i as int),
        decreases columns@.len() - i,
    {
        assert(ids[i as int] == columns@[i as int].column_id);
        if columns[i].column_id == id {
            return Some(i);
        }
        i = i + 1;
    }
    None
}

fn pick_columns(known: &RowGroup, columns: &[ColumnId], rows: &[usize]) -> (picked: Result<
    Vec<ColumnarBatchColumn>,
    ColumnarError,
>)
    requires
        group_sound(known@),
        forall|i: int| 0 <= i < rows@.len() ==> (#[trigger] rows@[i]) < known.rows,
    ensures
        match picked_columns(known@, columns@, rows@, columns@.len() as int) {
            Ok(list) => {
                &&& picked is Ok
                &&& group::batch_columns_view(picked->Ok_0@) == list
                &&& list.len() == columns@.len()
            },
            Err(error) => picked == Err::<Vec<ColumnarBatchColumn>, ColumnarError>(error),
        },
{
    let mut picked: Vec<ColumnarBatchColumn> = Vec::new();
    assert(group::batch_columns_view(picked@) =~= Seq::empty());
    let mut i: usize = 0;
    while i < columns.len()
        invariant
            i <= columns@.len(),
            group_sound(known@),
            forall|k: int| 0 <= k < rows@.len() ==> (#[trigger] rows@[k]) < known.rows,
            picked@.len() == i,
            picked_columns(known@, columns@, rows@, i as int) == Ok::<
                Seq<(ColumnId, VectorView)>,
                ColumnarError,
            >(group::batch_columns_view(picked@)),
        decreases columns@.len() - i,
    {
        proof {
            if picked_columns(known@, columns@, rows@, i + 1) is Err {
                lemma_picked_prefix(known@, columns@, rows@, i + 1, columns@.len() as int);
            }
        }
        match find_batch_column(known.columns.as_slice(), columns[i]) {
            None => {
                return Err(ColumnarError::Corrupt("row group is missing a projected column"));
            },
            Some(place) => {
                let source: &ColumnarVector = &known.columns[place].values;
                assert(known@.columns[place as int].1 == source@);
                proof {
                    select::lemma_pickable(source@, rows@);
                }
                let values: ColumnarVector = select::select_vector_rows(source, rows);
                let ghost before = group::batch_columns_view(picked@);
                let ghost last = (columns@[i as int], values@);
                picked.push(ColumnarBatchColumn { column_id: columns[i], values });
                assert(group::batch_columns_view(picked@) =~= before.push(last));
            },
        }
        i = i + 1;
    }
    Ok(picked)
}

fn scan_group(
    known: &RowGroup,
    suppressed: &[StorageVersionKey],
    columns: &[ColumnId],
    constraints: &[ColumnarConstraint],
    batches: &mut Vec<ColumnarBatch>,
    statistics: &mut ColumnarScanStatistics,
) -> (scanned: Result<(), ColumnarError>)
    requires
        group_sound(known@),
        overlay::ascending(suppressed@),
    ensures
        match group_scanned(
            known@,
            suppressed@,
            columns@,
            constraints@,
            (Scanned { batches: batches_view(old(batches)@), statistics: *old(statistics) }),
        ) {
            Ok(next) => {
                &&& scanned is Ok
                &&& batches_view(final(batches)@) == next.batches
                &&& *final(statistics) == next.statistics
            },
            Err(error) => scanned == Err::<(), ColumnarError>(error),
        },
{
    if group::group_pruned(known.statistics.as_slice(), constraints) {
        statistics.row_groups_pruned = statistics.row_groups_pruned.saturating_add(1);
        return Ok(());
    }
    statistics.row_groups_read = statistics.row_groups_read.saturating_add(1);
    let rows: Vec<usize> = match &known.source_versions {
        Some(keys) => {
            let kept: Vec<usize> = retain_rows(keys.as_slice(), suppressed);
            proof {
                lemma_kept_rows(keys@, suppressed@, keys@.len() as int);
            }
            statistics.base_rows_suppressed = statistics.base_rows_suppressed.saturating_add(
                (keys.len() - kept.len()) as u64,
            );
            kept
        },
        None => list_rows(known.rows as usize),
    };
    statistics.rows_read = statistics.rows_read.saturating_add(rows.len() as u64);
    let picked: Vec<ColumnarBatchColumn> = pick_columns(known, columns, rows.as_slice())?;
    statistics.column_chunks_read = statistics.column_chunks_read.saturating_add(
        picked.len() as u64,
    );
    statistics.bytes_read = grow_by_sizes(statistics.bytes_read, picked.as_slice());
    let ghost before = batches_view(batches@);
    let batch: ColumnarBatch = ColumnarBatch { row_count: rows.len(), columns: picked };
    let ghost last = batch@;
    batches.push(batch);
    assert(batches_view(batches@) =~= before.push(last));
    Ok(())
}

// ---------------------------------------------------------------------------
// Added rows
// ---------------------------------------------------------------------------
/// A scan after the rows that delta segments added, as one batch.
pub open spec fn rows_scanned(
    specs: Seq<ColumnarColumnSpec>,
    rows: Seq<Seq<ScalarView>>,
    counted: bool,
    so_far: Scanned,
) -> Result<Scanned, ColumnarError> {
    match group::group_error(specs, rows) {
        Some(error) => Err(error),
        None => {
            let made = group::group_of(specs, rows, None);
            let statistics = so_far.statistics;
            Ok(
                Scanned {
                    batches: so_far.batches.push(
                        BatchView { row_count: rows.len(), columns: made.columns },
                    ),
                    statistics: ColumnarScanStatistics {
                        delta_rows_emitted: rows.len() as u64,
                        rows_read: grown(statistics.rows_read, rows.len() as int),
                        column_chunks_read: grown(
                            statistics.column_chunks_read,
                            if counted {
                                specs.len() as int
                            } else {
                                0
                            },
                        ),
                        bytes_read: grown_by_sizes(
                            statistics.bytes_read,
                            made.columns,
                            made.columns.len() as int,
                        ),
                        ..statistics
                    },
                },
            )
        },
    }
}

/// Adds the rows that delta segments added to a scan, as one batch. Their columns
/// are counted as read where they were not read from blocks.
pub fn scan_rows(
    specs: &[ColumnarColumnSpec],
    rows: &[Vec<ScalarValue>],
    counted: bool,
    batches: &mut Vec<ColumnarBatch>,
    statistics: &mut ColumnarScanStatistics,
) -> (scanned: Result<(), ColumnarError>)
    ensures
        match rows_scanned(
            specs@,
            vector::rows_view(rows@),
            counted,
            (Scanned { batches: batches_view(old(batches)@), statistics: *old(statistics) }),
        ) {
            Ok(next) => {
                &&& scanned is Ok
                &&& batches_view(final(batches)@) == next.batches
                &&& *final(statistics) == next.statistics
            },
            Err(error) => scanned == Err::<(), ColumnarError>(error),
        },
{
    let made: RowGroup = group::encode_row_group(specs, rows)?;
    let ghost known = made@;
    assert(known.columns.len() == specs@.len());
    statistics.delta_rows_emitted = rows.len() as u64;
    statistics.rows_read = statistics.rows_read.saturating_add(rows.len() as u64);
    if counted {
        statistics.column_chunks_read = statistics.column_chunks_read.saturating_add(
            made.columns.len() as u64,
        );
    }
    statistics.bytes_read = grow_by_sizes(statistics.bytes_read, made.columns.as_slice());
    let ghost before = batches_view(batches@);
    let batch: ColumnarBatch = ColumnarBatch { row_count: rows.len(), columns: made.columns };
    let ghost last = batch@;
    batches.push(batch);
    assert(batches_view(batches@) =~= before.push(last));
    Ok(())
}

// ---------------------------------------------------------------------------
// Projections in memory
// ---------------------------------------------------------------------------
/// What a scan of a projection in memory starts with.
pub open spec fn eager_start(
    known: MetadataView,
    groups: nat,
    live: nat,
) -> Scanned {
    Scanned {
        batches: Seq::empty(),
        statistics: ColumnarScanStatistics {
            row_groups_total: groups as u64,
            delta_segments: match known.incremental {
                Some(incremental) => incremental.delta_segments.len() as u64,
                None => 0,
            },
            delta_mutations: match known.incremental {
                Some(incremental) => incremental.delta_mutation_count,
                None => 0,
            },
            delta_live_rows: live as u64,
            delta_bytes_read: match known.incremental {
                Some(incremental) => incremental.delta_bytes,
                None => 0,
            },
            ..no_statistics()
        },
    }
}

/// The scan of a projection in memory.
pub open spec fn eager_scan(
    known: MetadataView,
    groups: Seq<GroupView>,
    added: OverlayView<Seq<ScalarView>>,
    columns: Seq<ColumnId>,
    constraints: Seq<ColumnarConstraint>,
) -> Result<Scanned, ColumnarError> {
    match unknown_error(known.columns, columns, columns.len() as int) {
        Some(error) => Err(error),
        None => match groups_scanned(
            groups,
            added.suppressed,
            columns,
            constraints,
            eager_start(known, groups.len(), added.live_keys.len()),
            groups.len() as int,
        ) {
            Err(error) => Err(error),
            Ok(base) => match added_scanned(known.columns, added.live_rows, columns, true, base) {
                Err(error) => Err(error),
                Ok(all) => Ok(merged(all)),
            },
        },
    }
}

/// A scan after the rows that delta segments added, if they added any.
pub open spec fn added_scanned(
    specs: Seq<ColumnarColumnSpec>,
    rows: Seq<Seq<ScalarView>>,
    columns: Seq<ColumnId>,
    counted: bool,
    so_far: Scanned,
) -> Result<Scanned, ColumnarError> {
    if rows.len() == 0 {
        Ok(so_far)
    } else {
        rows_scanned(wanted(specs, columns), wanted_rows(specs, columns, rows), counted, so_far)
    }
}

/// A scan whose rows are counted as merged.
pub open spec fn merged(all: Scanned) -> Scanned {
    Scanned {
        batches: all.batches,
        statistics: ColumnarScanStatistics {
            merged_rows: all.statistics.rows_read,
            ..all.statistics
        },
    }
}

/// Whether every added row has a value for each column.
pub open spec fn rows_sound(rows: Seq<Seq<ScalarView>>, width: nat) -> bool {
    forall|i: int| 0 <= i < rows.len() ==> (#[trigger] rows[i]).len() == width
}

fn wanted_live_rows(
    specs: &[ColumnarColumnSpec],
    columns: &[ColumnId],
    places: &[usize],
    live: &[Vec<ScalarValue>],
) -> (rows: Vec<Vec<ScalarValue>>)
    requires
        places@.len() == columns@.len(),
        forall|i: int|
            0 <= i < columns@.len() ==> {
                &&& (#[trigger] places@[i]) < specs@.len()
                &&& places@[i] == position_of(specs@, columns@[i])
            },
        rows_sound(vector::rows_view(live@), specs@.len()),
    ensures
        vector::rows_view(rows@) == wanted_rows(specs@, columns@, vector::rows_view(live@)),
{
    let ghost known = vector::rows_view(live@);
    let ghost whole = wanted_rows(specs@, columns@, known);
    let mut rows: Vec<Vec<ScalarValue>> = Vec::new();
    let mut i: usize = 0;
    while i < live.len()
        invariant
            i <= live@.len(),
            places@.len() == columns@.len(),
            forall|k: int|
                0 <= k < columns@.len() ==> {
                    &&& (#[trigger] places@[k]) < specs@.len()
                    &&& places@[k] == position_of(specs@, columns@[k])
                },
            known == vector::rows_view(live@),
            rows_sound(known, specs@.len()),
            whole == wanted_rows(specs@, columns@, known),
            vector::rows_view(rows@) == whole.take(i as int),
        decreases live@.len() - i,
    {
        assert(known[i as int] == value::row_view(live@[i as int]@));
        assert(known[i as int].len() == specs@.len());
        let row: Vec<ScalarValue> = pick_values(
            Ghost(specs@),
            Ghost(columns@),
            live[i].as_slice(),
            places,
        );
        let ghost before = vector::rows_view(rows@);
        let ghost last = value::row_view(row@);
        rows.push(row);
        i = i + 1;
        assert(vector::rows_view(rows@) =~= before.push(last));
        assert(before.push(last) =~= whole.take(i as int));
    }
    assert(vector::rows_view(rows@) =~= whole);
    rows
}

fn start_eager(metadata: &ColumnarProjectionMetadata, groups: usize, live: usize) -> (statistics:
    ColumnarScanStatistics)
    ensures
        statistics == eager_start(metadata@, groups as nat, live as nat).statistics,
{
    let mut statistics: ColumnarScanStatistics = ColumnarScanStatistics::default();
    statistics.row_groups_total = groups as u64;
    statistics.delta_live_rows = live as u64;
    if let Some(incremental) = &metadata.incremental {
        statistics.delta_segments = incremental.delta_segments.len() as u64;
        statistics.delta_mutations = incremental.delta_mutation_count;
        statistics.delta_bytes_read = incremental.delta_bytes;
    }
    statistics
}

/// Scans a projection in memory.
pub fn scan_eager(
    metadata: &ColumnarProjectionMetadata,
    groups: &[RowGroup],
    added: &DeltaOverlay<Vec<ScalarValue>>,
    columns: &[ColumnId],
    constraints: &[ColumnarConstraint],
) -> (scanned: Result<(Vec<ColumnarBatch>, ColumnarScanStatistics), ColumnarError>)
    requires
        forall|i: int| 0 <= i < groups@.len() ==> group_sound((#[trigger] groups@[i])@),
        overlay::overlay_kept(added@),
        rows_sound(overlay::values_overlay(added@).live_rows, metadata.columns@.len()),
    ensures
        match eager_scan(
            metadata@,
            group::groups_view(groups@),
            overlay::values_overlay(added@),
            columns@,
            constraints@,
        ) {
            Ok(all) => {
                &&& scanned is Ok
                &&& batches_view(scanned->Ok_0.0@) == all.batches
                &&& scanned->Ok_0.1 == all.statistics
            },
            Err(error) => scanned == Err::<
                (Vec<ColumnarBatch>, ColumnarScanStatistics),
                ColumnarError,
            >(error),
        },
{
    let places: Vec<usize> = find_wanted(metadata.columns.as_slice(), columns)?;
    let ghost known = group::groups_view(groups@);
    let ghost suppressed = added.suppressed@;
    let ghost start = eager_start(metadata@, groups@.len(), added.live_keys@.len());
    let mut statistics: ColumnarScanStatistics = start_eager(
        metadata,
        groups.len(),
        added.live_keys.len(),
    );
    let mut batches: Vec<ColumnarBatch> = Vec::new();
    assert(batches_view(batches@) =~= Seq::empty());
    let mut i: usize = 0;
    while i < groups.len()
        invariant
            i <= groups@.len(),
            known == group::groups_view(groups@),
            suppressed == added.suppressed@,
            overlay::overlay_kept(added@),
            start == eager_start(metadata@, groups@.len(), added.live_keys@.len()),
            unknown_error(metadata.columns@, columns@, columns@.len() as int) is None,
            forall|k: int| 0 <= k < groups@.len() ==> group_sound((#[trigger] groups@[k])@),
            groups_scanned(known, suppressed, columns@, constraints@, start, i as int) == Ok::<
                Scanned,
                ColumnarError,
            >((Scanned { batches: batches_view(batches@), statistics })),
        decreases groups@.len() - i,
    {
        proof {
            if groups_scanned(known, suppressed, columns@, constraints@, start, i + 1) is Err {
                lemma_scanned_prefix(
                    known,
                    suppressed,
                    columns@,
                    constraints@,
                    start,
                    i + 1,
                    groups@.len() as int,
                );
            }
        }
        scan_group(
            &groups[i],
            added.suppressed.as_slice(),
            columns,
            constraints,
            &mut batches,
            &mut statistics,
        )?;
        i = i + 1;
    }
    let ghost live = overlay::values_overlay(added@).live_rows;
    assert(live =~= vector::rows_view(added.live_rows@));
    if added.live_keys.len() > 0 {
        let rows: Vec<Vec<ScalarValue>> = wanted_live_rows(
            metadata.columns.as_slice(),
            columns,
            places.as_slice(),
            added.live_rows.as_slice(),
        );
        let specs: Vec<ColumnarColumnSpec> = pick_specs(
            metadata.columns.as_slice(),
            columns,
            places.as_slice(),
        );
        scan_rows(specs.as_slice(), rows.as_slice(), true, &mut batches, &mut statistics)?;
    }
    statistics.merged_rows = statistics.rows_read;
    Ok((batches, statistics))
}

} // verus!
