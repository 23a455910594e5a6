//! Row groups: some rows of a projection, column by column, with statistics.
use super::error::ColumnarError;
use super::select;
use super::statistics::{self, ColumnarColumnStatistics, ColumnarConstraint, ConstraintView, StatisticsView};
use super::vector::{self, ColumnarColumnSpec, ColumnarVector, VectorView};
use crate::change_stream::types::StorageVersionKey;
use crate::ids::{ColumnId, SchemaFingerprint, TableId};
use crate::value::{PhysicalType, ScalarValue, ScalarView};
use vstd::prelude::*;

verus! {

// ---------------------------------------------------------------------------
// Projected columns
// ---------------------------------------------------------------------------
/// One column of a table.
#[derive(Debug, Clone, Copy, PartialEq, Eq, Structural)]
pub struct ColumnDef {
    pub id: ColumnId,
    pub physical: PhysicalType,
    pub nullable: bool,
}

/// A table as a projection sees it: its columns, and the digest of its schema
/// or why it has none.
#[derive(Debug, PartialEq, Eq)]
pub struct TableDef {
    pub id: TableId,
    pub columns: Vec<ColumnDef>,
    pub fingerprint: Result<SchemaFingerprint, String>,
}

/// The first place from `from` on where an id stands.
pub open spec fn place_from(ids: Seq<ColumnId>, id: ColumnId, from: int) -> Option<int>
    decreases ids.len() - from,
{
    if from >= ids.len() {
        None
    } else if ids[from] == id {
        Some(from)
    } else {
        place_from(ids, id, from + 1)
    }
}

/// The first place where an id stands.
pub open spec fn place_of(ids: Seq<ColumnId>, id: ColumnId) -> Option<int> {
    place_from(ids, id, 0)
}

/// An id stands where it is found, and nowhere if it is not.
pub proof fn lemma_place(ids: Seq<ColumnId>, id: ColumnId, from: int)
    requires
        0 <= from,
    ensures
        match place_from(ids, id, from) {
            Some(place) => from <= place < ids.len() && ids[place] == id,
            None => forall|i: int| from <= i < ids.len() ==> ids[i] != id,
        },
    decreases ids.len() - from,
{
    if from < ids.len() && ids[from] != id {
        lemma_place(ids, id, from + 1);
    }
}

/// The ids of a table's columns.
pub open spec fn table_ids(columns: Seq<ColumnDef>) -> Seq<ColumnId> {
    columns.map_values(|column: ColumnDef| column.id)
}

/// The ids of projected columns.
pub open spec fn spec_ids(columns: Seq<ColumnarColumnSpec>) -> Seq<ColumnId> {
    columns.map_values(|column: ColumnarColumnSpec| column.column_id)
}

/// The projection of a table's column.
pub open spec fn spec_of(columns: Seq<ColumnDef>, id: ColumnId) -> ColumnarColumnSpec {
    let column = columns[place_of(table_ids(columns), id)->0];
    ColumnarColumnSpec {
        column_id: id,
        physical_type: column.physical,
        nullable: column.nullable,
    }
}

/// Why the first `n` ids cannot be projected, if they cannot.
pub open spec fn resolve_error(
    table: Seq<ColumnDef>,
    columns: Seq<ColumnId>,
    n: int,
) -> Option<ColumnarError>
    decreases n,
{
    if n <= 0 {
        if columns.len() == 0 {
            Some(ColumnarError::InvalidInput("projection has no columns"))
        } else {
            None
        }
    } else if resolve_error(table, columns, n - 1) is Some {
        resolve_error(table, columns, n - 1)
    } else if exists|i: int| 0 <= i < n - 1 && #[trigger] columns[i] == columns[n - 1] {
        Some(ColumnarError::InvalidInput("duplicate projected column"))
    } else if place_of(table_ids(table), columns[n - 1]) is None {
        Some(ColumnarError::UnknownColumn(columns[n - 1]))
    } else {
        None
    }
}

/// The projections of a table's columns.
pub open spec fn resolved(table: Seq<ColumnDef>, columns: Seq<ColumnId>) -> Seq<
    ColumnarColumnSpec,
> {
    columns.map_values(|id: ColumnId| spec_of(table, id))
}

proof fn lemma_resolve_prefix(table: Seq<ColumnDef>, columns: Seq<ColumnId>, n: int, m: int)
    requires
        n <= m,
        resolve_error(table, columns, n) is Some,
    ensures
        resolve_error(table, columns, m) == resolve_error(table, columns, n),
    decreases m - n,
{
    if n < m {
        lemma_resolve_prefix(table, columns, n, m - 1);
    }
}

/// The place of a column in a table.
pub fn find_column(columns: &[ColumnDef], id: ColumnId) -> (place: Option<usize>)
    ensures
        match place_of(table_ids(columns@), id) {
            Some(found) => place is Some && place->0 == found && place->0 < columns@.len(),
            None => place is None,
        },
{
    let ghost ids = table_ids(columns@);
    let mut i: usize = 0;
    while i < columns.len()
        invariant
            i <= columns@.len(),
            ids == table_ids(columns@),
            place_of(ids, id) == place_from(ids, id, i as int),
        decreases columns@.len() - i,
    {
        if columns[i].id == id {
            return Some(i);
        }
        i = i + 1;
    }
    None
}

/// The place of a projected column.
pub fn find_spec(columns: &[ColumnarColumnSpec], id: ColumnId) -> (place: Option<usize>)
    ensures
        match place_of(spec_ids(columns@), id) {
            Some(found) => place is Some && place->0 == found && place->0 < columns@.len(),
            None => place is None,
        },
{
    let ghost ids = spec_ids(columns@);
    let mut i: usize = 0;
    while i < columns.len()
        invariant
            i <= columns@.len(),
            ids == spec_ids(columns@),
            place_of(ids, id) == place_from(ids, id, i as int),
        decreases columns@.len() - i,
    {
        if columns[i].column_id == id {
            return Some(i);
        }
        i = i + 1;
    }
    None
}

fn appears_before(columns: &[ColumnId], n: usize) -> (found: bool)
    requires
        n < columns@.len(),
    ensures
        found == exists|i: int| 0 <= i < n && #[trigger] columns@[i] == columns@[n as int],
{
    let mut i: usize = 0;
    while i < n
        invariant
            i <= n < columns@.len(),
            forall|k: int| 0 <= k < i ==> #[trigger] columns@[k] != columns@[n as int],
        decreases n - i,
    {
        if columns[i] == columns[n] {
            return true;
        }
        i = i + 1;
    }
    false
}

/// The projections of a table's columns.
pub fn resolve_columns(table: &TableDef, columns: &[ColumnId]) -> (resolved_columns: Result<
    Vec<ColumnarColumnSpec>,
    ColumnarError,
>)
    ensures
        match resolve_error(table.columns@, columns@, columns@.len() as int) {
            Some(error) => resolved_columns == Err::<Vec<ColumnarColumnSpec>, ColumnarError>(error),
            None => resolved_columns is Ok && resolved_columns->Ok_0@ == resolved(
                table.columns@,
                columns@,
            ),
        },
{
    if columns.len() == 0 {
        return Err(ColumnarError::InvalidInput("projection has no columns"));
    }
    let ghost whole = resolved(table.columns@, columns@);
    let mut specs: Vec<ColumnarColumnSpec> = Vec::new();
    let mut i: usize = 0;
    while i < columns.len()
        invariant
            i <= columns@.len(),
            columns@.len() > 0,
            whole == resolved(table.columns@, columns@),
            resolve_error(table.columns@, columns@, i as int) is None,
            specs@ == whole.take(i as int),
        decreases columns@.len() - i,
    {
        proof {
            if resolve_error(table.columns@, columns@, i + 1) is Some {
                lemma_resolve_prefix(table.columns@, columns@, i + 1, columns@.len() as int);
            }
        }
        if appears_before(columns, i) {
            return Err(ColumnarError::InvalidInput("duplicate projected column"));
        }
        match find_column(table.columns.as_slice(), columns[i]) {
            None => {
                return Err(ColumnarError::UnknownColumn(columns[i]));
            },
            Some(place) => {
                let column: ColumnDef = table.columns[place];
                specs.push(
                    ColumnarColumnSpec {
                        column_id: columns[i],
                        physical_type: column.physical,
                        nullable: column.nullable,
                    },
                );
            },
        }
        i = i + 1;
        assert(specs@ =~= whole.take(i as int));
    }
    assert(specs@ =~= whole);
    Ok(specs)
}

// ---------------------------------------------------------------------------
// Row groups
// ---------------------------------------------------------------------------
/// One column of a batch.
#[derive(Debug, Clone, PartialEq, Eq)]
pub struct ColumnarBatchColumn {
    pub column_id: ColumnId,
    pub values: ColumnarVector,
}

/// Some rows, column by column.
#[derive(Debug, Clone, PartialEq, Eq)]
pub struct ColumnarBatch {
    pub row_count: usize,
    pub columns: Vec<ColumnarBatchColumn>,
}

/// What a column of a batch holds.
pub open spec fn batch_column_view(column: ColumnarBatchColumn) -> (ColumnId, VectorView) {
    (column.column_id, column.values@)
}

/// What the columns of a batch hold.
pub open spec fn batch_columns_view(columns: Seq<ColumnarBatchColumn>) -> Seq<
    (ColumnId, VectorView),
> {
    columns.map_values(|column: ColumnarBatchColumn| batch_column_view(column))
}

/// Some rows of a projection, with the versions that they were taken from.
#[derive(Debug, Clone, PartialEq, Eq)]
pub struct RowGroup {
    pub rows: u32,
    pub source_versions: Option<Vec<StorageVersionKey>>,
    pub columns: Vec<ColumnarBatchColumn>,
    pub statistics: Vec<(ColumnId, ColumnarColumnStatistics)>,
}

/// What a row group holds.
pub struct GroupView {
    pub rows: u32,
    pub source_versions: Option<Seq<StorageVersionKey>>,
    pub columns: Seq<(ColumnId, VectorView)>,
    pub statistics: Seq<(ColumnId, StatisticsView)>,
}

/// What a list of statistics says.
pub open spec fn statistics_view(statistics: Seq<(ColumnId, ColumnarColumnStatistics)>) -> Seq<
    (ColumnId, StatisticsView),
> {
    statistics.map_values(|entry: (ColumnId, ColumnarColumnStatistics)| (entry.0, entry.1@))
}

/// What a list of row versions holds, if there is one.
pub open spec fn versions_view(versions: Option<Vec<StorageVersionKey>>) -> Option<
    Seq<StorageVersionKey>,
> {
    match versions {
        Some(keys) => Some(keys@),
        None => None,
    }
}

impl View for RowGroup {
    type V = GroupView;

    open spec fn view(&self) -> GroupView {
        GroupView {
            rows: self.rows,
            source_versions: versions_view(self.source_versions),
            columns: batch_columns_view(self.columns@),
            statistics: statistics_view(self.statistics@),
        }
    }
}

/// What some row groups hold.
pub open spec fn groups_view(groups: Seq<RowGroup>) -> Seq<GroupView> {
    groups.map_values(|group: RowGroup| group@)
}

/// Whether every row has a value at a place.
pub open spec fn wide(table: Seq<Seq<ScalarView>>, position: int) -> bool {
    forall|row: int| 0 <= row < table.len() ==> position < (#[trigger] table[row]).len()
}

/// Why rows do not make the first `n` columns of a group, if they do not.
pub open spec fn columns_error(
    columns: Seq<ColumnarColumnSpec>,
    table: Seq<Seq<ScalarView>>,
    n: int,
) -> Option<ColumnarError>
    decreases n,
{
    if n <= 0 {
        None
    } else if columns_error(columns, table, n - 1) is Some {
        columns_error(columns, table, n - 1)
    } else if !wide(table, n - 1) {
        Some(ColumnarError::InvalidInput("short row"))
    } else {
        vector::vector_error(
            columns[n - 1],
            vector::column_values(table, n - 1),
            table.len() as int,
        )
    }
}

/// Why rows do not make a group, if they do not.
pub open spec fn group_error(
    columns: Seq<ColumnarColumnSpec>,
    table: Seq<Seq<ScalarView>>,
) -> Option<ColumnarError> {
    if columns_error(columns, table, columns.len() as int) is Some {
        columns_error(columns, table, columns.len() as int)
    } else if table.len() > u32::MAX {
        Some(ColumnarError::InvalidInput("row-group row count overflow"))
    } else {
        None
    }
}

/// The vector of one column of some rows.
pub open spec fn column_vector(
    columns: Seq<ColumnarColumnSpec>,
    table: Seq<Seq<ScalarView>>,
    position: int,
) -> VectorView {
    vector::vector_of(
        columns[position].physical_type,
        vector::column_values(table, position),
    )
}

/// The statistics of one column of some rows.
pub open spec fn column_statistics(
    columns: Seq<ColumnarColumnSpec>,
    table: Seq<Seq<ScalarView>>,
    position: int,
) -> StatisticsView {
    statistics::statistics_of(
        vector::column_values(table, position),
        select::encoded_size(column_vector(columns, table, position)),
    )
}

/// The group of some rows, taken from some versions or none.
pub open spec fn group_of(
    columns: Seq<ColumnarColumnSpec>,
    table: Seq<Seq<ScalarView>>,
    source_versions: Option<Seq<StorageVersionKey>>,
) -> GroupView {
    GroupView {
        rows: table.len() as u32,
        source_versions,
        columns: Seq::new(
            columns.len(),
            |i: int| (columns[i].column_id, column_vector(columns, table, i)),
        ),
        statistics: Seq::new(
            columns.len(),
            |i: int| (columns[i].column_id, column_statistics(columns, table, i)),
        ),
    }
}

proof fn lemma_columns_prefix(
    columns: Seq<ColumnarColumnSpec>,
    table: Seq<Seq<ScalarView>>,
    n: int,
    m: int,
)
    requires
        n <= m,
        columns_error(columns, table, n) is Some,
    ensures
        columns_error(columns, table, m) == columns_error(columns, table, n),
    decreases m - n,
{
    if n < m {
        lemma_columns_prefix(columns, table, n, m - 1);
    }
}

/// Rows that make a group make each of its columns.
pub proof fn lemma_column_made(
    columns: Seq<ColumnarColumnSpec>,
    table: Seq<Seq<ScalarView>>,
    position: int,
)
    requires
        columns_error(columns, table, columns.len() as int) is None,
        0 <= position < columns.len(),
    ensures
        wide(table, position),
        vector::vector_error(
            columns[position],
            vector::column_values(table, position),
            table.len() as int,
        ) is None,
{
    if columns_error(columns, table, position + 1) is Some {
        lemma_columns_prefix(columns, table, position + 1, columns.len() as int);
    }
}

fn all_wide(rows: &[Vec<ScalarValue>], position: usize) -> (all: bool)
    ensures
        all == wide(vector::rows_view(rows@), position as int),
        all ==> forall|i: int| 0 <= i < rows@.len() ==> position < (#[trigger] rows@[i])@.len(),
{
    let ghost table = vector::rows_view(rows@);
    let mut row: usize = 0;
    while row < rows.len()
        invariant
            row <= rows@.len(),
            table == vector::rows_view(rows@),
            forall|i: int| 0 <= i < row ==> position < (#[trigger] rows@[i])@.len(),
        decreases rows@.len() - row,
    {
        if position >= rows[row].len() {
            assert(!(position < table[row as int].len()));
            return false;
        }
        row = row + 1;
    }
    assert forall|i: int| 0 <= i < table.len() implies position < (#[trigger] table[i]).len() by {
        assert(position < rows@[i]@.len());
    }
    true
}

/// The group of some rows.
pub fn encode_row_group(columns: &[ColumnarColumnSpec], rows: &[Vec<ScalarValue>]) -> (made: Result<
    RowGroup,
    ColumnarError,
>)
    ensures
        match group_error(columns@, vector::rows_view(rows@)) {
            Some(error) => made == Err::<RowGroup, ColumnarError>(error),
            None => made is Ok && made->Ok_0@ == group_of(
                columns@,
                vector::rows_view(rows@),
                None,
            ),
        },
{
    let ghost table = vector::rows_view(rows@);
    let ghost whole = group_of(columns@, table, None);
    let mut vectors: Vec<ColumnarBatchColumn> = Vec::new();
    let mut statistics: Vec<(ColumnId, ColumnarColumnStatistics)> = Vec::new();
    let mut position: usize = 0;
    while position < columns.len()
        invariant
            position <= columns@.len(),
            table == vector::rows_view(rows@),
            whole == group_of(columns@, table, None),
            columns_error(columns@, table, position as int) is None,
            batch_columns_view(vectors@) == whole.columns.take(position as int),
            statistics_view(statistics@) == whole.statistics.take(position as int),
        decreases columns@.len() - position,
    {
        proof {
            if columns_error(columns@, table, position + 1) is Some {
                lemma_columns_prefix(columns@, table, position + 1, columns@.len() as int);
            }
        }
        if !all_wide(rows, position) {
            return Err(ColumnarError::InvalidInput("short row"));
        }
        let column: ColumnarColumnSpec = columns[position];
        let made: ColumnarVector = vector::vector_from_values(&column, rows, position)?;
        let size: u64 = select::vector_encoded_bytes(&made);
        let known: ColumnarColumnStatistics = statistics::statistics_for_values(
            rows,
            position,
            size,
        );
        let ghost vectors_before = batch_columns_view(vectors@);
        let ghost statistics_before = statistics_view(statistics@);
        let ghost at = position as int;
        assert(made@ == column_vector(columns@, table, at));
        assert(known@ == column_statistics(columns@, table, at));
        assert(whole.columns[at] == (column.column_id, made@));
        assert(whole.statistics[at] == (column.column_id, known@));
        vectors.push(ColumnarBatchColumn { column_id: column.column_id, values: made });
        statistics.push((column.column_id, known));
        position = position + 1;
        assert(batch_columns_view(vectors@) =~= vectors_before.push(whole.columns[at]));
        assert(statistics_view(statistics@) =~= statistics_before.push(whole.statistics[at]));
        assert(vectors_before.push(whole.columns[at]) =~= whole.columns.take(at + 1));
        assert(statistics_before.push(whole.statistics[at]) =~= whole.statistics.take(at + 1));
    }
    if rows.len() > u32::MAX as usize {
        return Err(ColumnarError::InvalidInput("row-group row count overflow"));
    }
    assert(batch_columns_view(vectors@) =~= whole.columns);
    assert(statistics_view(statistics@) =~= whole.statistics);
    Ok(RowGroup { rows: rows.len() as u32, source_versions: None, columns: vectors, statistics })
}

/// The group of some rows and the versions that they were taken from.
pub fn encode_versioned_row_group(
    columns: &[ColumnarColumnSpec],
    keys: Vec<StorageVersionKey>,
    rows: &[Vec<ScalarValue>],
) -> (made: Result<RowGroup, ColumnarError>)
    ensures
        match group_error(columns@, vector::rows_view(rows@)) {
            Some(error) => made == Err::<RowGroup, ColumnarError>(error),
            None => made is Ok && made->Ok_0@ == group_of(
                columns@,
                vector::rows_view(rows@),
                Some(keys@),
            ),
        },
{
    let mut group: RowGroup = encode_row_group(columns, rows)?;
    group.source_versions = Some(keys);
    Ok(group)
}

// ---------------------------------------------------------------------------
// Pruning
// ---------------------------------------------------------------------------
/// The ids of a list of statistics.
pub open spec fn statistics_ids(statistics: Seq<(ColumnId, StatisticsView)>) -> Seq<ColumnId> {
    statistics.map_values(|entry: (ColumnId, StatisticsView)| entry.0)
}

/// Whether a group's statistics rule every row out.
pub open spec fn group_excluded(
    statistics: Seq<(ColumnId, StatisticsView)>,
    constraint: ConstraintView,
) -> bool {
    match place_of(statistics_ids(statistics), constraint.column_id) {
        Some(place) => statistics::excludes(statistics[place].1, constraint),
        None => false,
    }
}

/// Whether a group's statistics rule every row out for one of the first `n`
/// constraints.
pub open spec fn pruned(
    statistics: Seq<(ColumnId, StatisticsView)>,
    constraints: Seq<ColumnarConstraint>,
) -> bool {
    exists|i: int|
        0 <= i < constraints.len() && group_excluded(statistics, #[trigger] constraints[i]@)
}

/// Whether a group's statistics rule every row out.
pub fn group_cannot_match(
    statistics: &[(ColumnId, ColumnarColumnStatistics)],
    constraint: &ColumnarConstraint,
) -> (excluded: bool)
    ensures
        excluded == group_excluded(statistics_view(statistics@), constraint@),
{
    let ghost known = statistics_view(statistics@);
    let ghost ids = statistics_ids(known);
    let mut i: usize = 0;
    while i < statistics.len()
        invariant
            i <= statistics@.len(),
            known == statistics_view(statistics@),
            ids == statistics_ids(known),
            place_of(ids, constraint.column_id) == place_from(ids, constraint.column_id, i as int),
        decreases statistics@.len() - i,
    {
        if statistics[i].0 == constraint.column_id {
            return statistics::statistics_exclude(&statistics[i].1, constraint);
        }
        i = i + 1;
    }
    false
}

/// Whether a group's statistics rule every row out for one of the constraints.
pub fn group_pruned(
    statistics: &[(ColumnId, ColumnarColumnStatistics)],
    constraints: &[ColumnarConstraint],
) -> (excluded: bool)
    ensures
        excluded == pruned(statistics_view(statistics@), constraints@),
{
    let mut i: usize = 0;
    while i < constraints.len()
        invariant
            i <= constraints@.len(),
            forall|k: int|
                0 <= k < i ==> !group_excluded(
                    statistics_view(statistics@),
                    #[trigger] constraints@[k]@,
                ),
        decreases constraints@.len() - i,
    {
        if group_cannot_match(statistics, &constraints[i]) {
            return true;
        }
        i = i + 1;
    }
    false
}

/// Pruning a group of some rows loses no row that meets the constraint.
pub proof fn law_pruned_group_has_no_match(
    columns: Seq<ColumnarColumnSpec>,
    table: Seq<Seq<ScalarView>>,
    constraint: ConstraintView,
    position: int,
    row: int,
)
    requires
        group_error(columns, table) is None,
        0 <= position < columns.len(),
        columns[position].column_id == constraint.column_id,
        forall|i: int, j: int|
            0 <= i < j < columns.len() ==> columns[i].column_id != columns[j].column_id,
        0 <= row < table.len(),
        group_excluded(group_of(columns, table, None).statistics, constraint),
    ensures
        !statistics::satisfies(constraint, table[row][position]),
{
    let known = group_of(columns, table, None).statistics;
    let ids = statistics_ids(known);
    lemma_place(ids, constraint.column_id, 0);
    let place = place_of(ids, constraint.column_id)->0;
    assert(ids[place] == columns[place].column_id);
    assert(place == position);
    let values = vector::column_values(table, position);
    let size = select::encoded_size(column_vector(columns, table, position));
    assert(values[row] == table[row][position]);
    statistics::law_pruning_loses_nothing(values, size, constraint, row);
}

} // verus!
