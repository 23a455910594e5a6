//! Which versions, columns and rows a projection takes, and what it lists of itself.
use super::block;
use super::group::{self, ColumnDef};
use super::projection::{self, ProjectionView};
use super::vector::{self, ColumnarColumnSpec};
use super::version::{self, SnapshotKind};
use crate::change_stream::types::StorageVersionKey;
use crate::ids::{ColumnId, StorageId};
use crate::value::{PhysicalType, ScalarView};
use vstd::prelude::*;

verus! {

/// A row version is one of a storage exactly where it names it, is of its kind, and
/// names a row that can be.
pub proof fn law_versions_of_a_storage(
    key: StorageVersionKey,
    storage_id: StorageId,
    kind: SnapshotKind,
)
    ensures
        version::key_error(key, storage_id, kind) is None <==> storage_id.0 != 0 && match key {
            StorageVersionKey::Heap { storage_id: owner, row_id } => {
                &&& owner == storage_id
                &&& kind == SnapshotKind::Heap
                &&& row_id.page.0 != 0
                &&& row_id.generation != 0
            },
            StorageVersionKey::Lsm { storage_id: owner, row_id, version } => {
                &&& owner == storage_id
                &&& kind == SnapshotKind::Lsm
                &&& row_id.0 != 0
                &&& version.0 != 0
            },
        },
{
}

proof fn lemma_first(ids: Seq<ColumnId>, id: ColumnId, from: int)
    requires
        0 <= from,
    ensures
        group::place_from(ids, id, from) matches Some(p) ==> forall|q: int|
            from <= q < p ==> ids[q] != id,
    decreases ids.len() - from,
{
    if from < ids.len() && ids[from] != id {
        lemma_first(ids, id, from + 1);
    }
}

/// Whether a table has a column.
pub open spec fn has_column(table: Seq<ColumnDef>, id: ColumnId) -> bool {
    exists|p: int| 0 <= p < table.len() && (#[trigger] table[p]).id == id
}

proof fn lemma_resolves(table: Seq<ColumnDef>, columns: Seq<ColumnId>, n: int)
    requires
        0 <= n <= columns.len(),
        columns.len() > 0,
    ensures
        group::resolve_error(table, columns, n) is None <==> {
            &&& forall|i: int, j: int| 0 <= i < j < n ==> columns[i] != columns[j]
            &&& forall|i: int| 0 <= i < n ==> has_column(table, #[trigger] columns[i])
        },
    decreases n,
{
    if n > 0 {
        lemma_resolves(table, columns, n - 1);
        let ids = group::table_ids(table);
        let id = columns[n - 1];
        group::lemma_place(ids, id, 0);
        match group::place_of(ids, id) {
            Some(p) => {
                assert(table[p].id == id);
            },
            None => {
                assert forall|p: int| 0 <= p < table.len() implies (#[trigger] table[p]).id
                    != id by {
                    assert(ids[p] == table[p].id);
                }
            },
        }
    }
}

/// Columns can be projected exactly where there are some, no two are the same, and
/// the table has each. Each then has the type that the table gives it, and may be
/// missing where the table allows it.
pub proof fn law_projected_columns(table: Seq<ColumnDef>, columns: Seq<ColumnId>)
    ensures
        group::resolve_error(table, columns, columns.len() as int) is None <==> {
            &&& columns.len() > 0
            &&& forall|i: int, j: int| 0 <= i < j < columns.len() ==> columns[i] != columns[j]
            &&& forall|i: int| 0 <= i < columns.len() ==> has_column(table, #[trigger] columns[i])
        },
        group::resolved(table, columns).len() == columns.len(),
        forall|i: int, p: int|
            0 <= i < columns.len() && 0 <= p < table.len() && (#[trigger] table[p]).id == (
            #[trigger] columns[i]) && (forall|q: int|
                0 <= q < p ==> (#[trigger] table[q]).id != columns[i]) ==> {
                let spec = group::resolved(table, columns)[i];
                &&& spec.column_id == columns[i]
                &&& spec.physical_type == table[p].physical
                &&& spec.nullable == table[p].nullable
            },
{
    if columns.len() > 0 {
        lemma_resolves(table, columns, columns.len() as int);
    }
    let ids = group::table_ids(table);
    assert forall|i: int, p: int|
        0 <= i < columns.len() && 0 <= p < table.len() && (#[trigger] table[p]).id == (
        #[trigger] columns[i]) && (forall|q: int|
            0 <= q < p ==> (#[trigger] table[q]).id != columns[i]) implies {
        let spec = group::resolved(table, columns)[i];
        &&& spec.column_id == columns[i]
        &&& spec.physical_type == table[p].physical
        &&& spec.nullable == table[p].nullable
    } by {
        let id = columns[i];
        group::lemma_place(ids, id, 0);
        lemma_first(ids, id, 0);
        let place = group::place_of(ids, id);
        assert(ids[p] == id);
        assert(place is Some);
        let k = place->0;
        if k < p {
            assert(table[k].id != id);
            assert(ids[k] == table[k].id);
        } else if p < k {
            assert(ids[p] != id);
        }
    }
}

/// Whether a value can stand in a column: one of its type, or none where it may be
/// missing.
pub open spec fn belongs(column: ColumnarColumnSpec, value: ScalarView) -> bool {
    if value is Null {
        column.nullable
    } else {
        match column.physical_type {
            PhysicalType::Bool => value is Bool,
            PhysicalType::Int64 => value is Int64,
            PhysicalType::UInt64 => value is UInt64,
            PhysicalType::Text => value is Text,
        }
    }
}

/// How many bytes the texts of the first `n` values take.
pub open spec fn text_bytes(values: Seq<ScalarView>, n: int) -> int
    decreases n,
{
    if n <= 0 {
        0
    } else {
        text_bytes(values, n - 1) + match values[n - 1] {
            crate::value::Scalar::Text(text) => text.len() as int,
            _ => 0,
        }
    }
}

proof fn lemma_text_bytes(values: Seq<ScalarView>, n: int, m: int)
    requires
        0 <= n <= m <= values.len(),
    ensures
        vector::joined(values, n).len() == text_bytes(values, n),
        text_bytes(values, n) <= text_bytes(values, m),
    decreases m,
{
    if m > 0 {
        if n < m {
            lemma_text_bytes(values, n, m - 1);
        } else {
            lemma_text_bytes(values, n - 1, m - 1);
        }
    }
}

proof fn lemma_vector(column: ColumnarColumnSpec, values: Seq<ScalarView>, n: int)
    requires
        0 <= n <= values.len(),
    ensures
        vector::vector_error(column, values, n) is None <==> {
            &&& forall|r: int| 0 <= r < n ==> belongs(column, #[trigger] values[r])
            &&& column.physical_type is Text ==> text_bytes(values, n) <= u32::MAX
        },
    decreases n,
{
    if n > 0 {
        lemma_vector(column, values, n - 1);
        lemma_text_bytes(values, n, n);
        lemma_text_bytes(values, n - 1, n);
        assert(vector::fits(column, values[n - 1]) <==> belongs(column, values[n - 1]));
    }
}

proof fn lemma_columns(columns: Seq<ColumnarColumnSpec>, table: Seq<Seq<ScalarView>>, n: int)
    requires
        0 <= n <= columns.len(),
    ensures
        group::columns_error(columns, table, n) is None <==> {
            &&& forall|r: int| 0 <= r < table.len() ==> n <= (#[trigger] table[r]).len()
            &&& forall|c: int|
                #![trigger columns[c]]
                0 <= c < n ==> {
                    &&& forall|r: int|
                        0 <= r < table.len() ==> belongs(columns[c], (#[trigger] table[r])[c])
                    &&& columns[c].physical_type is Text ==> text_bytes(
                        vector::column_values(table, c),
                        table.len() as int,
                    ) <= u32::MAX
                }
        },
    decreases n,
{
    if n > 0 {
        lemma_columns(columns, table, n - 1);
        let values = vector::column_values(table, n - 1);
        lemma_vector(columns[n - 1], values, table.len() as int);
        if forall|r: int| 0 <= r < table.len() ==> belongs(columns[n - 1], #[trigger] values[r]) {
            assert forall|r: int| 0 <= r < table.len() implies belongs(
                columns[n - 1],
                (#[trigger] table[r])[n - 1],
            ) by {
                assert(values[r] == table[r][n - 1]);
            }
        } else {
            let r = choose|r: int|
                0 <= r < table.len() && !belongs(columns[n - 1], #[trigger] values[r]);
            assert(!belongs(columns[n - 1], table[r][n - 1]));
        }
        if group::wide(table, n - 1) {
            assert forall|r: int| 0 <= r < table.len() implies n <= (#[trigger] table[r]).len() by {
                assert(n - 1 < table[r].len());
            }
        } else {
            let r = choose|r: int|
                0 <= r < table.len() && !(n - 1 < (#[trigger] table[r]).len());
            assert(!(n <= table[r].len()));
        }
    }
}

/// Rows make a group exactly where each has a value for every column that can stand
/// there, there are not too many rows, and no column has too many bytes of text.
pub proof fn law_rows_of_a_group(columns: Seq<ColumnarColumnSpec>, table: Seq<Seq<ScalarView>>)
    ensures
        group::group_error(columns, table) is None <==> {
            &&& table.len() <= u32::MAX
            &&& forall|r: int|
                0 <= r < table.len() ==> columns.len() <= (#[trigger] table[r]).len()
            &&& forall|c: int|
                #![trigger columns[c]]
                0 <= c < columns.len() ==> {
                    &&& forall|r: int|
                        0 <= r < table.len() ==> belongs(columns[c], (#[trigger] table[r])[c])
                    &&& columns[c].physical_type is Text ==> text_bytes(
                        vector::column_values(table, c),
                        table.len() as int,
                    ) <= u32::MAX
                }
        },
{
    lemma_columns(columns, table, columns.len() as int);
}

// ---------------------------------------------------------------------------
// Listings
// ---------------------------------------------------------------------------
/// The files of a projection are its base segment and then its delta segments, in
/// order.
pub proof fn law_listed_files(known: ProjectionView)
    ensures
        ({
            let names = projection::segment_names(known);
            &&& names[0] == known.segment_file
            &&& match known.metadata.incremental {
                None => names.len() == 1,
                Some(incremental) => {
                    &&& names.len() == 1 + incremental.delta_segments.len()
                    &&& forall|i: int|
                        0 <= i < incremental.delta_segments.len() ==> names[i + 1] == (
                        #[trigger] incremental.delta_segments[i]).file
                },
            }
        }),
{
}

/// What is listed of each group of the base segment: its rows, and the statistics of
/// its columns.
pub proof fn law_listed_groups(known: ProjectionView, i: int)
    ensures
        ({
            let list = projection::group_statistics_of(known);
            match known.lazy {
                None => {
                    &&& list.len() == known.groups.len()
                    &&& 0 <= i < known.groups.len() ==> list[i].rows == known.groups[i].rows
                        && list[i].columns == known.groups[i].statistics
                },
                Some(lazy) => {
                    let entries = lazy.parts.base_groups;
                    &&& list.len() == entries.len()
                    &&& 0 <= i < entries.len() ==> list[i].rows == entries[i].rows
                        && list[i].columns.len() == entries[i].columns.len() && forall|c: int|
                        0 <= c < entries[i].columns.len() ==> #[trigger] list[i].columns[c] == (
                            entries[i].columns[c].spec.column_id,
                            entries[i].columns[c].statistics,
                        )
                },
            }
        }),
{
    if let Some(lazy) = known.lazy {
        let entries = lazy.parts.base_groups;
        if 0 <= i < entries.len() {
            assert(projection::group_statistics_of(known)[i].columns
                == block::directory_statistics(entries[i]));
        }
    }
}

} // verus!
