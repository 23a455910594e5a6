//! What a projection is asked for, and what it is made of.
use super::advance;
use super::advance_count_laws;
use super::block::LazyGroupView;
use super::compact;
use super::delta_laws;
use super::error::{self, ColumnarError};
use super::feed;
use super::group::{self, TableDef};
use super::indexed;
use super::lazy_compact;
use super::lazy_scan;
use super::open::FileBytes;
use super::overlay;
use super::payload::Fetched;
use super::prepare;
use super::project::{self, RowBatchView};
use super::project_laws;
use super::projection::{self, ProjectionView};
use super::scan;
use super::statistics::ColumnarConstraint;
use super::vector::ColumnarColumnSpec;
use super::version::StorageSnapshotToken;
use crate::change_stream::stream::ChangeStreamCursor;
use crate::ids::{ColumnId, ColumnarGeneration, ColumnarProjectionId, StorageId};
use crate::value::ScalarView;
use vstd::prelude::*;

verus! {

/// Whether a projection has a column.
pub open spec fn has_spec(specs: Seq<ColumnarColumnSpec>, column: ColumnId) -> bool {
    exists|p: int| 0 <= p < specs.len() && (#[trigger] specs[p]).column_id == column
}

/// Columns can be asked for exactly where the projection has each. Else the answer
/// names the first that it does not have.
pub proof fn law_wanted_columns(
    specs: Seq<ColumnarColumnSpec>,
    columns: Seq<ColumnId>,
    n: int,
)
    requires
        0 <= n <= columns.len(),
    ensures
        match scan::unknown_error(specs, columns, n) {
            None => forall|i: int| 0 <= i < n ==> has_spec(specs, #[trigger] columns[i]),
            Some(error) => exists|i: int|
                0 <= i < n && !has_spec(specs, #[trigger] columns[i]) && error
                    == ColumnarError::UnknownColumn(columns[i]) && forall|j: int|
                    0 <= j < i ==> has_spec(specs, #[trigger] columns[j]),
        },
    decreases n,
{
    if n > 0 {
        law_wanted_columns(specs, columns, n - 1);
        let ids = group::spec_ids(specs);
        let column = columns[n - 1];
        group::lemma_place(ids, column, 0);
        match group::place_of(ids, column) {
            Some(p) => {
                assert(specs[p].column_id == column);
            },
            None => {
                assert forall|p: int| 0 <= p < specs.len() implies (
                #[trigger] specs[p]).column_id != column by {
                    assert(ids[p] == specs[p].column_id);
                }
            },
        }
    }
}

/// Whether a value is that of a row in a column.
pub open spec fn value_at(
    specs: Seq<ColumnarColumnSpec>,
    row: Seq<ScalarView>,
    column: ColumnId,
    value: ScalarView,
) -> bool {
    exists|p: int|
        0 <= p < specs.len() && (#[trigger] specs[p]).column_id == column && row[p] == value
}

/// A wanted row has the value of each wanted column.
pub proof fn law_wanted_values(
    specs: Seq<ColumnarColumnSpec>,
    columns: Seq<ColumnId>,
    row: Seq<ScalarView>,
    i: int,
)
    requires
        scan::unknown_error(specs, columns, columns.len() as int) is None,
        0 <= i < columns.len(),
    ensures
        scan::wanted_row(specs, columns, row).len() == columns.len(),
        value_at(specs, row, columns[i], scan::wanted_row(specs, columns, row)[i]),
{
    scan::lemma_known_column(specs, columns, i);
    let p = scan::position_of(specs, columns[i]);
    assert(specs[p].column_id == columns[i]);
}

/// A projection is scanned and compacted out of what it holds: out of its groups and
/// added rows where it holds them, and else out of the blocks that its directories
/// name.
pub proof fn law_how_a_projection_is_read(
    known: ProjectionView,
    columns: Seq<ColumnId>,
    constraints: Seq<ColumnarConstraint>,
    blocks: Seq<Fetched>,
    table: TableDef,
    generation: ColumnarGeneration,
    base_blocks: Seq<Vec<Fetched>>,
    added_blocks: Seq<Vec<Fetched>>,
)
    ensures
        known.lazy is None ==> {
            &&& projection::scan_needs(known, columns, constraints).len() == 0
            &&& projection::scan_spec(known, columns, constraints, blocks) == scan::eager_scan(
                known.metadata,
                known.groups,
                known.added,
                columns,
                constraints,
            )
            &&& projection::compaction_spec(known, table, generation, base_blocks, added_blocks)
                == compact::eager_compaction(
                known.metadata,
                known.groups,
                known.added,
                table,
                generation,
            )
        },
        known.lazy matches Some(lazy) ==> {
            &&& projection::scan_needs(known, columns, constraints) == indexed::scan_requests(
                lazy.parts,
                columns,
                constraints,
            )
            &&& projection::scan_spec(known, columns, constraints, blocks) == lazy_scan::lazy_scan(
                known.metadata,
                lazy.parts,
                columns,
                constraints,
                blocks,
            )
            &&& projection::compaction_spec(known, table, generation, base_blocks, added_blocks)
                == lazy_compact::lazy_compaction(
                known.metadata,
                lazy.parts,
                table,
                generation,
                base_blocks,
                added_blocks,
            )
        },
{
}

// ---------------------------------------------------------------------------
// Preparation
// ---------------------------------------------------------------------------
/// A snapshot offers its rows in order; one is refused exactly where it has not a
/// value for each column.
pub proof fn law_snapshot_rows(width: nat, rows: Seq<Seq<ScalarView>>, i: int)
    requires
        0 <= i < rows.len(),
    ensures
        ({
            let offers = prepare::snapshot_offers(width, rows);
            &&& offers.len() == rows.len()
            &&& feed::offer_rows(offers)[i] == rows[i]
            &&& feed::refusal(false, offers, i) is None <==> rows[i].len() == width
        }),
{
}

/// A source is that of a projection exactly where its snapshot, and its change stream
/// if it has one, are of the storage, and the stream has a generation.
pub proof fn law_source_of_a_projection(
    storage_id: StorageId,
    token: StorageSnapshotToken,
    cursor: Option<ChangeStreamCursor>,
    mismatch: &'static str,
)
    ensures
        prepare::source_error(storage_id, token, cursor, mismatch) is None <==> {
            &&& token.storage_id == storage_id
            &&& cursor matches Some(at) ==> at.storage_id == storage_id && at.generation.0 != 0
        },
{
}

/// What is ordered for a table: its identity and schema, the wanted columns with
/// their types, and the size of groups that was asked for, or the usual one.
pub proof fn law_ordered_projection(
    id: ColumnarProjectionId,
    generation: ColumnarGeneration,
    table: TableDef,
    storage_id: StorageId,
    token: StorageSnapshotToken,
    cursor: Option<ChangeStreamCursor>,
    columns: Seq<ColumnId>,
    row_group_rows: Option<usize>,
)
    ensures
        ({
            let order = prepare::table_order(
                id,
                generation,
                table,
                storage_id,
                token,
                cursor,
                columns,
                row_group_rows,
            );
            &&& order.id == id
            &&& order.generation == generation
            &&& order.table_id == table.id
            &&& order.storage_id == storage_id
            &&& order.token == token
            &&& table.fingerprint matches Ok(fingerprint) ==> order.fingerprint == fingerprint
            &&& order.columns == group::resolved(table.columns@, columns)
            &&& order.cursor == cursor
            &&& row_group_rows matches Some(rows) ==> order.group_rows == rows
            &&& row_group_rows is None ==> order.group_rows == 256
        }),
        forall|rows: usize| #[trigger]
            prepare::size_error(rows) is None <==> 0 < rows <= u32::MAX,
{
}

// ---------------------------------------------------------------------------
// Advancing
// ---------------------------------------------------------------------------
/// Advancing an indexed projection counts every change of the batches, and those that
/// bring a row, and tells how many versions are live and how many were replaced once
/// the changes were taken.
pub proof fn law_indexed_advance_counts_changes(
    known: ProjectionView,
    table: TableDef,
    batches: Seq<RowBatchView>,
    current: FileBytes,
)
    requires
        advance::advance_spec(known, table, batches, current) is Ok,
        project_laws::changes_before(batches, batches.len() as int) <= u64::MAX,
        known.lazy is Some,
    ensures
        ({
            let view = advance::advance_spec(known, table, batches, current)->Ok_0;
            let before = known.metadata.incremental->0;
            let after = view.metadata.incremental->0;
            let last = after.delta_segments.last();
            let parts = known.lazy->0.parts;
            let mutations = project::projection_of(table.columns@, known.metadata, batches)->Ok_0;
            let n = project_laws::changes_before(batches, batches.len() as int);
            let moved = overlay::steps(
                parts.added,
                overlay::all_located(
                    delta_laws::descriptors_of(mutations),
                    parts.deltas.len() as u32,
                ),
                "invalid lazy delta mutation image",
                n,
            );
            &&& mutations.len() == n
            &&& moved is Ok
            &&& last.mutation_count == n
            &&& last.after_row_count == advance_count_laws::bringing(mutations, n)
            &&& after.delta_mutation_count == before.delta_mutation_count + n
            &&& after.delta_bytes == before.delta_bytes + last.bytes
            &&& moved->Ok_0.live_keys.len() <= u64::MAX ==> after.delta_live_row_count
                == moved->Ok_0.live_keys.len()
            &&& moved->Ok_0.suppressed.len() <= u64::MAX ==> after.suppressed_version_count
                == moved->Ok_0.suppressed.len()
            &&& after.stream_generation == before.stream_generation
            &&& view.metadata.segment_count == 1 + before.delta_segments.len() + 1
        }),
{
    let mutations = project::projection_of(table.columns@, known.metadata, batches)->Ok_0;
    project_laws::law_row_changes_come_in_order(table.columns@, known.metadata, batches);
    advance_count_laws::lemma_brought(mutations, mutations.len() as int);
}

// ---------------------------------------------------------------------------
// Representation
// ---------------------------------------------------------------------------
/// How many columns the first `n` groups have in all.
pub open spec fn columns_in(groups: Seq<LazyGroupView>, n: int) -> int
    decreases n,
{
    if n <= 0 {
        0
    } else {
        columns_in(groups, n - 1) + groups[n - 1].columns.len()
    }
}

/// How many of the first `n` groups have a block of versions.
pub open spec fn versioned_in(groups: Seq<LazyGroupView>, n: int) -> int
    decreases n,
{
    if n <= 0 {
        0
    } else {
        versioned_in(groups, n - 1) + if groups[n - 1].source_versions is Some {
            1int
        } else {
            0
        }
    }
}

/// The chunks of groups are their columns, and their blocks are these and their
/// blocks of versions; a count that does not fit is the largest.
pub proof fn law_counted_blocks(groups: Seq<LazyGroupView>, n: int)
    requires
        0 <= n <= groups.len(),
    ensures
        0 <= columns_in(groups, n),
        0 <= versioned_in(groups, n),
        projection::chunk_count(groups, n) == if columns_in(groups, n) > u64::MAX {
            u64::MAX as int
        } else {
            columns_in(groups, n)
        },
        projection::block_count(groups, n) == if columns_in(groups, n) + versioned_in(groups, n)
            > u64::MAX {
            u64::MAX as int
        } else {
            columns_in(groups, n) + versioned_in(groups, n)
        },
    decreases n,
{
    if n > 0 {
        law_counted_blocks(groups, n - 1);
    }
}

/// Which errors make a projection invalid: those of its files. Those of what it was
/// asked for do not.
pub proof fn law_errors_that_invalidate(error: ColumnarError)
    ensures
        error::invalidates(error) <==> !(error is Schema || error is InvalidInput
            || error is UnknownColumn || error is TypeMismatch),
{
}

} // verus!
