//! What the row changes of change batches are: one for each change, in the order
//! of the batches and of the changes in each.
use super::error::ColumnarError;
use super::group::{self, ColumnDef};
use super::metadata::{IncrementalView, MetadataView};
use super::overlay::{self, DeltaMutation, OverlayView};
use super::project::{self, RowBatchView};
use super::vector::ColumnarColumnSpec;
use super::version;
use crate::change_stream::types::{StorageChange, StorageVersionKey};
use crate::ids::StorageDataVersion;
use crate::value::ScalarView;
use vstd::prelude::*;

verus! {

/// Whether a place is the first in a table that has a column.
pub open spec fn first_place(table: Seq<ColumnDef>, column: ColumnarColumnSpec, place: int) -> bool {
    &&& 0 <= place < table.len()
    &&& table[place].id == column.column_id
    &&& forall|q: int| 0 <= q < place ==> (#[trigger] table[q]).id != column.column_id
}

/// Whether a table has every column of a projection.
pub open spec fn has_all(table: Seq<ColumnDef>, columns: Seq<ColumnarColumnSpec>) -> bool {
    forall|c: int|
        0 <= c < columns.len() ==> exists|p: int|
            0 <= p < table.len() && (#[trigger] table[p]).id == (#[trigger] columns[c]).column_id
}

/// Whether a row has, for each column of a projection, the value that a row of
/// the table has there.
pub open spec fn row_projected(
    table: Seq<ColumnDef>,
    columns: Seq<ColumnarColumnSpec>,
    after: Seq<ScalarView>,
    row: Seq<ScalarView>,
) -> bool {
    &&& row.len() == columns.len()
    &&& forall|c: int, p: int|
        0 <= c < columns.len() && #[trigger] first_place(table, columns[c], p) ==> p < after.len()
            && row[c] == after[p]
}

/// Whether a row of a table reaches to every column of a projection.
pub open spec fn row_reaches(
    table: Seq<ColumnDef>,
    columns: Seq<ColumnarColumnSpec>,
    after: Seq<ScalarView>,
) -> bool {
    forall|c: int, p: int|
        0 <= c < columns.len() && #[trigger] first_place(table, columns[c], p) ==> p < after.len()
}

/// Whether a row change is that of a change: an insert brings its version with
/// the projected row, an update replaces its old version by its new one with the
/// projected row, and a delete replaces its version by nothing.
pub open spec fn row_change(
    table: Seq<ColumnDef>,
    columns: Seq<ColumnarColumnSpec>,
    change: StorageChange<Seq<ScalarView>>,
    mutation: DeltaMutation<Seq<ScalarView>>,
) -> bool {
    match change {
        StorageChange::Insert { new_version, after } => {
            &&& mutation.old_version is None
            &&& mutation.new_version == Some(new_version)
            &&& mutation.after is Some
            &&& row_projected(table, columns, after, mutation.after->0)
        },
        StorageChange::Update { old_version, new_version, after } => {
            &&& mutation.old_version == Some(old_version)
            &&& mutation.new_version == Some(new_version)
            &&& mutation.after is Some
            &&& row_projected(table, columns, after, mutation.after->0)
        },
        StorageChange::Delete { old_version } => {
            &&& mutation.old_version == Some(old_version)
            &&& mutation.new_version is None
            &&& mutation.after is None
        },
    }
}

/// How many changes the first `n` batches hold.
pub open spec fn changes_before(batches: Seq<RowBatchView>, n: int) -> int
    decreases n,
{
    if n <= 0 {
        0
    } else {
        changes_before(batches, n - 1) + batches[n - 1].mutations.len()
    }
}

/// Whether a version is one of a projection's storage.
pub open spec fn own_version(known: MetadataView, key: StorageVersionKey) -> bool {
    version::key_error(key, known.source_storage_id, known.source_token.kind) is None
}

/// Whether a change can be projected: its versions are of the projection's
/// storage, an update changes the version, and its row reaches to every column.
pub open spec fn change_fits(
    table: Seq<ColumnDef>,
    known: MetadataView,
    change: StorageChange<Seq<ScalarView>>,
) -> bool {
    match change {
        StorageChange::Insert { new_version, after } => {
            &&& own_version(known, new_version)
            &&& row_reaches(table, known.columns, after)
        },
        StorageChange::Update { old_version, new_version, after } => {
            &&& own_version(known, old_version)
            &&& own_version(known, new_version)
            &&& old_version != new_version
            &&& row_reaches(table, known.columns, after)
        },
        StorageChange::Delete { old_version } => own_version(known, old_version),
    }
}

/// Whether a batch is of a projection's source, and advances from a frontier.
pub open spec fn batch_fits(
    table: Seq<ColumnDef>,
    known: MetadataView,
    batch: RowBatchView,
    frontier: StorageDataVersion,
) -> bool {
    &&& batch.table_id == known.table_id
    &&& batch.storage_id == known.source_storage_id
    &&& batch.schema_fingerprint == known.schema_fingerprint
    &&& batch.before == frontier
    &&& batch.before.0 < batch.after.0
    &&& forall|c: int|
        0 <= c < batch.mutations.len() ==> change_fits(table, known, #[trigger] batch.mutations[c])
}

/// The frontier behind the first `n` batches.
pub open spec fn frontier_after(
    batches: Seq<RowBatchView>,
    start: StorageDataVersion,
    n: int,
) -> StorageDataVersion {
    if n <= 0 {
        start
    } else {
        batches[n - 1].after
    }
}

proof fn lemma_positions(
    table: Seq<ColumnDef>,
    columns: Seq<ColumnarColumnSpec>,
    n: int,
)
    requires
        0 <= n <= columns.len(),
    ensures
        project::positions_error(table, columns, n) is None <==> forall|c: int|
            0 <= c < n ==> exists|p: int|
                0 <= p < table.len() && (#[trigger] table[p]).id == (
                #[trigger] columns[c]).column_id,
        project::positions_error(table, columns, n) is None ==> forall|c: int|
            0 <= c < n ==> first_place(
                table,
                columns[c],
                #[trigger] project::positions_of(table, columns)[c],
            ),
    decreases n,
{
    if n > 0 {
        lemma_positions(table, columns, n - 1);
        let ids = group::table_ids(table);
        let id = columns[n - 1].column_id;
        group::lemma_place(ids, id, 0);
        lemma_first(ids, id, 0);
        if let Some(p) = group::place_of(ids, id) {
            assert(table[p].id == id);
            assert(first_place(table, columns[n - 1], p)) by {
                assert forall|q: int| 0 <= q < p implies (#[trigger] table[q]).id != id by {
                    assert(ids[q] == table[q].id);
                }
            }
        } else {
            assert forall|p: int| 0 <= p < table.len() implies (#[trigger] table[p]).id != id by {
                assert(ids[p] == table[p].id);
            }
        }
    }
}

proof fn lemma_first(ids: Seq<crate::ids::ColumnId>, id: crate::ids::ColumnId, from: int)
    requires
        0 <= from,
    ensures
        group::place_from(ids, id, from) matches Some(p) ==> forall|q: int|
            from <= q < p ==> ids[q] != id,
    decreases ids.len() - from,
{
    if from < ids.len() && ids[from] != id {
        lemma_first(ids, id, from + 1);
    }
}

proof fn lemma_first_unique(
    table: Seq<ColumnDef>,
    column: ColumnarColumnSpec,
    p: int,
    q: int,
)
    requires
        first_place(table, column, p),
        first_place(table, column, q),
    ensures
        p == q,
{
    if p < q {
        assert(table[p].id != column.column_id);
    } else if q < p {
        assert(table[q].id != column.column_id);
    }
}

proof fn lemma_row(table: Seq<ColumnDef>, columns: Seq<ColumnarColumnSpec>, after: Seq<ScalarView>)
    requires
        has_all(table, columns),
    ensures
        match project::projected_row(after, project::positions_of(table, columns)) {
            Ok(row) => row_reaches(table, columns, after) && row_projected(
                table,
                columns,
                after,
                row,
            ),
            Err(_) => !row_reaches(table, columns, after),
        },
{
    let positions = project::positions_of(table, columns);
    lemma_positions(table, columns, columns.len() as int);
    if forall|i: int| 0 <= i < positions.len() ==> (#[trigger] positions[i]) < after.len() {
        assert forall|c: int, p: int|
            0 <= c < columns.len() && #[trigger] first_place(table, columns[c], p) implies p
            < after.len() && positions.map_values(|position: int| after[position])[c]
            == after[p] by {
            assert(first_place(table, columns[c], positions[c]));
            lemma_first_unique(table, columns[c], p, positions[c]);
        }
    } else {
        let i = choose|i: int| 0 <= i < positions.len() && !((#[trigger] positions[i]) < after.len());
        assert(first_place(table, columns[i], positions[i]));
    }
}

proof fn lemma_mutation(
    table: Seq<ColumnDef>,
    known: MetadataView,
    change: StorageChange<Seq<ScalarView>>,
)
    requires
        has_all(table, known.columns),
    ensures
        match project::projected_mutation(
            change,
            project::positions_of(table, known.columns),
            known,
        ) {
            Ok(mutation) => change_fits(table, known, change) && row_change(
                table,
                known.columns,
                change,
                mutation,
            ),
            Err(_) => !change_fits(table, known, change),
        },
{
    match change {
        StorageChange::Insert { after, .. } => lemma_row(table, known.columns, after),
        StorageChange::Update { after, .. } => lemma_row(table, known.columns, after),
        StorageChange::Delete { .. } => {},
    }
}

proof fn lemma_changes(
    table: Seq<ColumnDef>,
    known: MetadataView,
    changes: Seq<StorageChange<Seq<ScalarView>>>,
    n: int,
)
    requires
        has_all(table, known.columns),
        0 <= n <= changes.len(),
    ensures
        match project::projected_changes(
            changes,
            project::positions_of(table, known.columns),
            known,
            n,
        ) {
            Ok(list) => {
                &&& list.len() == n
                &&& forall|c: int|
                    0 <= c < n ==> change_fits(table, known, #[trigger] changes[c]) && row_change(
                        table,
                        known.columns,
                        changes[c],
                        list[c],
                    )
            },
            Err(_) => exists|c: int|
                0 <= c < n && !change_fits(table, known, #[trigger] changes[c]),
        },
    decreases n,
{
    if n > 0 {
        lemma_changes(table, known, changes, n - 1);
        lemma_mutation(table, known, changes[n - 1]);
    }
}

proof fn lemma_changes_before(batches: Seq<RowBatchView>, b: int, n: int)
    requires
        0 <= b <= n,
    ensures
        0 <= changes_before(batches, b) <= changes_before(batches, n),
    decreases n,
{
    if n > 0 {
        if b < n {
            lemma_changes_before(batches, b, n - 1);
        } else {
            lemma_changes_before(batches, n - 1, n - 1);
        }
    }
}

proof fn lemma_batches_fit(
    table: Seq<ColumnDef>,
    known: MetadataView,
    batches: Seq<RowBatchView>,
    n: int,
)
    requires
        has_all(table, known.columns),
        known.incremental is Some,
        0 <= n <= batches.len(),
    ensures
        match project::projected_batches(
            batches,
            project::positions_of(table, known.columns),
            known,
            n,
        ) {
            Ok((list, frontier)) => {
                &&& frontier == frontier_after(batches, known.incremental->0.applied_frontier, n)
                &&& list.len() == changes_before(batches, n)
                &&& forall|b: int|
                    0 <= b < n ==> batch_fits(
                        table,
                        known,
                        #[trigger] batches[b],
                        frontier_after(batches, known.incremental->0.applied_frontier, b),
                    )
            },
            Err(_) => exists|b: int|
                0 <= b < n && !batch_fits(
                    table,
                    known,
                    #[trigger] batches[b],
                    frontier_after(batches, known.incremental->0.applied_frontier, b),
                ),
        },
    decreases n,
{
    if n > 0 {
        lemma_batches_fit(table, known, batches, n - 1);
        let batch = batches[n - 1];
        lemma_changes(table, known, batch.mutations, batch.mutations.len() as int);
    }
}

proof fn lemma_batch_rows(
    table: Seq<ColumnDef>,
    known: MetadataView,
    batches: Seq<RowBatchView>,
    n: int,
    b: int,
    c: int,
)
    requires
        has_all(table, known.columns),
        known.incremental is Some,
        0 <= b < n <= batches.len(),
        0 <= c < batches[b].mutations.len(),
        project::projected_batches(
            batches,
            project::positions_of(table, known.columns),
            known,
            n,
        ) is Ok,
    ensures
        row_change(
            table,
            known.columns,
            batches[b].mutations[c],
            project::projected_batches(
                batches,
                project::positions_of(table, known.columns),
                known,
                n,
            )->Ok_0.0[changes_before(batches, b) + c],
        ),
    decreases n,
{
    let batch = batches[n - 1];
    lemma_batches_fit(table, known, batches, n - 1);
    lemma_changes_before(batches, b, n - 1);
    if b < n - 1 {
        lemma_batch_rows(table, known, batches, n - 1, b, c);
        lemma_changes_before(batches, b + 1, n - 1);
    } else {
        lemma_changes(table, known, batch.mutations, batch.mutations.len() as int);
    }
}

/// The row changes that batches give are as many as the batches hold changes,
/// and each change has its own, in the order of the batches and of the changes
/// in each.
pub proof fn law_row_changes_come_in_order(
    table: Seq<ColumnDef>,
    known: MetadataView,
    batches: Seq<RowBatchView>,
)
    ensures
        project::projection_of(table, known, batches) matches Ok(list) ==> {
            &&& list.len() == changes_before(batches, batches.len() as int)
            &&& forall|b: int, c: int|
                0 <= b < batches.len() && 0 <= c < batches[b].mutations.len() ==> row_change(
                    table,
                    known.columns,
                    #[trigger] batches[b].mutations[c],
                    list[changes_before(batches, b) + c],
                )
        },
{
    if let Ok(list) = project::projection_of(table, known, batches) {
        let n = batches.len() as int;
        lemma_positions(table, known.columns, known.columns.len() as int);
        lemma_batches_fit(table, known, batches, n);
        assert forall|b: int, c: int|
            0 <= b < batches.len() && 0 <= c < batches[b].mutations.len() implies row_change(
            table,
            known.columns,
            #[trigger] batches[b].mutations[c],
            list[changes_before(batches, b) + c],
        ) by {
            lemma_batch_rows(table, known, batches, n, b, c);
        }
    }
}

/// Batches are projected exactly where the projection follows a change stream,
/// the table has all its columns, and each batch fits and continues from where
/// the one before it ended, the first from where the projection stands.
pub proof fn law_fitting_batches_are_projected(
    table: Seq<ColumnDef>,
    known: MetadataView,
    batches: Seq<RowBatchView>,
)
    ensures
        project::projection_of(table, known, batches) is Ok <==> {
            &&& known.incremental is Some
            &&& has_all(table, known.columns)
            &&& forall|b: int|
                0 <= b < batches.len() ==> batch_fits(
                    table,
                    known,
                    #[trigger] batches[b],
                    frontier_after(batches, known.incremental->0.applied_frontier, b),
                )
        },
{
    lemma_positions(table, known.columns, known.columns.len() as int);
    if known.incremental is Some && has_all(table, known.columns) {
        lemma_batches_fit(table, known, batches, batches.len() as int);
    }
}

/// Two row changes of one change are the same.
proof fn lemma_row_change_unique(
    table: Seq<ColumnDef>,
    columns: Seq<ColumnarColumnSpec>,
    change: StorageChange<Seq<ScalarView>>,
    left: DeltaMutation<Seq<ScalarView>>,
    right: DeltaMutation<Seq<ScalarView>>,
)
    requires
        has_all(table, columns),
        row_change(table, columns, change, left),
        row_change(table, columns, change, right),
    ensures
        left == right,
{
    lemma_positions(table, columns, columns.len() as int);
    let positions = project::positions_of(table, columns);
    match (left.after, right.after) {
        (Some(a), Some(b)) => {
            assert forall|c: int| 0 <= c < columns.len() implies a[c] == b[c] by {
                assert(first_place(table, columns[c], positions[c]));
            }
            assert(a =~= b);
        },
        _ => {},
    }
}

/// A projection that has followed its change stream further.
pub open spec fn advanced_to(known: MetadataView, frontier: StorageDataVersion) -> MetadataView {
    MetadataView {
        incremental: Some(
            IncrementalView { applied_frontier: frontier, ..known.incremental->0 },
        ),
        ..known
    }
}

proof fn lemma_parts_fit(
    table: Seq<ColumnDef>,
    known: MetadataView,
    first: Seq<RowBatchView>,
    rest: Seq<RowBatchView>,
)
    requires
        project::projection_of(table, known, first + rest) is Ok,
    ensures
        known.incremental is Some,
        has_all(table, known.columns),
        project::projection_of(table, known, first) is Ok,
        project::projection_of(
            table,
            advanced_to(
                known,
                frontier_after(first, known.incremental->0.applied_frontier, first.len() as int),
            ),
            rest,
        ) is Ok,
{
    let batches = first + rest;
    let start = known.incremental->0.applied_frontier;
    let middle = frontier_after(first, start, first.len() as int);
    let later = advanced_to(known, middle);
    law_fitting_batches_are_projected(table, known, batches);
    assert forall|b: int| 0 <= b < first.len() implies batch_fits(
        table,
        known,
        #[trigger] first[b],
        frontier_after(first, start, b),
    ) by {
        assert(batches[b] == first[b]);
        if b > 0 {
            assert(batches[b - 1] == first[b - 1]);
        }
    }
    assert forall|b: int| 0 <= b < rest.len() implies batch_fits(
        table,
        later,
        #[trigger] rest[b],
        frontier_after(rest, middle, b),
    ) by {
        let at = first.len() + b;
        assert(batches[at] == rest[b]);
        if b > 0 {
            assert(batches[at - 1] == rest[b - 1]);
        } else if at > 0 {
            assert(batches[at - 1] == first[at - 1]);
        }
        assert(batch_fits(table, known, batches[at], frontier_after(batches, start, at)));
        assert forall|c: int| 0 <= c < rest[b].mutations.len() implies change_fits(
            table,
            later,
            #[trigger] rest[b].mutations[c],
        ) by {
            assert(change_fits(table, known, batches[at].mutations[c]));
        }
    }
    law_fitting_batches_are_projected(table, known, first);
    law_fitting_batches_are_projected(table, later, rest);
}

proof fn lemma_row_of(
    table: Seq<ColumnDef>,
    known: MetadataView,
    batches: Seq<RowBatchView>,
    b: int,
    c: int,
)
    requires
        0 <= b < batches.len(),
        0 <= c < batches[b].mutations.len(),
        project::projection_of(table, known, batches) is Ok,
    ensures
        0 <= changes_before(batches, b) + c < project::projection_of(
            table,
            known,
            batches,
        )->Ok_0.len(),
        row_change(
            table,
            known.columns,
            batches[b].mutations[c],
            project::projection_of(table, known, batches)->Ok_0[changes_before(batches, b) + c],
        ),
{
    law_row_changes_come_in_order(table, known, batches);
    lemma_changes_before(batches, b, b);
    lemma_changes_before(batches, b + 1, batches.len() as int);
}

/// The row changes of batches are those of the first of them, and behind them
/// those of the others, taken from where the first ones ended.
pub proof fn law_projecting_goes_on(
    table: Seq<ColumnDef>,
    known: MetadataView,
    first: Seq<RowBatchView>,
    rest: Seq<RowBatchView>,
)
    requires
        project::projection_of(table, known, first + rest) is Ok,
    ensures
        ({
            let start = known.incremental->0.applied_frontier;
            let later = advanced_to(known, frontier_after(first, start, first.len() as int));
            let front = project::projection_of(table, known, first);
            let back = project::projection_of(table, later, rest);
            &&& front is Ok
            &&& back is Ok
            &&& project::projection_of(table, known, first + rest)->Ok_0 == front->Ok_0
                + back->Ok_0
        }),
{
    let batches = first + rest;
    let start = known.incremental->0.applied_frontier;
    let later = advanced_to(known, frontier_after(first, start, first.len() as int));
    lemma_parts_fit(table, known, first, rest);
    let list = project::projection_of(table, known, batches)->Ok_0;
    let front = project::projection_of(table, known, first)->Ok_0;
    let back = project::projection_of(table, later, rest)->Ok_0;
    assert(list.len() == changes_before(batches, batches.len() as int)) by {
        law_row_changes_come_in_order(table, known, batches);
    }
    assert(front.len() == changes_before(first, first.len() as int)) by {
        law_row_changes_come_in_order(table, known, first);
    }
    assert(back.len() == changes_before(rest, rest.len() as int)) by {
        law_row_changes_come_in_order(table, later, rest);
    }
    lemma_joined_counts(first, rest, first.len() as int, rest.len() as int);
    assert forall|i: int| 0 <= i < list.len() implies list[i] == (front + back)[i] by {
        let (b, c) = lemma_home(batches, batches.len() as int, i);
        lemma_row_of(table, known, batches, b, c);
        if b < first.len() {
            assert(batches[b] == first[b]);
            lemma_joined_counts(first, rest, b, 0);
            lemma_row_of(table, known, first, b, c);
            lemma_row_change_unique(
                table,
                known.columns,
                first[b].mutations[c],
                list[i],
                front[i],
            );
        } else {
            let k = b - first.len();
            assert(batches[b] == rest[k]);
            lemma_joined_counts(first, rest, first.len() as int, k);
            lemma_row_of(table, later, rest, k, c);
            lemma_row_change_unique(
                table,
                known.columns,
                rest[k].mutations[c],
                list[i],
                back[i - front.len()],
            );
        }
    }
    assert(list =~= front + back);
}

proof fn lemma_joined_counts(
    first: Seq<RowBatchView>,
    rest: Seq<RowBatchView>,
    n: int,
    k: int,
)
    requires
        0 <= n <= first.len(),
        0 <= k <= rest.len(),
        k > 0 ==> n == first.len(),
    ensures
        changes_before(first + rest, n + k) == changes_before(first, n) + changes_before(rest, k),
    decreases n + k,
{
    let all = first + rest;
    if k > 0 {
        lemma_joined_counts(first, rest, n, k - 1);
        assert(all[n + k - 1] == rest[k - 1]);
    } else if n > 0 {
        lemma_joined_counts(first, rest, n - 1, 0);
        assert(all[n - 1] == first[n - 1]);
    }
}

/// Which change stands at a place in the order of all changes.
proof fn lemma_home(batches: Seq<RowBatchView>, n: int, i: int) -> (home: (int, int))
    requires
        0 <= n <= batches.len(),
        0 <= i < changes_before(batches, n),
    ensures
        0 <= home.0 < n,
        0 <= home.1 < batches[home.0].mutations.len(),
        i == changes_before(batches, home.0) + home.1,
    decreases n,
{
    if i >= changes_before(batches, n - 1) {
        (n - 1, i - changes_before(batches, n - 1))
    } else {
        lemma_home(batches, n - 1, i)
    }
}

/// Taking an overlay through row changes, and then through others, is taking it
/// through both.
pub proof fn law_steps_go_on<R>(
    added: OverlayView<R>,
    first: Seq<DeltaMutation<R>>,
    rest: Seq<DeltaMutation<R>>,
    invalid: &'static str,
    k: int,
)
    requires
        0 <= k <= rest.len(),
    ensures
        overlay::steps(added, first + rest, invalid, first.len() + k) == match overlay::steps(
            added,
            first,
            invalid,
            first.len() as int,
        ) {
            Ok(next) => overlay::steps(next, rest, invalid, k),
            Err(error) => Err::<OverlayView<R>, ColumnarError>(error),
        },
    decreases k,
{
    if k > 0 {
        law_steps_go_on(added, first, rest, invalid, k - 1);
        assert((first + rest)[first.len() + k - 1] == rest[k - 1]);
    } else {
        lemma_steps_front(added, first, rest, invalid, first.len() as int);
    }
}

proof fn lemma_steps_front<R>(
    added: OverlayView<R>,
    first: Seq<DeltaMutation<R>>,
    rest: Seq<DeltaMutation<R>>,
    invalid: &'static str,
    n: int,
)
    requires
        0 <= n <= first.len(),
    ensures
        overlay::steps(added, first + rest, invalid, n) == overlay::steps(
            added,
            first,
            invalid,
            n,
        ),
    decreases n,
{
    if n > 0 {
        lemma_steps_front(added, first, rest, invalid, n - 1);
        assert((first + rest)[n - 1] == first[n - 1]);
    }
}

/// Taking the overlay of a projection through the row changes of batches has the
/// effect of the batches one after the other: first those in front, then, from
/// where they ended, those behind.
pub proof fn law_batches_apply_one_after_the_other(
    table: Seq<ColumnDef>,
    known: MetadataView,
    first: Seq<RowBatchView>,
    rest: Seq<RowBatchView>,
    added: OverlayView<Seq<ScalarView>>,
    invalid: &'static str,
)
    requires
        project::projection_of(table, known, first + rest) is Ok,
    ensures
        ({
            let start = known.incremental->0.applied_frontier;
            let later = advanced_to(known, frontier_after(first, start, first.len() as int));
            let all = project::projection_of(table, known, first + rest)->Ok_0;
            let front = project::projection_of(table, known, first)->Ok_0;
            let back = project::projection_of(table, later, rest)->Ok_0;
            overlay::steps(added, all, invalid, all.len() as int) == match overlay::steps(
                added,
                front,
                invalid,
                front.len() as int,
            ) {
                Ok(next) => overlay::steps(next, back, invalid, back.len() as int),
                Err(error) => Err::<OverlayView<Seq<ScalarView>>, ColumnarError>(error),
            }
        }),
{
    law_projecting_goes_on(table, known, first, rest);
    let start = known.incremental->0.applied_frontier;
    let later = advanced_to(known, frontier_after(first, start, first.len() as int));
    let front = project::projection_of(table, known, first)->Ok_0;
    let back = project::projection_of(table, later, rest)->Ok_0;
    law_steps_go_on(added, front, back, invalid, back.len() as int);
}

} // verus!
