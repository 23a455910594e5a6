//! What constraints do to a scan: they leave out groups in which no row can meet
//! one of them, and nothing else.
use super::compact;
use super::group::{self, GroupView};
use super::indexed::{self, LazyView};
use super::lazy_scan;
use super::lazy_scan_laws;
use super::metadata::MetadataView;
use super::overlay::OverlayView;
use super::payload::Fetched;
use super::scan::{self, Scanned};
use super::scan_laws;
use super::segment_laws;
use super::select;
use super::statistics::{self, ColumnarConstraint, ConstraintView, StatisticsView};
use super::vector::{self, ColumnarColumnSpec};
use crate::change_stream::types::StorageVersionKey;
use crate::ids::ColumnId;
use crate::value::{self, Ordered, ScalarView};
use vstd::prelude::*;

verus! {

// ---------------------------------------------------------------------------
// Ranges
// ---------------------------------------------------------------------------
/// Whether a value is not below a lower bound.
pub open spec fn above(value: ScalarView, lower: (ScalarView, bool)) -> bool {
    let order = value::value_order(value, lower.0);
    order == Ordered::After || (order == Ordered::Same && lower.1)
}

/// Whether a value is not above an upper bound.
pub open spec fn below(value: ScalarView, upper: (ScalarView, bool)) -> bool {
    let order = value::value_order(value, upper.0);
    order == Ordered::Before || (order == Ordered::Same && upper.1)
}

/// Whether a value is there, and within the bounds of a constraint.
pub open spec fn in_range(constraint: ConstraintView, value: ScalarView) -> bool {
    &&& !(value is Null)
    &&& constraint.lower is Some ==> above(value, constraint.lower->0)
    &&& constraint.upper is Some ==> below(value, constraint.upper->0)
}

/// Whether one look at values shows that a constraint takes none of them: there
/// are none, or all are below its range, or all are above it.
pub open spec fn ruled_out(values: Seq<ScalarView>, constraint: ConstraintView) -> bool {
    ||| forall|r: int| 0 <= r < values.len() ==> (#[trigger] values[r]) is Null
    ||| constraint.lower is Some && forall|r: int|
        0 <= r < values.len() && !((#[trigger] values[r]) is Null) ==> !above(
            values[r],
            constraint.lower->0,
        )
    ||| constraint.upper is Some && forall|r: int|
        0 <= r < values.len() && !((#[trigger] values[r]) is Null) ==> !below(
            values[r],
            constraint.upper->0,
        )
}

/// Whether statistics tell of values: how many are missing, and the least and the
/// greatest of the others.
pub open spec fn tells(known: StatisticsView, values: Seq<ScalarView>) -> bool {
    &&& known.minimum is Some <==> known.maximum is Some
    &&& known.minimum is None <==> forall|r: int|
        0 <= r < values.len() ==> (#[trigger] values[r]) is Null
    &&& known.minimum is Some ==> {
        &&& !(known.minimum->0 is Null)
        &&& !(known.maximum->0 is Null)
        &&& values.contains(known.minimum->0)
        &&& values.contains(known.maximum->0)
        &&& forall|r: int|
            0 <= r < values.len() && !((#[trigger] values[r]) is Null) ==> {
                &&& value::value_order(known.minimum->0, values[r]) != Ordered::After
                &&& value::value_order(values[r], known.maximum->0) != Ordered::After
            }
    }
}

/// Whether the statistics of a group tell of its columns.
pub open spec fn group_tells(known: GroupView) -> bool {
    &&& known.statistics.len() == known.columns.len()
    &&& forall|c: int|
        0 <= c < known.columns.len() ==> {
            &&& (#[trigger] known.statistics[c]).0 == known.columns[c].0
            &&& tells(known.statistics[c].1, vector::values_of(known.columns[c].1))
        }
}

proof fn lemma_excludes(known: StatisticsView, values: Seq<ScalarView>, constraint: ConstraintView)
    requires
        tells(known, values),
    ensures
        statistics::excludes(known, constraint) <==> ruled_out(values, constraint),
{
    if known.minimum is Some {
        let low = known.minimum->0;
        let high = known.maximum->0;
        let a = choose|a: int| 0 <= a < values.len() && values[a] == low;
        let b = choose|b: int| 0 <= b < values.len() && values[b] == high;
        assert(!(values[a] is Null) && !(values[b] is Null));
        if let Some(lower) = constraint.lower {
            value::lemma_same_order(high, lower.0);
            if !above(high, lower) {
                assert forall|r: int|
                    0 <= r < values.len() && !((#[trigger] values[r]) is Null) implies !above(
                    values[r],
                    lower,
                ) by {
                    lemma_stays_under(values[r], high, lower.0);
                }
            }
        }
        if let Some(upper) = constraint.upper {
            value::lemma_same_order(low, upper.0);
            if !below(low, upper) {
                assert forall|r: int|
                    0 <= r < values.len() && !((#[trigger] values[r]) is Null) implies !below(
                    values[r],
                    upper,
                ) by {
                    lemma_stays_over(values[r], low, upper.0);
                }
            }
        }
    }
}

proof fn lemma_stays_under(value: ScalarView, high: ScalarView, limit: ScalarView)
    requires
        value::value_order(value, high) != Ordered::After,
        value::value_order(high, limit) != Ordered::After,
    ensures
        value::value_order(value, limit) != Ordered::After,
        value::value_order(high, limit) == Ordered::Before ==> value::value_order(value, limit)
            == Ordered::Before,
{
    value::law_order_is_transitive(value, high, limit);
}

proof fn lemma_stays_over(value: ScalarView, low: ScalarView, limit: ScalarView)
    requires
        value::value_order(low, value) != Ordered::After,
        value::value_order(low, limit) != Ordered::Before,
    ensures
        value::value_order(value, limit) != Ordered::Before,
        value::value_order(low, limit) == Ordered::After ==> value::value_order(value, limit)
            == Ordered::After,
{
    value::lemma_same_order(limit, low);
    value::lemma_same_order(limit, value);
    value::lemma_same_order(low, limit);
    value::law_order_is_transitive(limit, low, value);
}

proof fn lemma_least(values: Seq<ScalarView>, n: int)
    requires
        0 <= n <= values.len(),
    ensures
        statistics::least(values, n) is Some <==> statistics::greatest(values, n) is Some,
        statistics::least(values, n) is None ==> forall|r: int|
            0 <= r < n ==> (#[trigger] values[r]) is Null,
        statistics::least(values, n) matches Some(low) ==> !(low is Null) && exists|r: int|
            0 <= r < n && #[trigger] values[r] == low,
        statistics::greatest(values, n) matches Some(high) ==> !(high is Null) && exists|r: int|
            0 <= r < n && #[trigger] values[r] == high,
    decreases n,
{
    if n > 0 {
        lemma_least(values, n - 1);
        assert(values[n - 1] == values[n - 1]);
    }
}

/// The statistics of values tell of them.
pub proof fn law_statistics_tell_of_values(values: Seq<ScalarView>, encoded_bytes: u64)
    ensures
        tells(statistics::statistics_of(values, encoded_bytes), values),
{
    let n = values.len() as int;
    lemma_least(values, n);
    if statistics::least(values, n) is Some {
        let low = statistics::least(values, n)->0;
        let r = choose|r: int| 0 <= r < n && #[trigger] values[r] == low;
        assert(!(values[r] is Null));
    }
    assert forall|r: int| 0 <= r < n && !((#[trigger] values[r]) is Null) implies {
        &&& statistics::least(values, n) is Some
        &&& value::value_order(statistics::least(values, n)->0, values[r]) != Ordered::After
        &&& value::value_order(values[r], statistics::greatest(values, n)->0) != Ordered::After
    } by {
        statistics::lemma_bounds(values, n, r);
    }
}

/// The statistics of values count those that are missing.
pub proof fn law_statistics_count_missing(values: Seq<ScalarView>, n: int)
    requires
        0 <= n <= values.len(),
    ensures
        statistics::missing(values, n) == values.take(n).filter(
            |value: ScalarView| value is Null,
        ).len(),
    decreases n,
{
    reveal(Seq::filter);
    if n > 0 {
        law_statistics_count_missing(values, n - 1);
        assert(values.take(n).drop_last() =~= values.take(n - 1));
        assert(values.take(n).last() == values[n - 1]);
    }
}

/// The statistics of a group that is made of rows tell of its columns.
pub proof fn law_made_group_tells(
    columns: Seq<ColumnarColumnSpec>,
    table: Seq<Seq<ScalarView>>,
    versions: Option<Seq<StorageVersionKey>>,
)
    requires
        group::group_error(columns, table) is None,
        segment_laws::table_valid(columns, table),
    ensures
        group_tells(group::group_of(columns, table, versions)),
{
    let made = group::group_of(columns, table, versions);
    assert forall|c: int| 0 <= c < made.columns.len() implies {
        &&& (#[trigger] made.statistics[c]).0 == made.columns[c].0
        &&& tells(made.statistics[c].1, vector::values_of(made.columns[c].1))
    } by {
        group::lemma_column_made(columns, table, c);
        let values = vector::column_values(table, c);
        assert(vector::texts_valid(vector::column_values(table, c)));
        vector::law_vector_keeps_values(columns[c], values);
        law_statistics_tell_of_values(
            values,
            select::encoded_size(group::column_vector(columns, table, c)),
        );
    }
}

// ---------------------------------------------------------------------------
// Groups
// ---------------------------------------------------------------------------
/// Whether a place is the first in a group that has a column.
pub open spec fn column_place(known: GroupView, id: ColumnId, c: int) -> bool {
    &&& 0 <= c < known.columns.len()
    &&& known.columns[c].0 == id
    &&& forall|q: int| 0 <= q < c ==> (#[trigger] known.columns[q]).0 != id
}

/// Whether a group can be left out of a scan: one look at one of its columns shows
/// that a constraint takes none of its rows.
pub open spec fn left_out(known: GroupView, constraints: Seq<ColumnarConstraint>) -> bool {
    exists|i: int, c: int|
        0 <= i < constraints.len() && #[trigger] column_place(known, constraints[i].column_id, c)
            && ruled_out(vector::values_of(known.columns[c].1), constraints[i]@)
}

/// Which groups a scan reads.
pub open spec fn stays(constraints: Seq<ColumnarConstraint>) -> spec_fn(GroupView) -> bool {
    |known: GroupView| !left_out(known, constraints)
}

/// Whether a row of a group meets all constraints on its columns.
pub open spec fn row_meets(
    known: GroupView,
    constraints: Seq<ColumnarConstraint>,
    row: int,
) -> bool {
    forall|i: int, c: int|
        0 <= i < constraints.len() && #[trigger] column_place(known, constraints[i].column_id, c)
            ==> in_range(constraints[i]@, vector::values_of(known.columns[c].1)[row])
}

proof fn lemma_first_from(ids: Seq<ColumnId>, id: ColumnId, from: int)
    requires
        0 <= from,
    ensures
        group::place_from(ids, id, from) matches Some(p) ==> forall|q: int|
            from <= q < p ==> ids[q] != id,
    decreases ids.len() - from,
{
    if from < ids.len() && ids[from] != id {
        lemma_first_from(ids, id, from + 1);
    }
}

proof fn lemma_excluded(known: GroupView, constraint: ColumnarConstraint)
    requires
        group_tells(known),
    ensures
        group::group_excluded(known.statistics, constraint@) <==> exists|c: int| #[trigger]
            column_place(known, constraint.column_id, c) && ruled_out(
                vector::values_of(known.columns[c].1),
                constraint@,
            ),
{
    let id = constraint.column_id;
    let ids = group::statistics_ids(known.statistics);
    group::lemma_place(ids, id, 0);
    lemma_first_from(ids, id, 0);
    assert forall|c: int| 0 <= c < known.columns.len() implies ids[c] == (
    #[trigger] known.columns[c]).0 by {
        assert(known.statistics[c].0 == known.columns[c].0);
    }
    match group::place_of(ids, id) {
        Some(place) => {
            assert(known.statistics[place].0 == known.columns[place].0);
            assert(column_place(known, id, place));
            lemma_excludes(
                known.statistics[place].1,
                vector::values_of(known.columns[place].1),
                constraint@,
            );
            assert forall|c: int| #[trigger] column_place(known, id, c) implies c == place by {
                if c < place {
                    assert(ids[c] == known.columns[c].0);
                } else if place < c {
                    assert(known.columns[place].0 != id);
                }
            }
        },
        None => {
            assert forall|c: int| !(#[trigger] column_place(known, id, c)) by {
                if column_place(known, id, c) {
                    assert(ids[c] == known.columns[c].0);
                }
            }
        },
    }
}

/// A group whose statistics tell of its columns is pruned exactly where one look at
/// one of them shows that a constraint takes none of its rows.
pub proof fn law_pruned_exactly_where_ruled_out(
    known: GroupView,
    constraints: Seq<ColumnarConstraint>,
)
    requires
        group_tells(known),
    ensures
        group::pruned(known.statistics, constraints) <==> left_out(known, constraints),
{
    if group::pruned(known.statistics, constraints) {
        let i = choose|i: int|
            0 <= i < constraints.len() && group::group_excluded(
                known.statistics,
                #[trigger] constraints[i]@,
            );
        lemma_excluded(known, constraints[i]);
        let c = choose|c: int| #[trigger]
            column_place(known, constraints[i].column_id, c) && ruled_out(
                vector::values_of(known.columns[c].1),
                constraints[i]@,
            );
        assert(column_place(known, constraints[i].column_id, c));
    }
    if left_out(known, constraints) {
        let (i, c) = choose|i: int, c: int|
            0 <= i < constraints.len() && #[trigger] column_place(
                known,
                constraints[i].column_id,
                c,
            ) && ruled_out(vector::values_of(known.columns[c].1), constraints[i]@);
        lemma_excluded(known, constraints[i]);
        assert(column_place(known, constraints[i].column_id, c));
        assert(group::group_excluded(known.statistics, constraints[i]@));
    }
}

/// A group with a row that meets all constraints is not left out.
pub proof fn law_no_meeting_row_is_left_out(
    known: GroupView,
    constraints: Seq<ColumnarConstraint>,
    row: int,
)
    requires
        scan::group_sound(known),
        0 <= row < known.rows,
        row_meets(known, constraints, row),
    ensures
        !left_out(known, constraints),
{
    if left_out(known, constraints) {
        let (i, c) = choose|i: int, c: int|
            0 <= i < constraints.len() && #[trigger] column_place(
                known,
                constraints[i].column_id,
                c,
            ) && ruled_out(vector::values_of(known.columns[c].1), constraints[i]@);
        assert(column_place(known, constraints[i].column_id, c));
        let values = vector::values_of(known.columns[c].1);
        assert(vector::vector_len(known.columns[c].1) == known.rows);
        assert(in_range(constraints[i]@, values[row]));
        assert(!(values[row] is Null));
    }
}

// ---------------------------------------------------------------------------
// Scans
// ---------------------------------------------------------------------------
/// Whether the groups of a projection have rows, have its columns, and have
/// statistics that tell of them.
pub open spec fn groups_tell(groups: Seq<GroupView>, specs: Seq<ColumnarColumnSpec>) -> bool {
    forall|i: int|
        0 <= i < groups.len() ==> {
            &&& scan::group_sound(#[trigger] groups[i])
            &&& scan_laws::has_columns(groups[i], specs)
            &&& group_tells(groups[i])
        }
}

proof fn lemma_picked_ok(
    known: GroupView,
    specs: Seq<ColumnarColumnSpec>,
    columns: Seq<ColumnId>,
    rows: Seq<usize>,
    n: int,
)
    requires
        scan_laws::has_columns(known, specs),
        scan::unknown_error(specs, columns, columns.len() as int) is None,
        0 <= n <= columns.len(),
    ensures
        scan::picked_columns(known, columns, rows, n) is Ok,
    decreases n,
{
    if n > 0 {
        lemma_picked_ok(known, specs, columns, rows, n - 1);
        scan::lemma_known_column(specs, columns, n - 1);
    }
}

/// Which groups a scan of one more group reads.
pub proof fn lemma_filter_step(groups: Seq<GroupView>, constraints: Seq<ColumnarConstraint>, n: int)
    requires
        0 < n <= groups.len(),
    ensures
        groups.take(n).filter(stays(constraints)) == if left_out(groups[n - 1], constraints) {
            groups.take(n - 1).filter(stays(constraints))
        } else {
            groups.take(n - 1).filter(stays(constraints)).push(groups[n - 1])
        },
{
    reveal(Seq::filter);
    assert(groups.take(n).drop_last() =~= groups.take(n - 1));
    assert(groups.take(n).last() == groups[n - 1]);
}

proof fn lemma_base_front(
    left: Seq<GroupView>,
    right: Seq<GroupView>,
    suppressed: Seq<StorageVersionKey>,
    n: int,
)
    requires
        0 <= n <= left.len(),
        n <= right.len(),
        forall|i: int| 0 <= i < n ==> left[i] == right[i],
    ensures
        scan_laws::base_visible(left, suppressed, n) == scan_laws::base_visible(
            right,
            suppressed,
            n,
        ),
    decreases n,
{
    if n > 0 {
        lemma_base_front(left, right, suppressed, n - 1);
    }
}

proof fn lemma_groups_filtered(
    groups: Seq<GroupView>,
    specs: Seq<ColumnarColumnSpec>,
    suppressed: Seq<StorageVersionKey>,
    columns: Seq<ColumnId>,
    constraints: Seq<ColumnarConstraint>,
    start: Scanned,
    n: int,
)
    requires
        0 <= n <= groups.len() <= u64::MAX,
        start.batches.len() == 0,
        start.statistics.row_groups_read == 0,
        start.statistics.row_groups_pruned == 0,
        groups_tell(groups, specs),
        scan::unknown_error(specs, columns, columns.len() as int) is None,
    ensures
        scan::groups_scanned(groups, suppressed, columns, constraints, start, n) is Ok,
        ({
            let seen = scan::groups_scanned(
                groups,
                suppressed,
                columns,
                constraints,
                start,
                n,
            )->Ok_0;
            let kept = groups.take(n).filter(stays(constraints));
            &&& kept.len() <= n
            &&& seen.statistics.row_groups_read == kept.len()
            &&& seen.statistics.row_groups_pruned == n - kept.len()
            &&& scan_laws::batches_rows(seen.batches, seen.batches.len() as int)
                == scan::wanted_rows(
                specs,
                columns,
                scan_laws::base_visible(kept, suppressed, kept.len() as int),
            )
        }),
    decreases n,
{
    let kept = groups.take(n).filter(stays(constraints));
    if n > 0 {
        lemma_groups_filtered(groups, specs, suppressed, columns, constraints, start, n - 1);
        lemma_filter_step(groups, constraints, n);
        let before = scan::groups_scanned(
            groups,
            suppressed,
            columns,
            constraints,
            start,
            n - 1,
        )->Ok_0;
        let earlier = groups.take(n - 1).filter(stays(constraints));
        let known = groups[n - 1];
        let rows = scan::retained(known, suppressed);
        assert(scan::group_sound(known) && scan_laws::has_columns(known, specs) && group_tells(
            known,
        ));
        law_pruned_exactly_where_ruled_out(known, constraints);
        if !left_out(known, constraints) {
            lemma_picked_ok(known, specs, columns, rows, columns.len() as int);
            let all = scan::groups_scanned(
                groups,
                suppressed,
                columns,
                constraints,
                start,
                n,
            )->Ok_0;
            let picked = scan::picked_columns(known, columns, rows, columns.len() as int)->Ok_0;
            scan_laws::lemma_group_batch(known, specs, suppressed, columns, picked);
            scan_laws::lemma_batches_prefix(
                all.batches,
                before.batches,
                before.batches.len() as int,
            );
            lemma_base_front(kept, earlier, suppressed, earlier.len() as int);
            assert(scan_laws::batches_rows(all.batches, all.batches.len() as int)
                =~= scan::wanted_rows(
                specs,
                columns,
                scan_laws::base_visible(kept, suppressed, kept.len() as int),
            ));
        }
    } else {
        reveal(Seq::filter);
        assert(kept.len() == 0);
        assert(scan_laws::batches_rows(start.batches, 0) =~= scan::wanted_rows(
            specs,
            columns,
            scan_laws::base_visible(kept, suppressed, 0),
        ));
    }
}

/// A scan with any constraints gives, each once and in order, the wanted values of
/// every row that was not replaced in the groups that cannot be left out, and of
/// every row that was added. It counts the groups that it read and those that it
/// left out. It fails only where a wanted column is unknown, or the added rows make
/// no group.
pub proof fn law_scan_leaves_out_only_what_cannot_match(
    known: MetadataView,
    groups: Seq<GroupView>,
    added: OverlayView<Seq<ScalarView>>,
    columns: Seq<ColumnId>,
    constraints: Seq<ColumnarConstraint>,
)
    requires
        groups.len() <= u64::MAX,
        groups_tell(groups, known.columns),
        segment_laws::table_valid(
            scan::wanted(known.columns, columns),
            scan::wanted_rows(known.columns, columns, added.live_rows),
        ),
    ensures
        scan::eager_scan(known, groups, added, columns, constraints) is Ok <==> {
            &&& scan::unknown_error(known.columns, columns, columns.len() as int) is None
            &&& added.live_rows.len() == 0 || group::group_error(
                scan::wanted(known.columns, columns),
                scan::wanted_rows(known.columns, columns, added.live_rows),
            ) is None
        },
        scan::eager_scan(known, groups, added, columns, constraints) matches Ok(seen) ==> {
            let kept = groups.filter(stays(constraints));
            &&& scan_laws::batches_rows(seen.batches, seen.batches.len() as int)
                == scan::wanted_rows(
                known.columns,
                columns,
                scan_laws::visible_rows(kept, added),
            )
            &&& seen.statistics.row_groups_total == groups.len()
            &&& seen.statistics.row_groups_read == kept.len()
            &&& seen.statistics.row_groups_pruned == groups.len() - kept.len()
        },
{
    let specs = known.columns;
    if scan::unknown_error(specs, columns, columns.len() as int) is None {
        let start = scan::eager_start(known, groups.len(), added.live_keys.len());
        let n = groups.len() as int;
        lemma_groups_filtered(groups, specs, added.suppressed, columns, constraints, start, n);
        assert(groups.take(n) =~= groups);
        let kept = groups.filter(stays(constraints));
        let base = scan::groups_scanned(
            groups,
            added.suppressed,
            columns,
            constraints,
            start,
            n,
        )->Ok_0;
        lemma_total_kept(groups, added.suppressed, columns, constraints, start, n);
        let front = scan_laws::base_visible(kept, added.suppressed, kept.len() as int);
        if added.live_rows.len() == 0 {
            assert(scan_laws::visible_rows(kept, added) =~= front);
        } else if scan::eager_scan(known, groups, added, columns, constraints) is Ok {
            let all = scan::eager_scan(known, groups, added, columns, constraints)->Ok_0;
            let rows = scan::wanted_rows(specs, columns, added.live_rows);
            let width = columns.len();
            assert(scan::rows_sound(rows, width));
            scan_laws::lemma_added_batch(scan::wanted(specs, columns), rows);
            scan_laws::lemma_batches_prefix(all.batches, base.batches, base.batches.len() as int);
            assert(scan_laws::batches_rows(all.batches, all.batches.len() as int)
                =~= scan::wanted_rows(specs, columns, front) + rows);
            assert(scan::wanted_rows(specs, columns, front) + rows =~= scan::wanted_rows(
                specs,
                columns,
                scan_laws::visible_rows(kept, added),
            ));
        }
    }
}

proof fn lemma_total_kept(
    groups: Seq<GroupView>,
    suppressed: Seq<StorageVersionKey>,
    columns: Seq<ColumnId>,
    constraints: Seq<ColumnarConstraint>,
    start: Scanned,
    n: int,
)
    requires
        0 <= n <= groups.len(),
    ensures
        scan::groups_scanned(groups, suppressed, columns, constraints, start, n) matches Ok(seen)
            ==> seen.statistics.row_groups_total == start.statistics.row_groups_total,
    decreases n,
{
    if n > 0 {
        lemma_total_kept(groups, suppressed, columns, constraints, start, n - 1);
    }
}

/// Every row of the base segment that was not replaced and meets all constraints is
/// in the groups that a scan reads.
pub proof fn law_meeting_rows_are_scanned(
    known: MetadataView,
    groups: Seq<GroupView>,
    added: OverlayView<Seq<ScalarView>>,
    columns: Seq<ColumnId>,
    constraints: Seq<ColumnarConstraint>,
    place: int,
    row: usize,
)
    requires
        groups.len() <= u64::MAX,
        groups_tell(groups, known.columns),
        segment_laws::table_valid(
            scan::wanted(known.columns, columns),
            scan::wanted_rows(known.columns, columns, added.live_rows),
        ),
        scan::eager_scan(known, groups, added, columns, constraints) is Ok,
        0 <= place < groups.len(),
        row < groups[place].rows,
        groups[place].source_versions is Some ==> !added.suppressed.contains(
            groups[place].source_versions->0[row as int],
        ),
        row_meets(groups[place], constraints, row as int),
    ensures
        ({
            let seen = scan::eager_scan(known, groups, added, columns, constraints)->Ok_0;
            scan_laws::batches_rows(seen.batches, seen.batches.len() as int).contains(
                scan::wanted_row(
                    known.columns,
                    columns,
                    lazy_scan::row_of(compact::group_vectors(groups[place]), row as int),
                ),
            )
        }),
{
    let kept = groups.filter(stays(constraints));
    let home = groups[place];
    law_scan_leaves_out_only_what_cannot_match(known, groups, added, columns, constraints);
    law_no_meeting_row_is_left_out(home, constraints, row as int);
    groups.lemma_filter_contains(stays(constraints), place);
    assert(kept.contains(home));
    let k = choose|k: int| 0 <= k < kept.len() && kept[k] == home;
    let found = lazy_scan::row_of(compact::group_vectors(home), row as int);
    assert(scan_laws::group_visible(home, added.suppressed).contains(found)) by {
        let rows = scan::retained(home, added.suppressed);
        if let Some(keys) = home.source_versions {
            scan::lemma_kept_rows(keys, added.suppressed, keys.len() as int);
            assert(!added.suppressed.contains(keys[row as int]));
            assert(rows.contains((row as int) as usize));
        } else {
            assert(rows[row as int] == row);
        }
        let r = choose|r: int| 0 <= r < rows.len() && rows[r] == row;
        assert(scan_laws::group_visible(home, added.suppressed)[r] == found);
    }
    lemma_base_contains(kept, added.suppressed, kept.len() as int, k, found);
    let all = scan_laws::visible_rows(kept, added);
    let front = scan_laws::base_visible(kept, added.suppressed, kept.len() as int);
    let r = choose|r: int| 0 <= r < front.len() && front[r] == found;
    assert(all[r] == found);
    assert(scan::wanted_rows(known.columns, columns, all)[r] == scan::wanted_row(
        known.columns,
        columns,
        found,
    ));
}

proof fn lemma_base_contains(
    groups: Seq<GroupView>,
    suppressed: Seq<StorageVersionKey>,
    n: int,
    k: int,
    row: Seq<ScalarView>,
)
    requires
        0 <= k < n <= groups.len(),
        scan_laws::group_visible(groups[k], suppressed).contains(row),
    ensures
        scan_laws::base_visible(groups, suppressed, n).contains(row),
    decreases n,
{
    let before = scan_laws::base_visible(groups, suppressed, n - 1);
    let last = scan_laws::group_visible(groups[n - 1], suppressed);
    let all = scan_laws::base_visible(groups, suppressed, n);
    if k < n - 1 {
        lemma_base_contains(groups, suppressed, n - 1, k, row);
        let r = choose|r: int| 0 <= r < before.len() && before[r] == row;
        assert(all[r] == row);
    } else {
        let r = choose|r: int| 0 <= r < last.len() && last[r] == row;
        assert(all[before.len() + r] == row);
    }
}

/// A scan of an indexed projection with any constraints gives, each once and in
/// order, the wanted values of every row that was not replaced in the groups that
/// cannot be left out, and of every row that was added.
pub proof fn law_indexed_scan_leaves_out_only_what_cannot_match(
    known: MetadataView,
    lazy: LazyView,
    files: Seq<Seq<u8>>,
    groups: Seq<GroupView>,
    held: Seq<GroupView>,
    rows: Seq<Seq<ScalarView>>,
    columns: Seq<ColumnId>,
    constraints: Seq<ColumnarConstraint>,
    blocks: Seq<Fetched>,
)
    requires
        lazy_scan_laws::projection_stands(known, lazy, files, groups, held, rows),
        lazy_scan_laws::fetched_at(
            files,
            indexed::scan_requests(lazy, columns, constraints),
            blocks,
            0,
        ),
        groups.len() <= u64::MAX,
        groups_tell(groups, known.columns),
        segment_laws::table_valid(
            scan::wanted(known.columns, columns),
            scan::wanted_rows(known.columns, columns, rows),
        ),
    ensures
        lazy_scan::lazy_scan(known, lazy, columns, constraints, blocks) is Ok <==> {
            &&& scan::unknown_error(known.columns, columns, columns.len() as int) is None
            &&& rows.len() == 0 || group::group_error(
                scan::wanted(known.columns, columns),
                scan::wanted_rows(known.columns, columns, rows),
            ) is None
        },
        lazy_scan::lazy_scan(known, lazy, columns, constraints, blocks) matches Ok(seen)
            ==> scan_laws::batches_rows(seen.batches, seen.batches.len() as int)
            == scan::wanted_rows(
            known.columns,
            columns,
            scan_laws::visible_rows(
                groups.filter(stays(constraints)),
                lazy_scan_laws::overlay_with(lazy.added, rows),
            ),
        ),
{
    let added = lazy_scan_laws::overlay_with(lazy.added, rows);
    law_scan_leaves_out_only_what_cannot_match(known, groups, added, columns, constraints);
    lazy_scan_laws::law_indexed_scan_is_the_same(
        known,
        lazy,
        files,
        groups,
        held,
        rows,
        columns,
        constraints,
        blocks,
    );
}

} // verus!
