//! What a scan gives, and what advancing and compaction do to it.
use super::compact;
use super::error::ColumnarError;
use super::feed;
use super::gather;
use super::group::{self, GroupView};
use super::lazy_scan;
use super::metadata::MetadataView;
use super::overlay::{self, DeltaMutation, OverlayView};
use super::scan::{self, BatchView, Scanned};
use super::segment_laws;
use super::select;
use super::statistics::ColumnarConstraint;
use super::vector::{self, ColumnarColumnSpec, VectorView};
use super::writer::{self, SegmentPlan};
use crate::change_stream::types::StorageVersionKey;
use crate::ids::ColumnId;
use crate::value::ScalarView;
use vstd::prelude::*;

verus! {

// ---------------------------------------------------------------------------
// Visible rows
// ---------------------------------------------------------------------------
/// The rows of a group that were not replaced.
pub open spec fn group_visible(known: GroupView, suppressed: Seq<StorageVersionKey>) -> Seq<
    Seq<ScalarView>,
> {
    scan::retained(known, suppressed).map_values(
        |row: usize| lazy_scan::row_of(compact::group_vectors(known), row as int),
    )
}

/// The rows of the first `n` groups that were not replaced.
pub open spec fn base_visible(
    groups: Seq<GroupView>,
    suppressed: Seq<StorageVersionKey>,
    n: int,
) -> Seq<Seq<ScalarView>>
    decreases n,
{
    if n <= 0 {
        Seq::empty()
    } else {
        base_visible(groups, suppressed, n - 1) + group_visible(groups[n - 1], suppressed)
    }
}

/// The rows of a projection: those of the base segment that were not replaced,
/// and then those that delta segments added, in the order of their versions.
pub open spec fn visible_rows(groups: Seq<GroupView>, added: OverlayView<Seq<ScalarView>>) -> Seq<
    Seq<ScalarView>,
> {
    base_visible(groups, added.suppressed, groups.len() as int) + added.live_rows
}

/// The rows of a batch.
pub open spec fn batch_rows(batch: BatchView) -> Seq<Seq<ScalarView>> {
    Seq::new(
        batch.row_count,
        |row: int|
            batch.columns.map_values(
                |column: (ColumnId, VectorView)| vector::value_of(column.1, row)->Ok_0,
            ),
    )
}

/// The rows of the first `n` batches.
pub open spec fn batches_rows(batches: Seq<BatchView>, n: int) -> Seq<Seq<ScalarView>>
    decreases n,
{
    if n <= 0 {
        Seq::empty()
    } else {
        batches_rows(batches, n - 1) + batch_rows(batches[n - 1])
    }
}

/// Whether a group has the columns of a projection.
pub open spec fn has_columns(known: GroupView, specs: Seq<ColumnarColumnSpec>) -> bool {
    scan::column_ids(known.columns) == group::spec_ids(specs)
}

/// Batches that start alike start with the same rows.
pub proof fn lemma_batches_prefix(left: Seq<BatchView>, right: Seq<BatchView>, n: int)
    requires
        0 <= n <= left.len(),
        n <= right.len(),
        forall|i: int| 0 <= i < n ==> left[i] == right[i],
    ensures
        batches_rows(left, n) == batches_rows(right, n),
    decreases n,
{
    if n > 0 {
        lemma_batches_prefix(left, right, n - 1);
    }
}

proof fn lemma_picked(
    known: GroupView,
    columns: Seq<ColumnId>,
    rows: Seq<usize>,
    n: int,
    i: int,
)
    requires
        scan::picked_columns(known, columns, rows, n) is Ok,
        0 <= i < n <= columns.len(),
    ensures
        ({
            let picked = scan::picked_columns(known, columns, rows, n)->Ok_0;
            let place = group::place_of(scan::column_ids(known.columns), columns[i]);
            &&& picked.len() == n
            &&& place is Some
            &&& picked[i] == (columns[i], select::selected(known.columns[place->0].1, rows))
        }),
    decreases n,
{
    if i < n - 1 {
        lemma_picked(known, columns, rows, n - 1, i);
    } else if n > 1 {
        lemma_picked(known, columns, rows, n - 1, 0);
    }
}

/// The rows of a group that were not replaced are rows of the group, in order.
pub proof fn lemma_retained(known: GroupView, suppressed: Seq<StorageVersionKey>)
    requires
        scan::group_sound(known),
    ensures
        forall|i: int|
            0 <= i < scan::retained(known, suppressed).len() ==> (#[trigger] scan::retained(
                known,
                suppressed,
            )[i]) < known.rows,
        forall|i: int, j: int|
            0 <= i < j < scan::retained(known, suppressed).len() ==> scan::retained(
                known,
                suppressed,
            )[i] < scan::retained(known, suppressed)[j],
{
    if let Some(keys) = known.source_versions {
        scan::lemma_kept_rows(keys, suppressed, keys.len() as int);
    }
}

/// The batch of a group has the wanted values of its rows that were not replaced.
pub proof fn lemma_group_batch(
    known: GroupView,
    specs: Seq<ColumnarColumnSpec>,
    suppressed: Seq<StorageVersionKey>,
    columns: Seq<ColumnId>,
    picked: Seq<(ColumnId, VectorView)>,
)
    requires
        scan::group_sound(known),
        has_columns(known, specs),
        scan::unknown_error(specs, columns, columns.len() as int) is None,
        scan::picked_columns(
            known,
            columns,
            scan::retained(known, suppressed),
            columns.len() as int,
        ) == Ok::<Seq<(ColumnId, VectorView)>, ColumnarError>(picked),
    ensures
        batch_rows(
            BatchView { row_count: scan::retained(known, suppressed).len(), columns: picked },
        ) == scan::wanted_rows(specs, columns, group_visible(known, suppressed)),
{
    let rows = scan::retained(known, suppressed);
    let batch = BatchView { row_count: rows.len(), columns: picked };
    let left = batch_rows(batch);
    let right = scan::wanted_rows(specs, columns, group_visible(known, suppressed));
    let n = columns.len() as int;
    lemma_retained(known, suppressed);
    if n > 0 {
        lemma_picked(known, columns, rows, n, 0);
    }
    assert forall|r: int| 0 <= r < rows.len() implies left[r] == right[r] by {
        assert forall|i: int| 0 <= i < n implies left[r][i] == right[r][i] by {
            lemma_picked(known, columns, rows, n, i);
            scan::lemma_known_column(specs, columns, i);
            let place = scan::position_of(specs, columns[i]);
            assert(group::place_of(scan::column_ids(known.columns), columns[i]) == Some(place));
            assert(scan::column_ids(known.columns).len() == specs.len());
            let source = known.columns[place].1;
            assert(vector::well_formed(source));
            select::lemma_ascending_texts_fit(source, rows);
            select::law_selection_keeps_values(source, rows);
            let cut = select::selected(source, rows);
            vector::lemma_well_formed_values(cut);
            vector::lemma_well_formed_values(source);
            assert(vector::value_of(cut, r) is Ok);
            assert(vector::value_of(source, rows[r] as int) is Ok);
            assert(vector::values_of(cut)[r] == vector::values_of(source)[rows[r] as int]);
            assert(compact::group_vectors(known)[place] == source);
        }
        assert(left[r] =~= right[r]);
    }
    assert(left =~= right);
}

proof fn lemma_groups_rows(
    groups: Seq<GroupView>,
    specs: Seq<ColumnarColumnSpec>,
    suppressed: Seq<StorageVersionKey>,
    columns: Seq<ColumnId>,
    constraints: Seq<ColumnarConstraint>,
    start: Scanned,
    n: int,
)
    requires
        0 <= n <= groups.len(),
        constraints.len() == 0,
        start.batches.len() == 0,
        forall|i: int|
            0 <= i < groups.len() ==> scan::group_sound(#[trigger] groups[i]) && has_columns(
                groups[i],
                specs,
            ),
        scan::unknown_error(specs, columns, columns.len() as int) is None,
        scan::groups_scanned(groups, suppressed, columns, constraints, start, n) is Ok,
    ensures
        ({
            let batches = scan::groups_scanned(
                groups,
                suppressed,
                columns,
                constraints,
                start,
                n,
            )->Ok_0.batches;
            batches_rows(batches, batches.len() as int) == scan::wanted_rows(
                specs,
                columns,
                base_visible(groups, suppressed, n),
            )
        }),
    decreases n,
{
    let all = scan::groups_scanned(groups, suppressed, columns, constraints, start, n)->Ok_0;
    if n > 0 {
        let before = scan::groups_scanned(
            groups,
            suppressed,
            columns,
            constraints,
            start,
            n - 1,
        )->Ok_0;
        lemma_groups_rows(groups, specs, suppressed, columns, constraints, start, n - 1);
        let known = groups[n - 1];
        let rows = scan::retained(known, suppressed);
        assert(!group::pruned(known.statistics, constraints));
        let picked = scan::picked_columns(known, columns, rows, columns.len() as int)->Ok_0;
        assert(scan::group_sound(known) && has_columns(known, specs));
        lemma_group_batch(known, specs, suppressed, columns, picked);
        lemma_batches_prefix(all.batches, before.batches, before.batches.len() as int);
        assert(batches_rows(all.batches, all.batches.len() as int) =~= scan::wanted_rows(
            specs,
            columns,
            base_visible(groups, suppressed, n),
        ));
    } else {
        assert(batches_rows(all.batches, 0) =~= scan::wanted_rows(
            specs,
            columns,
            base_visible(groups, suppressed, 0),
        ));
    }
}

/// The batch of added rows holds them.
pub proof fn lemma_added_batch(specs: Seq<ColumnarColumnSpec>, rows: Seq<Seq<ScalarView>>)
    requires
        group::group_error(specs, rows) is None,
        segment_laws::table_valid(specs, rows),
        scan::rows_sound(rows, specs.len()),
    ensures
        batch_rows(
            BatchView {
                row_count: rows.len(),
                columns: group::group_of(specs, rows, None).columns,
            },
        ) == rows,
{
    let made = group::group_of(specs, rows, None).columns;
    let left = batch_rows(BatchView { row_count: rows.len(), columns: made });
    assert forall|r: int| 0 <= r < rows.len() implies left[r] == rows[r] by {
        assert(rows[r].len() == specs.len());
        assert forall|i: int| 0 <= i < specs.len() implies left[r][i] == rows[r][i] by {
            segment_laws::law_group_holds_rows(specs, rows, None, i, r);
        }
        assert(left[r] =~= rows[r]);
    }
    assert(left =~= rows);
}

/// A scan without constraints gives the wanted values of every row that was not
/// replaced and of every row that was added, each once and in order.
pub proof fn law_scan_gives_visible_rows(
    known: MetadataView,
    groups: Seq<GroupView>,
    added: OverlayView<Seq<ScalarView>>,
    columns: Seq<ColumnId>,
)
    requires
        scan::eager_scan(known, groups, added, columns, Seq::empty()) is Ok,
        forall|i: int|
            0 <= i < groups.len() ==> scan::group_sound(#[trigger] groups[i]) && has_columns(
                groups[i],
                known.columns,
            ),
        segment_laws::table_valid(
            scan::wanted(known.columns, columns),
            scan::wanted_rows(known.columns, columns, added.live_rows),
        ),
    ensures
        ({
            let batches = scan::eager_scan(
                known,
                groups,
                added,
                columns,
                Seq::empty(),
            )->Ok_0.batches;
            batches_rows(batches, batches.len() as int) == scan::wanted_rows(
                known.columns,
                columns,
                visible_rows(groups, added),
            )
        }),
{
    let specs = known.columns;
    let none = Seq::<ColumnarConstraint>::empty();
    let start = scan::eager_start(known, groups.len(), added.live_keys.len());
    let n = groups.len() as int;
    let base = scan::groups_scanned(groups, added.suppressed, columns, none, start, n)->Ok_0;
    let all = scan::eager_scan(known, groups, added, columns, none)->Ok_0;
    lemma_groups_rows(groups, specs, added.suppressed, columns, none, start, n);
    let front = base_visible(groups, added.suppressed, n);
    if added.live_rows.len() == 0 {
        assert(visible_rows(groups, added) =~= front);
    } else {
        let rows = scan::wanted_rows(specs, columns, added.live_rows);
        lemma_added_batch(scan::wanted(specs, columns), rows);
        lemma_batches_prefix(all.batches, base.batches, base.batches.len() as int);
        assert(batches_rows(all.batches, all.batches.len() as int) =~= scan::wanted_rows(
            specs,
            columns,
            front,
        ) + rows);
        assert(scan::wanted_rows(specs, columns, front) + rows =~= scan::wanted_rows(
            specs,
            columns,
            visible_rows(groups, added),
        ));
    }
}

// ---------------------------------------------------------------------------
// Compaction
// ---------------------------------------------------------------------------
proof fn lemma_kept_rows_offered(
    keys: Seq<StorageVersionKey>,
    suppressed: Seq<StorageVersionKey>,
    vectors: Seq<VectorView>,
    n: int,
)
    requires
        0 <= n <= keys.len(),
        n <= usize::MAX,
    ensures
        feed::offer_rows(compact::kept_offers(keys, suppressed, vectors, n)) == scan::kept_rows(
            keys,
            suppressed,
            n,
        ).map_values(|row: usize| lazy_scan::row_of(vectors, row as int)),
    decreases n,
{
    let left = feed::offer_rows(compact::kept_offers(keys, suppressed, vectors, n));
    let right = scan::kept_rows(keys, suppressed, n).map_values(
        |row: usize| lazy_scan::row_of(vectors, row as int),
    );
    if n > 0 {
        lemma_kept_rows_offered(keys, suppressed, vectors, n - 1);
        let before = feed::offer_rows(compact::kept_offers(keys, suppressed, vectors, n - 1));
        if !suppressed.contains(keys[n - 1]) {
            assert(left =~= before.push(lazy_scan::row_of(vectors, n - 1)));
            assert(right =~= before.push(lazy_scan::row_of(vectors, n - 1)));
        }
    } else {
        assert(left =~= right);
    }
}

proof fn lemma_base_offered(groups: Seq<GroupView>, suppressed: Seq<StorageVersionKey>, n: int)
    requires
        0 <= n <= groups.len(),
        forall|i: int|
            0 <= i < groups.len() ==> scan::group_sound(#[trigger] groups[i])
                && groups[i].source_versions is Some,
    ensures
        feed::offer_rows(compact::base_offers(groups, suppressed, n)) == base_visible(
            groups,
            suppressed,
            n,
        ),
    decreases n,
{
    let left = feed::offer_rows(compact::base_offers(groups, suppressed, n));
    if n > 0 {
        lemma_base_offered(groups, suppressed, n - 1);
        let known = groups[n - 1];
        assert(scan::group_sound(known) && known.source_versions is Some);
        let keys = known.source_versions->0;
        let vectors = compact::group_vectors(known);
        lemma_kept_rows_offered(keys, suppressed, vectors, keys.len() as int);
        assert(group_visible(known, suppressed) =~= scan::kept_rows(
            keys,
            suppressed,
            keys.len() as int,
        ).map_values(|row: usize| lazy_scan::row_of(vectors, row as int)));
        assert(left =~= base_visible(groups, suppressed, n - 1) + group_visible(
            known,
            suppressed,
        ));
    } else {
        assert(left =~= Seq::empty());
    }
}

proof fn lemma_added_offered(added: OverlayView<Seq<ScalarView>>, n: int)
    requires
        0 <= n <= added.live_rows.len(),
    ensures
        feed::offer_rows(compact::added_offers(added, n)) == added.live_rows.take(n),
    decreases n,
{
    let left = feed::offer_rows(compact::added_offers(added, n));
    if n > 0 {
        lemma_added_offered(added, n - 1);
        assert(left =~= added.live_rows.take(n - 1).push(added.live_rows[n - 1]));
        assert(left =~= added.live_rows.take(n));
    } else {
        assert(left =~= added.live_rows.take(0));
    }
}

/// The rows that are offered to a compacted base segment are the rows of the
/// projection.
pub proof fn lemma_offered_rows(groups: Seq<GroupView>, added: OverlayView<Seq<ScalarView>>)
    requires
        forall|i: int|
            0 <= i < groups.len() ==> scan::group_sound(#[trigger] groups[i])
                && groups[i].source_versions is Some,
        overlay::overlay_kept(added),
    ensures
        feed::offer_rows(compact::eager_offers(groups, added)) == visible_rows(groups, added),
{
    lemma_base_offered(groups, added.suppressed, groups.len() as int);
    lemma_added_offered(added, added.live_keys.len() as int);
    assert(added.live_rows.take(added.live_keys.len() as int) =~= added.live_rows);
    assert(feed::offer_rows(compact::eager_offers(groups, added)) =~= visible_rows(groups, added));
}

/// The rows of a compacted base segment are the rows of the projection: those
/// that were not replaced, and those that were added.
pub proof fn law_compaction_keeps_rows(
    plan: SegmentPlan,
    groups: Seq<GroupView>,
    added: OverlayView<Seq<ScalarView>>,
)
    requires
        forall|i: int|
            0 <= i < groups.len() ==> scan::group_sound(#[trigger] groups[i])
                && groups[i].source_versions is Some,
        overlay::overlay_kept(added),
        gather::all_gathered(plan, compact::eager_offers(groups, added)) is Ok,
    ensures
        ({
            let pieces = gather::all_gathered(plan, compact::eager_offers(groups, added))->Ok_0;
            writer::flattened(pieces, pieces.len() as int) == visible_rows(groups, added)
        }),
{
    let offers = compact::eager_offers(groups, added);
    let n = offers.len() as int;
    let (pieces, pending) = gather::gathered(plan, offers, n)->Ok_0;
    let all = gather::all_gathered(plan, offers)->Ok_0;
    gather::law_gathered_rows_are_kept(plan, offers, n);
    lemma_offered_rows(groups, added);
    assert(feed::offer_rows(offers).take(n) =~= feed::offer_rows(offers));
    if pending.rows.len() == 0 {
        assert(writer::flattened(pieces, pieces.len() as int) + pending.rows
            =~= writer::flattened(pieces, pieces.len() as int));
    } else {
        writer::lemma_flattened_prefix(all, pieces, pieces.len() as int);
    }
}

// ---------------------------------------------------------------------------
// Versions
// ---------------------------------------------------------------------------
/// Whether a row version of a projection is visible: it is in the base segment
/// and was not replaced, or it was added.
pub open spec fn visible<R>(
    base: Set<StorageVersionKey>,
    added: OverlayView<R>,
    key: StorageVersionKey,
) -> bool {
    (base.contains(key) && !added.suppressed.contains(key)) || added.live_keys.contains(key)
}

/// A row change hides the version that it replaces, shows the one that it brings,
/// and leaves every other version as it was.
pub proof fn law_row_change_moves_visibility<R>(
    base: Set<StorageVersionKey>,
    added: OverlayView<R>,
    mutation: DeltaMutation<R>,
    invalid: &'static str,
    key: StorageVersionKey,
)
    requires
        overlay::overlay_kept(added),
        overlay::step(added, mutation, invalid) is Ok,
    ensures
        visible(base, overlay::step(added, mutation, invalid)->Ok_0, key) <==> (
        mutation.new_version == Some(key) || (visible(base, added, key) && mutation.old_version
            != Some(key))),
{
    overlay::law_step_moves_versions(added, mutation, invalid);
    let next = overlay::step(added, mutation, invalid)->Ok_0;
    assert(next.suppressed.contains(key) <==> added.suppressed.contains(key)
        || mutation.old_version == Some(key));
    assert(next.live_keys.contains(key) <==> mutation.new_version == Some(key) || (
    added.live_keys.contains(key) && mutation.old_version != Some(key)));
}

} // verus!
