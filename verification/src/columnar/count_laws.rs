//! What a scan counts.
use super::group::GroupView;
use super::filter_laws;
use super::metadata::MetadataView;
use super::overlay::OverlayView;
use super::scan::{self, Scanned};
use super::statistics::ColumnarConstraint;
use crate::change_stream::types::StorageVersionKey;
use crate::ids::ColumnId;
use crate::value::ScalarView;
use vstd::prelude::*;

verus! {

/// How many rows the first `n` groups give to a scan.
pub open spec fn rows_given(
    groups: Seq<GroupView>,
    suppressed: Seq<StorageVersionKey>,
    n: int,
) -> int
    decreases n,
{
    if n <= 0 {
        0
    } else {
        rows_given(groups, suppressed, n - 1) + scan::retained(groups[n - 1], suppressed).len()
    }
}

/// How many rows of the first `n` groups were replaced.
pub open spec fn rows_replaced(
    groups: Seq<GroupView>,
    suppressed: Seq<StorageVersionKey>,
    n: int,
) -> int
    decreases n,
{
    if n <= 0 {
        0
    } else {
        rows_replaced(groups, suppressed, n - 1) + groups[n - 1].rows - scan::retained(
            groups[n - 1],
            suppressed,
        ).len()
    }
}

proof fn lemma_retained_len(known: GroupView, suppressed: Seq<StorageVersionKey>)
    requires
        scan::group_sound(known),
    ensures
        0 <= scan::retained(known, suppressed).len() <= known.rows,
{
    if let Some(keys) = known.source_versions {
        scan::lemma_kept_rows(keys, suppressed, keys.len() as int);
    }
}

proof fn lemma_rows_grow(
    groups: Seq<GroupView>,
    suppressed: Seq<StorageVersionKey>,
    n: int,
    m: int,
)
    requires
        0 <= n <= m <= groups.len(),
        forall|i: int| 0 <= i < groups.len() ==> scan::group_sound(#[trigger] groups[i]),
    ensures
        0 <= rows_given(groups, suppressed, n) <= rows_given(groups, suppressed, m),
        0 <= rows_replaced(groups, suppressed, n) <= rows_replaced(groups, suppressed, m),
    decreases m,
{
    if m > 0 {
        lemma_retained_len(groups[m - 1], suppressed);
        if n < m {
            lemma_rows_grow(groups, suppressed, n, m - 1);
        } else {
            lemma_rows_grow(groups, suppressed, m - 1, m - 1);
        }
    }
}

proof fn lemma_front_counts(
    left: Seq<GroupView>,
    right: Seq<GroupView>,
    suppressed: Seq<StorageVersionKey>,
    n: int,
)
    requires
        0 <= n <= left.len(),
        n <= right.len(),
        forall|i: int| 0 <= i < n ==> left[i] == right[i],
    ensures
        rows_given(left, suppressed, n) == rows_given(right, suppressed, n),
        rows_replaced(left, suppressed, n) == rows_replaced(right, suppressed, n),
    decreases n,
{
    if n > 0 {
        lemma_front_counts(left, right, suppressed, n - 1);
    }
}

proof fn lemma_filtered_sound(groups: Seq<GroupView>, constraints: Seq<ColumnarConstraint>, n: int)
    requires
        0 <= n <= groups.len(),
        forall|i: int| 0 <= i < groups.len() ==> scan::group_sound(#[trigger] groups[i]),
    ensures
        forall|i: int|
            0 <= i < groups.take(n).filter(filter_laws::stays(constraints)).len()
                ==> scan::group_sound(
                #[trigger] groups.take(n).filter(filter_laws::stays(constraints))[i],
            ),
    decreases n,
{
    if n > 0 {
        lemma_filtered_sound(groups, constraints, n - 1);
        filter_laws::lemma_filter_step(groups, constraints, n);
        assert(scan::group_sound(groups[n - 1]));
    } else {
        reveal(Seq::filter);
    }
}

proof fn lemma_groups_counted(
    groups: Seq<GroupView>,
    suppressed: Seq<StorageVersionKey>,
    columns: Seq<ColumnId>,
    constraints: Seq<ColumnarConstraint>,
    start: Scanned,
    n: int,
)
    requires
        0 <= n <= groups.len(),
        forall|i: int|
            0 <= i < groups.len() ==> scan::group_sound(#[trigger] groups[i])
                && filter_laws::group_tells(groups[i]),
        start.statistics.rows_read == 0,
        start.statistics.base_rows_suppressed == 0,
        start.statistics.column_chunks_read == 0,
        scan::groups_scanned(groups, suppressed, columns, constraints, start, n) is Ok,
        ({
            let kept = groups.take(n).filter(filter_laws::stays(constraints));
            &&& rows_given(kept, suppressed, kept.len() as int) <= u64::MAX
            &&& rows_replaced(kept, suppressed, kept.len() as int) <= u64::MAX
            &&& kept.len() * columns.len() <= u64::MAX
        }),
    ensures
        ({
            let seen = scan::groups_scanned(
                groups,
                suppressed,
                columns,
                constraints,
                start,
                n,
            )->Ok_0.statistics;
            let kept = groups.take(n).filter(filter_laws::stays(constraints));
            let k = kept.len() as int;
            &&& seen.rows_read == rows_given(kept, suppressed, k)
            &&& seen.base_rows_suppressed == rows_replaced_versioned(kept, suppressed, k)
            &&& seen.column_chunks_read == k * columns.len()
            &&& seen.delta_segments == start.statistics.delta_segments
            &&& seen.delta_mutations == start.statistics.delta_mutations
            &&& seen.delta_live_rows == start.statistics.delta_live_rows
            &&& seen.delta_rows_emitted == start.statistics.delta_rows_emitted
            &&& seen.delta_bytes_read == start.statistics.delta_bytes_read
        }),
    decreases n,
{
    let kept = groups.take(n).filter(filter_laws::stays(constraints));
    if n > 0 {
        filter_laws::lemma_filter_step(groups, constraints, n);
        filter_laws::law_pruned_exactly_where_ruled_out(groups[n - 1], constraints);
        let earlier = groups.take(n - 1).filter(filter_laws::stays(constraints));
        lemma_filtered_sound(groups, constraints, n);
        lemma_filtered_sound(groups, constraints, n - 1);
        if filter_laws::left_out(groups[n - 1], constraints) {
            lemma_groups_counted(groups, suppressed, columns, constraints, start, n - 1);
        } else {
            let k = earlier.len() as int;
            lemma_front_counts(kept, earlier, suppressed, k);
            lemma_front_versioned(kept, earlier, suppressed, k);
            lemma_rows_grow(kept, suppressed, k, k + 1);
            lemma_rows_grow(earlier, suppressed, 0, k);
            lemma_retained_len(groups[n - 1], suppressed);
            lemma_versioned(kept, suppressed, k + 1);
            lemma_versioned(earlier, suppressed, k);
            assert((k + 1) * columns.len() == k * columns.len() + columns.len())
                by (nonlinear_arith);
            lemma_groups_counted(groups, suppressed, columns, constraints, start, n - 1);
        }
    } else {
        reveal(Seq::filter);
        assert(kept.len() == 0);
        assert(kept.len() * columns.len() == 0) by (nonlinear_arith)
            requires
                kept.len() == 0,
        ;
    }
}

/// How many rows of the first `n` groups were replaced, in groups that keep versions.
pub open spec fn rows_replaced_versioned(
    groups: Seq<GroupView>,
    suppressed: Seq<StorageVersionKey>,
    n: int,
) -> int
    decreases n,
{
    if n <= 0 {
        0
    } else {
        rows_replaced_versioned(groups, suppressed, n - 1) + if groups[n - 1].source_versions
            is Some {
            groups[n - 1].source_versions->0.len() - scan::retained(groups[n - 1], suppressed).len()
        } else {
            0
        }
    }
}

proof fn lemma_front_versioned(
    left: Seq<GroupView>,
    right: Seq<GroupView>,
    suppressed: Seq<StorageVersionKey>,
    n: int,
)
    requires
        0 <= n <= left.len(),
        n <= right.len(),
        forall|i: int| 0 <= i < n ==> left[i] == right[i],
    ensures
        rows_replaced_versioned(left, suppressed, n) == rows_replaced_versioned(
            right,
            suppressed,
            n,
        ),
    decreases n,
{
    if n > 0 {
        lemma_front_versioned(left, right, suppressed, n - 1);
    }
}

proof fn lemma_versioned(groups: Seq<GroupView>, suppressed: Seq<StorageVersionKey>, n: int)
    requires
        0 <= n <= groups.len(),
        forall|i: int| 0 <= i < groups.len() ==> scan::group_sound(#[trigger] groups[i]),
    ensures
        0 <= rows_replaced_versioned(groups, suppressed, n) <= rows_replaced(
            groups,
            suppressed,
            n,
        ),
        rows_replaced_versioned(groups, suppressed, n) == rows_replaced(groups, suppressed, n),
    decreases n,
{
    if n > 0 {
        lemma_versioned(groups, suppressed, n - 1);
        let known = groups[n - 1];
        assert(scan::group_sound(known));
        lemma_retained_len(known, suppressed);
    }
}

/// A scan counts the rows of the groups that it read that were not replaced and the
/// rows that were added, the rows that were replaced in those groups, and the columns
/// that it read in each.
pub proof fn law_scan_counts_rows(
    known: MetadataView,
    groups: Seq<GroupView>,
    added: OverlayView<Seq<ScalarView>>,
    columns: Seq<ColumnId>,
    constraints: Seq<ColumnarConstraint>,
)
    requires
        groups.len() <= u64::MAX,
        filter_laws::groups_tell(groups, known.columns),
        added.live_rows.len() <= u64::MAX,
        added.live_keys.len() <= u64::MAX,
        scan::eager_scan(known, groups, added, columns, constraints) is Ok,
        ({
            let kept = groups.filter(filter_laws::stays(constraints));
            let k = kept.len() as int;
            &&& rows_given(kept, added.suppressed, k) + added.live_rows.len() <= u64::MAX
            &&& rows_replaced(kept, added.suppressed, k) <= u64::MAX
            &&& k * columns.len() + columns.len() <= u64::MAX
        }),
    ensures
        ({
            let seen = scan::eager_scan(
                known,
                groups,
                added,
                columns,
                constraints,
            )->Ok_0.statistics;
            let kept = groups.filter(filter_laws::stays(constraints));
            let k = kept.len() as int;
            let live = added.live_rows.len() as int;
            &&& seen.rows_read == rows_given(kept, added.suppressed, k) + live
            &&& seen.merged_rows == seen.rows_read
            &&& seen.base_rows_suppressed == rows_replaced(kept, added.suppressed, k)
            &&& seen.column_chunks_read == k * columns.len() + if live > 0 {
                columns.len() as int
            } else {
                0
            }
            &&& seen.delta_rows_emitted == live
            &&& seen.delta_live_rows == added.live_keys.len()
            &&& known.incremental matches Some(incremental) ==> {
                &&& incremental.delta_segments.len() <= u64::MAX ==> seen.delta_segments
                    == incremental.delta_segments.len()
                &&& seen.delta_mutations == incremental.delta_mutation_count
                &&& seen.delta_bytes_read == incremental.delta_bytes
            }
        }),
{
    let n = groups.len() as int;
    let start = scan::eager_start(known, groups.len(), added.live_keys.len());
    let kept = groups.filter(filter_laws::stays(constraints));
    assert(groups.take(n) =~= groups);
    assert forall|i: int| 0 <= i < groups.len() implies scan::group_sound(#[trigger] groups[i])
        && filter_laws::group_tells(groups[i]) by {
        assert(scan::group_sound(groups[i]));
    }
    lemma_filtered_sound(groups, constraints, n);
    lemma_rows_grow(kept, added.suppressed, 0, kept.len() as int);
    lemma_groups_counted(groups, added.suppressed, columns, constraints, start, n);
    lemma_versioned(kept, added.suppressed, kept.len() as int);
}

} // verus!
