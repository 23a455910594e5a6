//! What a scan of an indexed projection counts.
use super::block::{self, LazyGroupView};
use super::filter_laws;
use super::group::{self, GroupView};
use super::indexed::{self, LazyView, SpotView};
use super::lazy_scan::{self, VersionContext};
use super::metadata::MetadataView;
use super::overlay::DeltaRowRef;
use super::payload::{self, Fetched, PayloadKind};
use super::scan::{self, BatchView, ColumnarScanStatistics, Scanned};
use super::statistics::ColumnarConstraint;
use crate::change_stream::types::StorageVersionKey;
use crate::ids::ColumnId;
use vstd::prelude::*;

verus! {

/// How many rows the first `n` batches hold.
pub open spec fn rows_in(batches: Seq<BatchView>, n: int) -> int
    decreases n,
{
    if n <= 0 {
        0
    } else {
        rows_in(batches, n - 1) + batches[n - 1].row_count
    }
}

proof fn lemma_rows_front(left: Seq<BatchView>, right: Seq<BatchView>, n: int)
    requires
        0 <= n <= left.len(),
        n <= right.len(),
        forall|i: int| 0 <= i < n ==> left[i] == right[i],
    ensures
        rows_in(left, n) == rows_in(right, n),
        0 <= rows_in(left, n),
    decreases n,
{
    if n > 0 {
        lemma_rows_front(left, right, n - 1);
    }
}

/// A count of so many, or the largest count.
pub open spec fn at_most(count: int) -> int {
    if count > u64::MAX {
        u64::MAX as int
    } else {
        count
    }
}

/// A block is counted once as read and once as checked, with its bytes in all and
/// under what it holds; nothing else is counted.
pub proof fn law_counted_block(
    statistics: ColumnarScanStatistics,
    length: u64,
    kind: PayloadKind,
)
    ensures
        ({
            let after = payload::block_counted(statistics, length, kind);
            let base = if kind == PayloadKind::BaseData {
                length as int
            } else {
                0
            };
            let versions = if kind == PayloadKind::BaseVersion {
                length as int
            } else {
                0
            };
            let delta = if kind == PayloadKind::DeltaData {
                length as int
            } else {
                0
            };
            &&& after.physical_block_reads == at_most(statistics.physical_block_reads + 1)
            &&& after.blocks_verified == at_most(statistics.blocks_verified + 1)
            &&& after.physical_bytes_read == at_most(statistics.physical_bytes_read + length)
            &&& after.base_data_bytes_read == at_most(statistics.base_data_bytes_read + base)
            &&& after.base_version_key_bytes_read == at_most(
                statistics.base_version_key_bytes_read + versions,
            )
            &&& after.delta_data_bytes_read == at_most(statistics.delta_data_bytes_read + delta)
            &&& after.delta_bytes_read == at_most(statistics.delta_bytes_read + delta)
            &&& after.rows_read == statistics.rows_read
            &&& after.column_chunks_read == statistics.column_chunks_read
            &&& after.decoded_column_chunks == statistics.decoded_column_chunks
            &&& after.decoded_version_blocks == statistics.decoded_version_blocks
            &&& after.bytes_read == statistics.bytes_read
            &&& after.base_rows_suppressed == statistics.base_rows_suppressed
        }),
{
    reveal(payload::block_counted);
}

/// Whether two statistics count the same groups and rows.
spec fn same_groups(left: ColumnarScanStatistics, right: ColumnarScanStatistics) -> bool {
    &&& left.row_groups_total == right.row_groups_total
    &&& left.row_groups_read == right.row_groups_read
    &&& left.row_groups_pruned == right.row_groups_pruned
    &&& left.row_groups_pruned_before_data_read == right.row_groups_pruned_before_data_read
    &&& left.rows_read == right.rows_read
}

proof fn lemma_block_counted(statistics: ColumnarScanStatistics, length: u64, delta: bool)
    ensures
        same_groups(payload::column_counted(statistics, length, delta), statistics),
        same_groups(payload::versions_counted(statistics, length), statistics),
{
    reveal(payload::block_counted);
    reveal(payload::column_counted);
    reveal(payload::versions_counted);
}

proof fn lemma_vectors_counted(
    known: LazyGroupView,
    columns: Seq<ColumnId>,
    delta: bool,
    statistics: ColumnarScanStatistics,
    n: int,
)
    ensures
        same_groups(
            lazy_scan::vectors_counted(known, columns, delta, statistics, n),
            statistics,
        ),
    decreases n,
{
    if n > 0 {
        lemma_vectors_counted(known, columns, delta, statistics, n - 1);
        lemma_block_counted(
            lazy_scan::vectors_counted(known, columns, delta, statistics, n - 1),
            known.columns[indexed::chunk_place(known, columns[n - 1])->0].block.length,
            delta,
        );
    }
}

proof fn lemma_spots_counted(
    spots: Seq<SpotView>,
    references: Seq<DeltaRowRef>,
    columns: Seq<ColumnId>,
    statistics: ColumnarScanStatistics,
    n: int,
)
    ensures
        same_groups(
            lazy_scan::spots_counted(spots, references, columns, statistics, n),
            statistics,
        ),
    decreases n,
{
    if n > 0 {
        lemma_spots_counted(spots, references, columns, statistics, n - 1);
        let earlier = lazy_scan::spots_counted(spots, references, columns, statistics, n - 1);
        lemma_vectors_counted(
            spots[n - 1].known,
            columns,
            true,
            earlier,
            columns.len() as int,
        );
    }
}

/// Whether statistics count groups that were read and left out, and the rows of
/// batches.
spec fn counts_groups(
    seen: Scanned,
    start: Scanned,
    kept: nat,
    n: int,
) -> bool {
    let counted = seen.statistics;
    &&& kept <= n
    &&& counted.row_groups_total == start.statistics.row_groups_total
    &&& counted.row_groups_read == kept
    &&& counted.row_groups_pruned == n - kept
    &&& counted.row_groups_pruned_before_data_read == n - kept
    &&& seen.batches.len() == kept
    &&& counted.rows_read == at_most(rows_in(seen.batches, seen.batches.len() as int))
}

#[verifier::rlimit(60)]
proof fn lemma_group_counted(
    entry: LazyGroupView,
    context: VersionContext,
    suppressed: Seq<StorageVersionKey>,
    columns: Seq<ColumnId>,
    constraints: Seq<ColumnarConstraint>,
    blocks: Seq<Fetched>,
    at: int,
    path: String,
    before: Scanned,
    start: Scanned,
    kept: nat,
    n: int,
)
    requires
        0 < n <= u64::MAX,
        counts_groups(before, start, kept, n - 1),
    ensures
        lazy_scan::lazy_group_scanned(
            entry,
            context,
            suppressed,
            columns,
            constraints,
            blocks,
            at,
            path,
            before,
        ) matches Ok(after) ==> counts_groups(
            after,
            start,
            if group::pruned(block::directory_statistics(entry), constraints) {
                kept
            } else {
                kept + 1
            },
            n,
        ),
{
    let result = lazy_scan::lazy_group_scanned(
        entry,
        context,
        suppressed,
        columns,
        constraints,
        blocks,
        at,
        path,
        before,
    );
    if result is Ok && !group::pruned(block::directory_statistics(entry), constraints) {
        let after = result->Ok_0;
        let rows = lazy_scan::lazy_retained(
            entry,
            context,
            suppressed,
            blocks,
            at,
            path,
        )->Ok_0;
        let begun = ColumnarScanStatistics {
            row_groups_read: scan::grown(before.statistics.row_groups_read, 1),
            ..before.statistics
        };
        let retained = lazy_scan::retained_counted(entry, suppressed, rows, begun);
        if suppressed.len() > 0 {
            lemma_block_counted(begun, entry.source_versions->0.length, false);
        }
        lemma_vectors_counted(entry, columns, false, retained, columns.len() as int);
        lemma_rows_front(after.batches, before.batches, before.batches.len() as int);
        assert(after.batches.len() == before.batches.len() + 1);
        assert(after.batches.last().row_count == rows.len());
    }
}

proof fn lemma_indexed_counted(
    entries: Seq<LazyGroupView>,
    groups: Seq<GroupView>,
    context: VersionContext,
    suppressed: Seq<StorageVersionKey>,
    columns: Seq<ColumnId>,
    constraints: Seq<ColumnarConstraint>,
    blocks: Seq<Fetched>,
    path: String,
    start: Scanned,
    n: int,
)
    requires
        0 <= n <= entries.len() <= u64::MAX,
        groups.len() == entries.len(),
        start.batches.len() == 0,
        start.statistics.row_groups_read == 0,
        start.statistics.row_groups_pruned == 0,
        start.statistics.row_groups_pruned_before_data_read == 0,
        start.statistics.rows_read == 0,
        forall|i: int|
            0 <= i < groups.len() ==> filter_laws::group_tells(#[trigger] groups[i])
                && block::directory_statistics(entries[i]) == groups[i].statistics,
        lazy_scan::lazy_groups_scanned(
            entries,
            context,
            suppressed,
            columns,
            constraints,
            blocks,
            path,
            start,
            n,
        ) is Ok,
    ensures
        counts_groups(
            lazy_scan::lazy_groups_scanned(
                entries,
                context,
                suppressed,
                columns,
                constraints,
                blocks,
                path,
                start,
                n,
            )->Ok_0,
            start,
            groups.take(n).filter(filter_laws::stays(constraints)).len(),
            n,
        ),
    decreases n,
{
    if n > 0 {
        lemma_indexed_counted(
            entries,
            groups,
            context,
            suppressed,
            columns,
            constraints,
            blocks,
            path,
            start,
            n - 1,
        );
        let before = lazy_scan::lazy_groups_scanned(
            entries,
            context,
            suppressed,
            columns,
            constraints,
            blocks,
            path,
            start,
            n - 1,
        )->Ok_0;
        filter_laws::lemma_filter_step(groups, constraints, n);
        filter_laws::law_pruned_exactly_where_ruled_out(groups[n - 1], constraints);
        lemma_group_counted(
            entries[n - 1],
            context,
            suppressed,
            columns,
            constraints,
            blocks,
            indexed::base_requests(
                entries,
                suppressed.len() > 0,
                columns,
                constraints,
                n - 1,
            ).len() as int,
            path,
            before,
            start,
            groups.take(n - 1).filter(filter_laws::stays(constraints)).len(),
            n,
        );
    } else {
        reveal(Seq::filter);
        assert(groups.take(0).filter(filter_laws::stays(constraints)).len() == 0);
    }
}

/// A scan of an indexed projection counts the groups that it read and those that it
/// left out, all of these before it read data, and as many rows as its batches hold.
pub proof fn law_indexed_scan_counts_groups(
    known: MetadataView,
    lazy: LazyView,
    groups: Seq<GroupView>,
    columns: Seq<ColumnId>,
    constraints: Seq<ColumnarConstraint>,
    blocks: Seq<Fetched>,
)
    requires
        lazy.base_groups.len() <= u64::MAX,
        groups.len() == lazy.base_groups.len(),
        forall|i: int|
            0 <= i < groups.len() ==> filter_laws::group_tells(#[trigger] groups[i])
                && block::directory_statistics(lazy.base_groups[i]) == groups[i].statistics,
    ensures
        lazy_scan::lazy_scan(known, lazy, columns, constraints, blocks) matches Ok(seen) ==> {
            let kept = groups.filter(filter_laws::stays(constraints)).len();
            &&& seen.statistics.row_groups_total == groups.len()
            &&& seen.statistics.row_groups_read == kept
            &&& seen.statistics.row_groups_pruned == groups.len() - kept
            &&& seen.statistics.row_groups_pruned_before_data_read == groups.len() - kept
            &&& seen.statistics.rows_read == at_most(
                rows_in(seen.batches, seen.batches.len() as int),
            )
            &&& seen.statistics.merged_rows == seen.statistics.rows_read
        },
{
    if lazy_scan::lazy_scan(known, lazy, columns, constraints, blocks) is Ok {
        let seen = lazy_scan::lazy_scan(known, lazy, columns, constraints, blocks)->Ok_0;
        let entries = lazy.base_groups;
        let n = entries.len() as int;
        let start = lazy_scan::lazy_start(known, lazy);
        lemma_indexed_counted(
            entries,
            groups,
            lazy_scan::context_of(known),
            lazy.added.suppressed,
            columns,
            constraints,
            blocks,
            lazy.paths[0],
            start,
            n,
        );
        assert(groups.take(n) =~= groups);
        let base = lazy_scan::lazy_groups_scanned(
            entries,
            lazy_scan::context_of(known),
            lazy.added.suppressed,
            columns,
            constraints,
            blocks,
            lazy.paths[0],
            start,
            n,
        )->Ok_0;
        let spots = indexed::all_spots(lazy.deltas, lazy.deltas.len() as int);
        lemma_spots_counted(
            spots,
            lazy.added.live_rows,
            columns,
            base.statistics,
            spots.len() as int,
        );
        if lazy.added.live_rows.len() > 0 {
            lemma_rows_front(seen.batches, base.batches, base.batches.len() as int);
        }
    }
}

} // verus!
