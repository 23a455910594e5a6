//! An indexed projection gives a scan what its segments hold.
use super::block::LazyGroupView;
use super::compact;
use super::error::ColumnarError;
use super::group::{self, GroupView};
use super::indexed::{self, LazyView, SpotView};
use super::lazy_scan::{self, VersionContext};
use super::lazy_segment::{self, LAZY_SEGMENT_HEADER_BYTES};
use super::lazy_segment_laws;
use super::metadata::MetadataView;
use super::open_laws;
use super::overlay::{DeltaRowRef, OverlayView};
use super::payload::{BlockRequest, Fetched};
use super::scan::{self, Scanned};
use super::segment_laws;
use super::statistics::ColumnarConstraint;
use super::scan_laws;
use super::vector::{self, ColumnarColumnSpec, VectorView};
use super::version;
use super::writer::{self, Piece, SegmentPlan};
use crate::change_stream::types::StorageVersionKey;
use crate::ids::ColumnId;
use crate::value::ScalarView;
use vstd::prelude::*;

verus! {

// ---------------------------------------------------------------------------
// Blocks of files
// ---------------------------------------------------------------------------
/// Whether a block was fetched from the files of a projection.
pub open spec fn block_from(files: Seq<Seq<u8>>, request: BlockRequest, fetched: Fetched) -> bool {
    &&& fetched is Ok
    &&& fetched->Ok_0@ == files[request.file as int].subrange(
        request.block.offset as int,
        request.block.offset + request.block.length,
    )
}

/// Whether the blocks from a place on are those that were asked for.
pub open spec fn fetched_at(
    files: Seq<Seq<u8>>,
    requests: Seq<BlockRequest>,
    blocks: Seq<Fetched>,
    at: int,
) -> bool {
    forall|j: int|
        0 <= j < requests.len() ==> block_from(files, #[trigger] requests[j], blocks[at + j])
}

/// Blocks that were fetched were fetched for each part of the requests.
pub proof fn lemma_fetched_part(
    files: Seq<Seq<u8>>,
    requests: Seq<BlockRequest>,
    part: Seq<BlockRequest>,
    blocks: Seq<Fetched>,
    at: int,
    skipped: int,
)
    requires
        fetched_at(files, requests, blocks, at),
        0 <= skipped,
        skipped + part.len() <= requests.len(),
        part == requests.subrange(skipped, skipped + part.len()),
    ensures
        fetched_at(files, part, blocks, at + skipped),
{
    assert forall|j: int| 0 <= j < part.len() implies block_from(
        files,
        #[trigger] part[j],
        blocks[at + skipped + j],
    ) by {
        assert(part[j] == requests[skipped + j]);
        assert(block_from(files, requests[skipped + j], blocks[at + (skipped + j)]));
    }
}

/// Whether a file holds a group where a directory says, with row versions of the
/// projection.
pub open spec fn group_stands(
    file: Seq<u8>,
    specs: Seq<ColumnarColumnSpec>,
    known: GroupView,
    entry: LazyGroupView,
    context: VersionContext,
) -> bool {
    &&& segment_laws::columns_kept(specs, known)
    &&& lazy_segment_laws::group_holds(file, specs, known, entry)
    &&& known.source_versions matches Some(keys) ==> {
        &&& keys.len() == known.rows
        &&& forall|i: int|
            0 <= i < keys.len() ==> version::key_error(
                #[trigger] keys[i],
                context.storage_id,
                context.kind,
            ) is None
    }
}

/// Whether a file holds groups where a directory says.
pub open spec fn groups_stand(
    file: Seq<u8>,
    specs: Seq<ColumnarColumnSpec>,
    groups: Seq<GroupView>,
    entries: Seq<LazyGroupView>,
    context: VersionContext,
) -> bool {
    &&& entries.len() == groups.len()
    &&& forall|i: int|
        0 <= i < groups.len() ==> group_stands(
            file,
            specs,
            groups[i],
            #[trigger] entries[i],
            context,
        )
}

proof fn lemma_column_request(
    file: Seq<u8>,
    entry: LazyGroupView,
    specs: Seq<ColumnarColumnSpec>,
    known: GroupView,
    columns: Seq<ColumnId>,
    index: usize,
    n: int,
    k: int,
)
    requires
        lazy_segment_laws::group_holds(file, specs, known, entry),
        scan::unknown_error(specs, columns, columns.len() as int) is None,
        0 <= n <= columns.len(),
    ensures
        indexed::column_requests(entry, columns, index, n).len() == n,
        0 <= k < n ==> indexed::column_requests(entry, columns, index, n)[k] == (BlockRequest {
            file: index,
            block: entry.columns[scan::position_of(specs, columns[k])].block,
        }),
    decreases n,
{
    if n > 0 {
        lemma_column_request(file, entry, specs, known, columns, index, n - 1, k);
        open_laws::lemma_entry_place(file, entry, specs, known, columns, n - 1);
    }
}

proof fn lemma_group_fetched(
    files: Seq<Seq<u8>>,
    entry: LazyGroupView,
    specs: Seq<ColumnarColumnSpec>,
    known: GroupView,
    columns: Seq<ColumnId>,
    blocks: Seq<Fetched>,
    at: int,
    index: usize,
)
    requires
        lazy_segment_laws::group_holds(files[index as int], specs, known, entry),
        scan::unknown_error(specs, columns, columns.len() as int) is None,
        fetched_at(
            files,
            indexed::column_requests(entry, columns, index, columns.len() as int),
            blocks,
            at,
        ),
    ensures
        open_laws::fetched_from(files[index as int], entry, specs, columns, blocks, at),
{
    let requests = indexed::column_requests(entry, columns, index, columns.len() as int);
    assert forall|k: int| 0 <= k < columns.len() implies {
        let place = scan::position_of(specs, #[trigger] columns[k]);
        let want = entry.columns[place].block;
        &&& blocks[at + k] is Ok
        &&& blocks[at + k]->Ok_0@ == files[index as int].subrange(
            want.offset as int,
            want.offset + want.length,
        )
    } by {
        lemma_column_request(
            files[index as int],
            entry,
            specs,
            known,
            columns,
            index,
            columns.len() as int,
            k,
        );
        assert(block_from(files, requests[k], blocks[at + k]));
    }
}

proof fn lemma_base_part(
    groups: Seq<LazyGroupView>,
    needed: bool,
    columns: Seq<ColumnId>,
    constraints: Seq<ColumnarConstraint>,
    n: int,
    g: int,
)
    requires
        0 <= g < n <= groups.len(),
    ensures
        ({
            let before = indexed::base_requests(groups, needed, columns, constraints, g).len() as int;
            let all = indexed::base_requests(groups, needed, columns, constraints, n);
            let part = indexed::group_requests(groups[g], needed, columns, constraints);
            &&& before + part.len() <= all.len()
            &&& part == all.subrange(before, before + part.len())
        }),
    decreases n,
{
    let before = indexed::base_requests(groups, needed, columns, constraints, g).len() as int;
    let all = indexed::base_requests(groups, needed, columns, constraints, n);
    let part = indexed::group_requests(groups[g], needed, columns, constraints);
    if g < n - 1 {
        lemma_base_part(groups, needed, columns, constraints, n - 1, g);
    }
    assert(part =~= all.subrange(before, before + part.len()));
}

proof fn lemma_delta_part(
    spots: Seq<SpotView>,
    references: Seq<DeltaRowRef>,
    columns: Seq<ColumnId>,
    n: int,
    g: int,
)
    requires
        0 <= g < n <= spots.len(),
    ensures
        ({
            let before = indexed::delta_requests(spots, references, columns, g).len() as int;
            let all = indexed::delta_requests(spots, references, columns, n);
            let part = indexed::spot_requests(spots[g], references, columns);
            &&& before + part.len() <= all.len()
            &&& part == all.subrange(before, before + part.len())
        }),
    decreases n,
{
    let before = indexed::delta_requests(spots, references, columns, g).len() as int;
    let all = indexed::delta_requests(spots, references, columns, n);
    let part = indexed::spot_requests(spots[g], references, columns);
    if g < n - 1 {
        lemma_delta_part(spots, references, columns, n - 1, g);
    }
    assert(part =~= all.subrange(before, before + part.len()));
}

// ---------------------------------------------------------------------------
// The base segment
// ---------------------------------------------------------------------------
proof fn lemma_nothing_replaced(
    keys: Seq<StorageVersionKey>,
    suppressed: Seq<StorageVersionKey>,
    n: int,
)
    requires
        0 <= n <= keys.len(),
        suppressed.len() == 0,
    ensures
        scan::kept_rows(keys, suppressed, n) == scan::all_rows(n as nat),
    decreases n,
{
    if n > 0 {
        lemma_nothing_replaced(keys, suppressed, n - 1);
        assert(scan::kept_rows(keys, suppressed, n) =~= scan::all_rows(n as nat));
    } else {
        assert(scan::all_rows(0) =~= Seq::empty());
    }
}

proof fn lemma_same_statistics(
    file: Seq<u8>,
    specs: Seq<ColumnarColumnSpec>,
    known: GroupView,
    entry: LazyGroupView,
)
    requires
        segment_laws::columns_kept(specs, known),
        lazy_segment_laws::group_holds(file, specs, known, entry),
    ensures
        super::block::directory_statistics(entry) == known.statistics,
{
    let left = super::block::directory_statistics(entry);
    assert forall|i: int| 0 <= i < specs.len() implies left[i] == known.statistics[i] by {
        segment_laws::lemma_statistics_found(specs, known, i);
        assert(lazy_segment_laws::column_holds(file, specs, known, entry.columns[i], i));
        assert(known.statistics[i].0 == specs[i].column_id);
    }
    assert(left =~= known.statistics);
}

proof fn lemma_group_scanned(
    files: Seq<Seq<u8>>,
    specs: Seq<ColumnarColumnSpec>,
    known: GroupView,
    entry: LazyGroupView,
    context: VersionContext,
    suppressed: Seq<StorageVersionKey>,
    columns: Seq<ColumnId>,
    constraints: Seq<ColumnarConstraint>,
    blocks: Seq<Fetched>,
    at: int,
    path: String,
    left: Scanned,
    right: Scanned,
)
    requires
        files.len() > 0,
        files[0].len() <= usize::MAX,
        group_stands(files[0], specs, known, entry, context),
        scan::unknown_error(specs, columns, columns.len() as int) is None,
        suppressed.len() > 0 ==> known.source_versions is Some,
        fetched_at(
            files,
            indexed::group_requests(entry, suppressed.len() > 0, columns, constraints),
            blocks,
            at,
        ),
        left.batches == right.batches,
    ensures
        ({
            let found = lazy_scan::lazy_group_scanned(
                entry,
                context,
                suppressed,
                columns,
                constraints,
                blocks,
                at,
                path,
                left,
            );
            let seen = scan::group_scanned(known, suppressed, columns, constraints, right);
            &&& found is Ok
            &&& seen is Ok
            &&& found->Ok_0.batches == seen->Ok_0.batches
        }),
{
    lemma_same_statistics(files[0], specs, known, entry);
    let needed = suppressed.len() > 0;
    if !group::pruned(known.statistics, constraints) {
        let versions = indexed::version_requests(entry, needed);
        let wanted = indexed::column_requests(entry, columns, 0, columns.len() as int);
        let requests = indexed::group_requests(entry, needed, columns, constraints);
        assert(requests == versions + wanted);
        let rows = scan::retained(known, suppressed);
        assert(lazy_scan::lazy_retained(entry, context, suppressed, blocks, at, path) == Ok::<
            Seq<usize>,
            ColumnarError,
        >(rows)) by {
            if needed {
                let keys = known.source_versions->0;
                let want = entry.source_versions->0;
                lazy_segment_laws::law_version_block_reads_back(
                    files[0],
                    want,
                    keys,
                    context.storage_id,
                    context.kind,
                );
                assert(requests[0] == (BlockRequest { file: 0, block: want }));
                assert(block_from(files, requests[0], blocks[at + 0]));
            } else if known.source_versions is Some {
                let keys = known.source_versions->0;
                lemma_nothing_replaced(keys, suppressed, keys.len() as int);
            }
        }
        let start = at + versions.len();
        assert(wanted =~= requests.subrange(versions.len() as int, requests.len() as int));
        lemma_fetched_part(files, requests, wanted, blocks, at, versions.len() as int);
        lemma_group_fetched(files, entry, specs, known, columns, blocks, start, 0);
        open_laws::law_fetched_blocks_give_columns(
            files[0],
            entry,
            specs,
            known,
            columns,
            blocks,
            start,
            0,
            path,
            "indexed row group is missing a projected column",
            columns.len() as int,
        );
        open_laws::law_indexed_batch_is_the_same(
            specs,
            known,
            columns,
            rows,
            columns.len() as int,
        );
        let vectors = Seq::new(
            columns.len(),
            |k: int| known.columns[scan::position_of(specs, columns[k])].1,
        );
        let batch = lazy_scan::batch_of(columns, vectors, rows);
        assert(batch.columns.take(columns.len() as int) =~= batch.columns);
    }
}

/// The base segment of an indexed projection gives a scan the batches that its
/// groups give in memory.
pub proof fn law_indexed_base_is_the_same(
    files: Seq<Seq<u8>>,
    specs: Seq<ColumnarColumnSpec>,
    groups: Seq<GroupView>,
    entries: Seq<LazyGroupView>,
    context: VersionContext,
    suppressed: Seq<StorageVersionKey>,
    columns: Seq<ColumnId>,
    constraints: Seq<ColumnarConstraint>,
    blocks: Seq<Fetched>,
    path: String,
    left: Scanned,
    right: Scanned,
    n: int,
)
    requires
        0 <= n <= groups.len(),
        files.len() > 0,
        files[0].len() <= usize::MAX,
        groups_stand(files[0], specs, groups, entries, context),
        scan::unknown_error(specs, columns, columns.len() as int) is None,
        suppressed.len() > 0 ==> forall|i: int|
            0 <= i < groups.len() ==> (#[trigger] groups[i]).source_versions is Some,
        fetched_at(
            files,
            indexed::base_requests(
                entries,
                suppressed.len() > 0,
                columns,
                constraints,
                entries.len() as int,
            ),
            blocks,
            0,
        ),
        left.batches == right.batches,
    ensures
        ({
            let found = lazy_scan::lazy_groups_scanned(
                entries,
                context,
                suppressed,
                columns,
                constraints,
                blocks,
                path,
                left,
                n,
            );
            let seen = scan::groups_scanned(groups, suppressed, columns, constraints, right, n);
            &&& found is Ok
            &&& seen is Ok
            &&& found->Ok_0.batches == seen->Ok_0.batches
        }),
    decreases n,
{
    if n > 0 {
        law_indexed_base_is_the_same(
            files,
            specs,
            groups,
            entries,
            context,
            suppressed,
            columns,
            constraints,
            blocks,
            path,
            left,
            right,
            n - 1,
        );
        let needed = suppressed.len() > 0;
        let all = indexed::base_requests(
            entries,
            needed,
            columns,
            constraints,
            entries.len() as int,
        );
        let at = indexed::base_requests(entries, needed, columns, constraints, n - 1).len() as int;
        let requests = indexed::group_requests(entries[n - 1], needed, columns, constraints);
        lemma_base_part(entries, needed, columns, constraints, entries.len() as int, n - 1);
        lemma_fetched_part(files, all, requests, blocks, 0, at);
        assert(group_stands(files[0], specs, groups[n - 1], entries[n - 1], context));
        lemma_group_scanned(
            files,
            specs,
            groups[n - 1],
            entries[n - 1],
            context,
            suppressed,
            columns,
            constraints,
            blocks,
            at,
            path,
            lazy_scan::lazy_groups_scanned(
                entries,
                context,
                suppressed,
                columns,
                constraints,
                blocks,
                path,
                left,
                n - 1,
            )->Ok_0,
            scan::groups_scanned(groups, suppressed, columns, constraints, right, n - 1)->Ok_0,
        );
    }
}

// ---------------------------------------------------------------------------
// Added rows
// ---------------------------------------------------------------------------
/// The groups of a delta segment are listed in order.
pub proof fn lemma_segment_spot(groups: Seq<LazyGroupView>, segment: u32, n: int, k: int)
    requires
        0 <= n <= groups.len(),
    ensures
        indexed::segment_spots(groups, segment, n).len() == n,
        0 <= k < n ==> indexed::segment_spots(groups, segment, n)[k] == (SpotView {
            segment,
            start: indexed::group_start(groups, k),
            known: groups[k],
        }),
    decreases n,
{
    if n > 0 {
        lemma_segment_spot(groups, segment, n - 1, k);
    }
}

/// Whether the file of a delta segment holds a group where the directory says.
pub open spec fn spot_stands(
    files: Seq<Seq<u8>>,
    specs: Seq<ColumnarColumnSpec>,
    spot: SpotView,
    known: GroupView,
) -> bool {
    &&& indexed::file_of(spot) < files.len()
    &&& files[indexed::file_of(spot) as int].len() <= usize::MAX
    &&& segment_laws::columns_kept(specs, known)
    &&& lazy_segment_laws::group_holds(
        files[indexed::file_of(spot) as int],
        specs,
        known,
        spot.known,
    )
}

/// Whether the files of delta segments hold groups where the directories say.
pub open spec fn spots_stand(
    files: Seq<Seq<u8>>,
    specs: Seq<ColumnarColumnSpec>,
    spots: Seq<SpotView>,
    held: Seq<GroupView>,
) -> bool {
    &&& held.len() == spots.len()
    &&& forall|k: int|
        0 <= k < spots.len() ==> spot_stands(files, specs, #[trigger] spots[k], held[k])
}

/// Whether a row is in one of the first `n` groups.
pub open spec fn in_some(spots: Seq<SpotView>, reference: DeltaRowRef, n: int) -> bool {
    exists|k: int| 0 <= k < n && indexed::inside(#[trigger] spots[k], reference)
}

/// Whether references name different rows of groups, and these are the rows.
pub open spec fn rows_stand(
    spots: Seq<SpotView>,
    held: Seq<GroupView>,
    references: Seq<DeltaRowRef>,
    rows: Seq<Seq<ScalarView>>,
) -> bool {
    &&& rows.len() == references.len()
    &&& forall|i: int|
        0 <= i < references.len() ==> {
            &&& in_some(spots, #[trigger] references[i], spots.len() as int)
            &&& lazy_scan::first_of(references, i)
        }
    &&& forall|i: int, k: int|
        0 <= i < references.len() && 0 <= k < spots.len() && #[trigger] indexed::inside(
            spots[k],
            references[i],
        ) ==> rows[i] == lazy_scan::row_of(
            compact::group_vectors(held[k]),
            references[i].row - spots[k].start,
        )
}

/// The rows that the first `n` groups hold.
spec fn found_of(
    spots: Seq<SpotView>,
    references: Seq<DeltaRowRef>,
    rows: Seq<Seq<ScalarView>>,
    n: int,
) -> Seq<Option<Seq<ScalarView>>> {
    Seq::new(
        references.len(),
        |i: int|
            if in_some(spots, references[i], n) {
                Some(rows[i])
            } else {
                None
            },
    )
}

proof fn lemma_wanted_values(
    specs: Seq<ColumnarColumnSpec>,
    known: GroupView,
    columns: Seq<ColumnId>,
    row: int,
)
    requires
        segment_laws::columns_kept(specs, known),
        scan::unknown_error(specs, columns, columns.len() as int) is None,
    ensures
        lazy_scan::row_of(
            Seq::new(
                columns.len(),
                |k: int| known.columns[scan::position_of(specs, columns[k])].1,
            ),
            row,
        ) == scan::wanted_row(
            specs,
            columns,
            lazy_scan::row_of(compact::group_vectors(known), row),
        ),
{
    let vectors: Seq<VectorView> = Seq::new(
        columns.len(),
        |k: int| known.columns[scan::position_of(specs, columns[k])].1,
    );
    let whole = lazy_scan::row_of(compact::group_vectors(known), row);
    let left = lazy_scan::row_of(vectors, row);
    let right = scan::wanted_row(specs, columns, whole);
    assert forall|k: int| 0 <= k < columns.len() implies left[k] == right[k] by {
        scan::lemma_known_column(specs, columns, k);
        let place = scan::position_of(specs, columns[k]);
        assert(compact::group_vectors(known)[place] == known.columns[place].1);
    }
    assert(left =~= right);
}

proof fn lemma_spots_found(
    files: Seq<Seq<u8>>,
    specs: Seq<ColumnarColumnSpec>,
    spots: Seq<SpotView>,
    held: Seq<GroupView>,
    references: Seq<DeltaRowRef>,
    rows: Seq<Seq<ScalarView>>,
    columns: Seq<ColumnId>,
    blocks: Seq<Fetched>,
    at: int,
    paths: Seq<String>,
    n: int,
)
    requires
        0 <= n <= spots.len(),
        spots_stand(files, specs, spots, held),
        rows_stand(spots, held, references, rows),
        scan::unknown_error(specs, columns, columns.len() as int) is None,
        fetched_at(
            files,
            indexed::delta_requests(spots, references, columns, spots.len() as int),
            blocks,
            at,
        ),
    ensures
        lazy_scan::spots_read(spots, references, columns, blocks, at, paths, n) == Ok::<
            Seq<Option<Seq<ScalarView>>>,
            ColumnarError,
        >(found_of(spots, references, scan::wanted_rows(specs, columns, rows), n)),
    decreases n,
{
    let wanted = scan::wanted_rows(specs, columns, rows);
    let after = found_of(spots, references, wanted, n);
    if n > 0 {
        lemma_spots_found(
            files,
            specs,
            spots,
            held,
            references,
            rows,
            columns,
            blocks,
            at,
            paths,
            n - 1,
        );
        let before = found_of(spots, references, wanted, n - 1);
        let spot = spots[n - 1];
        let known = held[n - 1];
        assert(spot_stands(files, specs, spot, known));
        assert forall|i: int| 0 <= i < references.len() implies in_some(
            spots,
            #[trigger] references[i],
            n,
        ) == (in_some(spots, references[i], n - 1) || indexed::inside(spot, references[i])) by {
            if indexed::inside(spot, references[i]) {
                assert(indexed::inside(spots[n - 1], references[i]));
            }
        }
        if !indexed::touched(spot, references) {
            assert(after =~= before);
        } else {
            let all = indexed::delta_requests(spots, references, columns, spots.len() as int);
            let skipped = indexed::delta_requests(spots, references, columns, n - 1).len() as int;
            let part = indexed::spot_requests(spot, references, columns);
            let index = indexed::file_of(spot);
            lemma_delta_part(spots, references, columns, spots.len() as int, n - 1);
            lemma_fetched_part(files, all, part, blocks, at, skipped);
            lemma_group_fetched(
                files,
                spot.known,
                specs,
                known,
                columns,
                blocks,
                at + skipped,
                index,
            );
            open_laws::law_fetched_blocks_give_columns(
                files[index as int],
                spot.known,
                specs,
                known,
                columns,
                blocks,
                at + skipped,
                index,
                paths[index as int],
                "indexed delta group is missing a projected column",
                columns.len() as int,
            );
            let vectors: Seq<VectorView> = Seq::new(
                columns.len(),
                |k: int| known.columns[scan::position_of(specs, columns[k])].1,
            );
            let now = lazy_scan::rows_found(spot, references, vectors, before);
            assert forall|i: int| 0 <= i < references.len() implies now[i] == after[i] by {
                if indexed::inside(spot, references[i]) {
                    lemma_wanted_values(specs, known, columns, references[i].row - spot.start);
                    assert(in_some(spots, references[i], n));
                    assert(indexed::inside(spots[n - 1], references[i]));
                }
            }
            assert(now =~= after);
        }
    } else {
        assert(after =~= lazy_scan::none_found(references.len()));
    }
}

proof fn lemma_all_found(
    found: Seq<Option<Seq<ScalarView>>>,
    rows: Seq<Seq<ScalarView>>,
    n: int,
)
    requires
        0 <= n <= rows.len(),
        found.len() == rows.len(),
        forall|i: int| 0 <= i < rows.len() ==> #[trigger] found[i] == Some(rows[i]),
    ensures
        lazy_scan::all_found(found, n) == Ok::<Seq<Seq<ScalarView>>, ColumnarError>(rows.take(n)),
    decreases n,
{
    if n > 0 {
        lemma_all_found(found, rows, n - 1);
        assert(found[n - 1] == Some(rows[n - 1]));
        assert(rows.take(n) =~= rows.take(n - 1).push(rows[n - 1]));
    } else {
        assert(rows.take(0) =~= Seq::empty());
    }
}

// ---------------------------------------------------------------------------
// Scans
// ---------------------------------------------------------------------------
/// The overlay of an indexed projection, with the added rows themselves.
pub open spec fn overlay_with(
    added: OverlayView<DeltaRowRef>,
    rows: Seq<Seq<ScalarView>>,
) -> OverlayView<Seq<ScalarView>> {
    OverlayView { suppressed: added.suppressed, live_keys: added.live_keys, live_rows: rows }
}

/// Whether the files of an indexed projection hold what its directories say: the
/// groups of the base segment, the groups of the delta segments, and the rows that
/// these added.
pub open spec fn projection_stands(
    known: MetadataView,
    lazy: LazyView,
    files: Seq<Seq<u8>>,
    groups: Seq<GroupView>,
    held: Seq<GroupView>,
    rows: Seq<Seq<ScalarView>>,
) -> bool {
    let spots = indexed::all_spots(lazy.deltas, lazy.deltas.len() as int);
    &&& files.len() > 0
    &&& files[0].len() <= usize::MAX
    &&& groups_stand(
        files[0],
        known.columns,
        groups,
        lazy.base_groups,
        lazy_scan::context_of(known),
    )
    &&& lazy.added.suppressed.len() > 0 ==> forall|i: int|
        0 <= i < groups.len() ==> (#[trigger] groups[i]).source_versions is Some
    &&& spots_stand(files, known.columns, spots, held)
    &&& rows_stand(spots, held, lazy.added.live_rows, rows)
}

/// A scan of an indexed projection, out of blocks that were fetched from files that
/// hold what the directories say, gives the batches that the same groups and rows
/// give in memory, and fails where they do.
pub proof fn law_indexed_scan_is_the_same(
    known: MetadataView,
    lazy: LazyView,
    files: Seq<Seq<u8>>,
    groups: Seq<GroupView>,
    held: Seq<GroupView>,
    rows: Seq<Seq<ScalarView>>,
    columns: Seq<ColumnId>,
    constraints: Seq<ColumnarConstraint>,
    blocks: Seq<Fetched>,
)
    requires
        projection_stands(known, lazy, files, groups, held, rows),
        fetched_at(files, indexed::scan_requests(lazy, columns, constraints), blocks, 0),
    ensures
        match scan::eager_scan(
            known,
            groups,
            overlay_with(lazy.added, rows),
            columns,
            constraints,
        ) {
            Ok(seen) => {
                &&& lazy_scan::lazy_scan(known, lazy, columns, constraints, blocks) is Ok
                &&& lazy_scan::lazy_scan(known, lazy, columns, constraints, blocks)->Ok_0.batches
                    == seen.batches
            },
            Err(error) => lazy_scan::lazy_scan(known, lazy, columns, constraints, blocks) == Err::<
                Scanned,
                ColumnarError,
            >(error),
        },
{
    let specs = known.columns;
    if scan::unknown_error(specs, columns, columns.len() as int) is None {
        let entries = lazy.base_groups;
        let suppressed = lazy.added.suppressed;
        let references = lazy.added.live_rows;
        let spots = indexed::all_spots(lazy.deltas, lazy.deltas.len() as int);
        let n = groups.len() as int;
        let base = indexed::base_requests(
            entries,
            suppressed.len() > 0,
            columns,
            constraints,
            entries.len() as int,
        );
        let behind = indexed::delta_requests(spots, references, columns, spots.len() as int);
        let all = indexed::scan_requests(lazy, columns, constraints);
        assert(all == base + behind);
        assert(base =~= all.subrange(0, base.len() as int));
        assert(behind =~= all.subrange(base.len() as int, all.len() as int));
        lemma_fetched_part(files, all, base, blocks, 0, 0);
        lemma_fetched_part(files, all, behind, blocks, 0, base.len() as int);
        law_indexed_base_is_the_same(
            files,
            specs,
            groups,
            entries,
            lazy_scan::context_of(known),
            suppressed,
            columns,
            constraints,
            blocks,
            lazy.paths[0],
            lazy_scan::lazy_start(known, lazy),
            scan::eager_start(known, groups.len(), lazy.added.live_keys.len()),
            n,
        );
        if references.len() > 0 {
            let wanted = scan::wanted_rows(specs, columns, rows);
            lemma_spots_found(
                files,
                specs,
                spots,
                held,
                references,
                rows,
                columns,
                blocks,
                base.len() as int,
                lazy.paths,
                spots.len() as int,
            );
            let found = found_of(spots, references, wanted, spots.len() as int);
            assert forall|i: int| 0 <= i < wanted.len() implies #[trigger] found[i] == Some(
                wanted[i],
            ) by {
                assert(in_some(spots, references[i], spots.len() as int));
            }
            lemma_all_found(found, wanted, wanted.len() as int);
            assert(wanted.take(wanted.len() as int) =~= wanted);
        }
    }
}

// ---------------------------------------------------------------------------
// Prepared projections
// ---------------------------------------------------------------------------
/// Pieces that were written make groups.
pub proof fn lemma_pieces_make_groups(plan: SegmentPlan, pieces: Seq<Piece>, n: int, i: int)
    requires
        0 <= i < n <= pieces.len(),
        writer::pieces_written(plan, pieces, n) is Ok,
    ensures
        group::group_error(plan.columns, pieces[i].rows) is None,
    decreases n,
{
    if i < n - 1 {
        lemma_pieces_make_groups(plan, pieces, n - 1, i);
    }
}

/// The groups of some pieces.
pub open spec fn piece_groups(plan: SegmentPlan, pieces: Seq<Piece>) -> Seq<GroupView> {
    Seq::new(pieces.len(), |i: int| writer::piece_group(plan, pieces[i]))
}

/// Whether every row has a value for each column.
pub open spec fn pieces_wide(plan: SegmentPlan, pieces: Seq<Piece>) -> bool {
    forall|i: int|
        0 <= i < pieces.len() ==> scan::rows_sound(
            (#[trigger] pieces[i]).rows,
            plan.columns.len(),
        )
}

/// The group of a piece is a sound one of the projection.
pub proof fn lemma_piece_sound(plan: SegmentPlan, piece: Piece)
    requires
        lazy_segment_laws::piece_kept(plan, piece),
        group::group_error(plan.columns, piece.rows) is None,
    ensures
        segment_laws::columns_kept(plan.columns, writer::piece_group(plan, piece)),
        scan::group_sound(writer::piece_group(plan, piece)),
        scan_laws::has_columns(writer::piece_group(plan, piece), plan.columns),
{
    let known = writer::piece_group(plan, piece);
    let versions = known.source_versions;
    segment_laws::lemma_group_kept(plan.columns, piece.rows, versions);
    assert forall|i: int| 0 <= i < known.columns.len() implies {
        &&& vector::well_formed((#[trigger] known.columns[i]).1)
        &&& vector::vector_len(known.columns[i].1) == known.rows
    } by {
        assert(known.statistics[i].0 == plan.columns[i].column_id);
    }
    assert(scan::column_ids(known.columns) =~= group::spec_ids(plan.columns));
}

/// The group of a piece holds its rows.
pub proof fn lemma_piece_row(plan: SegmentPlan, piece: Piece, r: int)
    requires
        lazy_segment_laws::piece_kept(plan, piece),
        group::group_error(plan.columns, piece.rows) is None,
        scan::rows_sound(piece.rows, plan.columns.len()),
        0 <= r < piece.rows.len(),
    ensures
        lazy_scan::row_of(compact::group_vectors(writer::piece_group(plan, piece)), r)
            == piece.rows[r],
{
    let known = writer::piece_group(plan, piece);
    let vectors = compact::group_vectors(known);
    let shown = lazy_scan::row_of(vectors, r);
    assert forall|i: int| 0 <= i < plan.columns.len() implies shown[i] == piece.rows[r][i] by {
        segment_laws::law_group_holds_rows(
            plan.columns,
            piece.rows,
            known.source_versions,
            i,
            r,
        );
        assert(vectors[i] == known.columns[i].1);
    }
    assert(piece.rows[r].len() == plan.columns.len());
    assert(shown =~= piece.rows[r]);
}

proof fn lemma_piece_visible(
    plan: SegmentPlan,
    piece: Piece,
    suppressed: Seq<StorageVersionKey>,
)
    requires
        lazy_segment_laws::piece_kept(plan, piece),
        group::group_error(plan.columns, piece.rows) is None,
        scan::rows_sound(piece.rows, plan.columns.len()),
        suppressed.len() == 0,
    ensures
        scan_laws::group_visible(writer::piece_group(plan, piece), suppressed) == piece.rows,
{
    let known = writer::piece_group(plan, piece);
    let vectors = compact::group_vectors(known);
    let left = scan_laws::group_visible(known, suppressed);
    if plan.versioned {
        lemma_nothing_replaced(piece.keys, suppressed, piece.keys.len() as int);
    }
    assert(scan::retained(known, suppressed) == scan::all_rows(piece.rows.len()));
    assert forall|r: int| 0 <= r < piece.rows.len() implies left[r] == piece.rows[r] by {
        let shown = lazy_scan::row_of(vectors, r);
        assert(scan::all_rows(piece.rows.len())[r] == r as usize);
        assert(left[r] == shown);
        lemma_piece_row(plan, piece, r);
    }
    assert(left =~= piece.rows);
}

proof fn lemma_pieces_visible(
    plan: SegmentPlan,
    pieces: Seq<Piece>,
    suppressed: Seq<StorageVersionKey>,
    n: int,
)
    requires
        0 <= n <= pieces.len(),
        lazy_segment_laws::pieces_kept(plan, pieces),
        pieces_wide(plan, pieces),
        writer::pieces_written(plan, pieces, pieces.len() as int) is Ok,
        suppressed.len() == 0,
    ensures
        scan_laws::base_visible(piece_groups(plan, pieces), suppressed, n) == writer::flattened(
            pieces,
            n,
        ),
    decreases n,
{
    if n > 0 {
        lemma_pieces_visible(plan, pieces, suppressed, n - 1);
        lemma_pieces_make_groups(plan, pieces, pieces.len() as int, n - 1);
        assert(scan::rows_sound(pieces[n - 1].rows, plan.columns.len()));
        lemma_piece_visible(plan, pieces[n - 1], suppressed);
    }
}

/// An indexed projection as it is prepared: without delta segments.
pub open spec fn fresh_view(entries: Seq<LazyGroupView>, paths: Seq<String>) -> LazyView {
    LazyView {
        base_groups: entries,
        deltas: Seq::empty(),
        added: OverlayView {
            suppressed: Seq::empty(),
            live_keys: Seq::empty(),
            live_rows: Seq::empty(),
        },
        paths,
    }
}

/// A scan of a prepared projection, out of blocks that were fetched from its file,
/// gives the wanted values of every row that was prepared, each once and in order.
pub proof fn law_prepared_rows_are_scanned(
    known: MetadataView,
    plan: SegmentPlan,
    pieces: Seq<Piece>,
    rows: u64,
    columns: Seq<ColumnId>,
    blocks: Seq<Fetched>,
    paths: Seq<String>,
)
    requires
        writer::segment_made(plan, pieces, rows) is Ok,
        plan.start == LAZY_SEGMENT_HEADER_BYTES,
        lazy_segment_laws::pieces_kept(plan, pieces),
        pieces_wide(plan, pieces),
        lazy_segment_laws::piece_rows(pieces, pieces.len() as int) == rows,
        lazy_segment_laws::metadata_fits(known, plan, pieces.len(), rows),
        scan::unknown_error(plan.columns, columns, columns.len() as int) is None,
        ({
            let file = writer::segment_made(plan, pieces, rows)->Ok_0;
            let whole = writer::file_of(file);
            &&& file.footer.len() <= lazy_segment::MAX_INDEX_BYTES
            &&& whole.len() <= lazy_segment::MAX_FILE_BYTES
            &&& whole.len() <= usize::MAX
            &&& fetched_at(
                seq![whole],
                indexed::scan_requests(fresh_view(file.groups, paths), columns, Seq::empty()),
                blocks,
                0,
            )
        }),
    ensures
        ({
            let file = writer::segment_made(plan, pieces, rows)->Ok_0;
            let found = lazy_scan::lazy_scan(
                known,
                fresh_view(file.groups, paths),
                columns,
                Seq::empty(),
                blocks,
            );
            &&& found is Ok
            &&& scan_laws::batches_rows(
                found->Ok_0.batches,
                found->Ok_0.batches.len() as int,
            ) == scan::wanted_rows(
                plan.columns,
                columns,
                writer::flattened(pieces, pieces.len() as int),
            )
        }),
{
    let file = writer::segment_made(plan, pieces, rows)->Ok_0;
    let whole = writer::file_of(file);
    let files = seq![whole];
    let lazy = fresh_view(file.groups, paths);
    let groups = piece_groups(plan, pieces);
    let none = Seq::<Seq<ScalarView>>::empty();
    let added = overlay_with(lazy.added, none);
    let constraints = Seq::<ColumnarConstraint>::empty();
    let n = pieces.len() as int;
    lazy_segment_laws::law_written_segment_opens(known, plan, pieces, rows);
    assert forall|i: int| 0 <= i < groups.len() implies group_stands(
        whole,
        plan.columns,
        groups[i],
        #[trigger] file.groups[i],
        lazy_scan::context_of(known),
    ) by {
        lemma_pieces_make_groups(plan, pieces, n, i);
        assert(lazy_segment_laws::piece_kept(plan, pieces[i]));
        lemma_piece_sound(plan, pieces[i]);
    }
    assert forall|i: int| 0 <= i < groups.len() implies scan::group_sound(#[trigger] groups[i])
        && scan_laws::has_columns(groups[i], known.columns) by {
        lemma_pieces_make_groups(plan, pieces, n, i);
        assert(lazy_segment_laws::piece_kept(plan, pieces[i]));
        lemma_piece_sound(plan, pieces[i]);
    }
    let spots = indexed::all_spots(lazy.deltas, lazy.deltas.len() as int);
    assert(spots.len() == 0);
    let held = Seq::<GroupView>::empty();
    assert(projection_stands(known, lazy, files, groups, held, none));
    law_indexed_scan_is_the_same(
        known,
        lazy,
        files,
        groups,
        held,
        none,
        columns,
        constraints,
        blocks,
    );
    let base = indexed::base_requests(file.groups, false, columns, constraints, n);
    let all = indexed::scan_requests(lazy, columns, constraints);
    assert(all =~= base);
    law_indexed_base_is_the_same(
        files,
        plan.columns,
        groups,
        file.groups,
        lazy_scan::context_of(known),
        lazy.added.suppressed,
        columns,
        constraints,
        blocks,
        paths[0],
        lazy_scan::lazy_start(known, lazy),
        scan::eager_start(known, groups.len(), 0),
        n,
    );
    assert(scan::eager_scan(known, groups, added, columns, constraints) is Ok);
    assert(segment_laws::table_valid(
        scan::wanted(known.columns, columns),
        scan::wanted_rows(known.columns, columns, none),
    ));
    scan_laws::law_scan_gives_visible_rows(known, groups, added, columns);
    lemma_pieces_visible(plan, pieces, added.suppressed, n);
    assert(scan_laws::visible_rows(groups, added) =~= writer::flattened(pieces, n));
}

} // verus!
