//! Compaction of an indexed projection takes over what its segments hold.
use super::block::LazyGroupView;
use super::compact;
use super::error::ColumnarError;
use super::group::{GroupView, TableDef};
use super::indexed::{self, LazyView, SpotView};
use super::lazy_compact;
use super::lazy_scan;
use super::lazy_scan_laws;
use super::lazy_segment_laws;
use super::metadata::MetadataView;
use super::overlay;
use super::payload::{self, BlockRequest, Fetched};
use super::prepare;
use super::prepare_laws;
use super::segment_laws;
use super::vector::{ColumnarColumnSpec, VectorView};
use crate::ids::ColumnarGeneration;
use crate::value::ScalarView;
use vstd::prelude::*;

verus! {

// ---------------------------------------------------------------------------
// Groups
// ---------------------------------------------------------------------------
proof fn lemma_all_requests(entry: LazyGroupView, index: usize, n: int, i: int)
    requires
        0 <= n <= entry.columns.len(),
    ensures
        lazy_compact::all_column_requests(entry, index, n).len() == n,
        0 <= i < n ==> lazy_compact::all_column_requests(entry, index, n)[i] == (BlockRequest {
            file: index,
            block: entry.columns[i].block,
        }),
    decreases n,
{
    if n > 0 {
        lemma_all_requests(entry, index, n - 1, i);
    }
}

proof fn lemma_one_vector(
    files: Seq<Seq<u8>>,
    specs: Seq<ColumnarColumnSpec>,
    known: GroupView,
    entry: LazyGroupView,
    index: usize,
    blocks: Seq<Fetched>,
    at: int,
    path: String,
    i: int,
)
    requires
        files[index as int].len() <= usize::MAX,
        segment_laws::columns_kept(specs, known),
        lazy_segment_laws::group_holds(files[index as int], specs, known, entry),
        lazy_scan_laws::fetched_at(
            files,
            lazy_compact::all_column_requests(entry, index, specs.len() as int),
            blocks,
            at,
        ),
        0 <= i < specs.len(),
    ensures
        payload::column_read(blocks[at + i], entry.columns[i], entry.rows, path) == Ok::<
            VectorView,
            ColumnarError,
        >(known.columns[i].1),
{
    let requests = lazy_compact::all_column_requests(entry, index, specs.len() as int);
    lemma_all_requests(entry, index, specs.len() as int, i);
    assert(lazy_scan_laws::block_from(files, requests[i], blocks[at + i]));
    assert(lazy_segment_laws::column_holds(
        files[index as int],
        specs,
        known,
        entry.columns[i],
        i,
    ));
    lazy_segment_laws::law_column_block_reads_back(
        files[index as int],
        specs,
        known,
        entry.columns[i],
        i,
    );
}

proof fn lemma_all_vectors(
    files: Seq<Seq<u8>>,
    specs: Seq<ColumnarColumnSpec>,
    known: GroupView,
    entry: LazyGroupView,
    index: usize,
    blocks: Seq<Fetched>,
    at: int,
    path: String,
    n: int,
)
    requires
        files[index as int].len() <= usize::MAX,
        segment_laws::columns_kept(specs, known),
        lazy_segment_laws::group_holds(files[index as int], specs, known, entry),
        lazy_scan_laws::fetched_at(
            files,
            lazy_compact::all_column_requests(entry, index, specs.len() as int),
            blocks,
            at,
        ),
        0 <= n <= specs.len(),
    ensures
        lazy_compact::all_vectors(entry, blocks, at, path, n) == Ok::<
            Seq<VectorView>,
            ColumnarError,
        >(compact::group_vectors(known).take(n)),
    decreases n,
{
    let vectors = compact::group_vectors(known);
    if n > 0 {
        lemma_all_vectors(files, specs, known, entry, index, blocks, at, path, n - 1);
        lemma_one_vector(files, specs, known, entry, index, blocks, at, path, n - 1);
        assert(vectors.take(n) =~= vectors.take(n - 1).push(known.columns[n - 1].1));
    } else {
        assert(vectors.take(0) =~= Seq::empty());
    }
}

proof fn lemma_group_offered(
    files: Seq<Seq<u8>>,
    known: MetadataView,
    held: GroupView,
    entry: LazyGroupView,
    suppressed: Seq<crate::change_stream::types::StorageVersionKey>,
    blocks: Seq<Fetched>,
    path: String,
)
    requires
        files[0].len() <= usize::MAX,
        lazy_scan_laws::group_stands(
            files[0],
            known.columns,
            held,
            entry,
            lazy_scan::context_of(known),
        ),
        held.source_versions is Some,
        lazy_scan_laws::fetched_at(files, lazy_compact::group_needs(entry), blocks, 0),
    ensures
        lazy_compact::lazy_group_offers(
            entry,
            lazy_scan::context_of(known),
            suppressed,
            blocks,
            path,
        ) == compact::group_offers(held, suppressed),
{
    let specs = known.columns;
    let context = lazy_scan::context_of(known);
    let keys = held.source_versions->0;
    let want = entry.source_versions->0;
    let needs = lazy_compact::group_needs(entry);
    let part = lazy_compact::all_column_requests(entry, 0, specs.len() as int);
    lemma_all_requests(entry, 0, specs.len() as int, 0);
    lazy_segment_laws::law_version_block_reads_back(
        files[0],
        want,
        keys,
        context.storage_id,
        context.kind,
    );
    assert(needs[0] == (BlockRequest { file: 0, block: want }));
    assert(lazy_scan_laws::block_from(files, needs[0], blocks[0int + 0]));
    assert(part =~= needs.subrange(1, needs.len() as int));
    lazy_scan_laws::lemma_fetched_part(files, needs, part, blocks, 0, 1);
    lemma_all_vectors(files, specs, held, entry, 0, blocks, 1, path, specs.len() as int);
    let vectors = compact::group_vectors(held);
    assert(vectors.take(specs.len() as int) =~= vectors);
}

// ---------------------------------------------------------------------------
// Added rows
// ---------------------------------------------------------------------------
proof fn lemma_spot_at(deltas: Seq<Seq<LazyGroupView>>, n: int, segment: int, place: int) -> (k: int)
    requires
        0 <= segment < n <= deltas.len(),
        deltas.len() <= u32::MAX,
        0 <= place < deltas[segment].len(),
    ensures
        0 <= k < indexed::all_spots(deltas, n).len(),
        indexed::all_spots(deltas, n)[k] == (SpotView {
            segment: segment as u32,
            start: indexed::group_start(deltas[segment], place),
            known: deltas[segment][place],
        }),
    decreases n,
{
    let front = indexed::all_spots(deltas, n - 1);
    lazy_scan_laws::lemma_segment_spot(
        deltas[n - 1],
        (n - 1) as u32,
        deltas[n - 1].len() as int,
        place,
    );
    if segment == n - 1 {
        front.len() + place
    } else {
        lemma_spot_at(deltas, n - 1, segment, place)
    }
}

proof fn lemma_spot_from(deltas: Seq<Seq<LazyGroupView>>, n: int, k: int) -> (home: (int, int))
    requires
        0 <= n <= deltas.len(),
        deltas.len() <= u32::MAX,
        0 <= k < indexed::all_spots(deltas, n).len(),
    ensures
        0 <= home.0 < n,
        0 <= home.1 < deltas[home.0].len(),
        indexed::all_spots(deltas, n)[k] == (SpotView {
            segment: home.0 as u32,
            start: indexed::group_start(deltas[home.0], home.1),
            known: deltas[home.0][home.1],
        }),
    decreases n,
{
    let front = indexed::all_spots(deltas, n - 1);
    lazy_scan_laws::lemma_segment_spot(
        deltas[n - 1],
        (n - 1) as u32,
        deltas[n - 1].len() as int,
        k - front.len(),
    );
    if k >= front.len() {
        (n - 1, k - front.len())
    } else {
        lemma_spot_from(deltas, n - 1, k)
    }
}

proof fn lemma_home_found(groups: Seq<LazyGroupView>, row: u64, from: int, place: int)
    requires
        0 <= from <= place < groups.len(),
        row < indexed::group_start(groups, place + 1),
    ensures
        lazy_compact::home_from(groups, row, from) is Some,
    decreases place - from,
{
    if from < place {
        lemma_home_found(groups, row, from + 1, place);
    }
}

proof fn lemma_added_read(
    files: Seq<Seq<u8>>,
    known: MetadataView,
    lazy: LazyView,
    groups: Seq<GroupView>,
    held: Seq<GroupView>,
    rows: Seq<Seq<ScalarView>>,
    i: int,
    blocks: Seq<Fetched>,
)
    requires
        lazy_scan_laws::projection_stands(known, lazy, files, groups, held, rows),
        lazy.deltas.len() <= u32::MAX,
        0 <= i < rows.len(),
        lazy_scan_laws::fetched_at(
            files,
            lazy_compact::row_needs(lazy, lazy.added.live_rows[i]),
            blocks,
            0,
        ),
    ensures
        lazy_compact::added_row(
            lazy,
            known.incremental is Some,
            lazy.added.live_rows[i],
            blocks,
        ) == Ok::<Seq<ScalarView>, ColumnarError>(rows[i]),
{
    let specs = known.columns;
    let deltas = lazy.deltas;
    let n = deltas.len() as int;
    let spots = indexed::all_spots(deltas, n);
    let references = lazy.added.live_rows;
    let reference = references[i];
    assert(lazy_scan_laws::in_some(spots, references[i], spots.len() as int));
    let first = choose|k: int|
        0 <= k < spots.len() && indexed::inside(#[trigger] spots[k], reference);
    let (segment, near) = lemma_spot_from(deltas, n, first);
    let entries = deltas[segment];
    lemma_home_found(entries, reference.row, 0, near);
    lazy_compact::lemma_home(entries, reference.row, 0);
    let place = lazy_compact::home_of(deltas, reference)->0;
    let k = lemma_spot_at(deltas, n, segment, place);
    assert(indexed::inside(spots[k], references[i]));
    assert(lazy_scan_laws::spot_stands(files, specs, spots[k], held[k]));
    let index = indexed::file_of(spots[k]);
    lemma_all_vectors(
        files,
        specs,
        held[k],
        entries[place],
        index,
        blocks,
        0,
        lazy.paths[reference.segment + 1],
        specs.len() as int,
    );
    let vectors = compact::group_vectors(held[k]);
    assert(vectors.take(specs.len() as int) =~= vectors);
}

// ---------------------------------------------------------------------------
// Compaction
// ---------------------------------------------------------------------------
/// Whether the blocks that compaction needs were fetched from the files of a
/// projection.
pub open spec fn compaction_fetched(
    files: Seq<Seq<u8>>,
    lazy: LazyView,
    base_blocks: Seq<Vec<Fetched>>,
    added_blocks: Seq<Vec<Fetched>>,
) -> bool {
    &&& base_blocks.len() == lazy.base_groups.len()
    &&& added_blocks.len() == lazy.added.live_rows.len()
    &&& forall|i: int|
        0 <= i < base_blocks.len() ==> lazy_scan_laws::fetched_at(
            files,
            lazy_compact::group_needs(lazy.base_groups[i]),
            (#[trigger] base_blocks[i])@,
            0,
        )
    &&& forall|i: int|
        0 <= i < added_blocks.len() ==> lazy_scan_laws::fetched_at(
            files,
            lazy_compact::row_needs(lazy, lazy.added.live_rows[i]),
            (#[trigger] added_blocks[i])@,
            0,
        )
}

proof fn lemma_base_offered(
    files: Seq<Seq<u8>>,
    known: MetadataView,
    lazy: LazyView,
    groups: Seq<GroupView>,
    base_blocks: Seq<Vec<Fetched>>,
    added_blocks: Seq<Vec<Fetched>>,
    n: int,
)
    requires
        0 <= n <= groups.len(),
        files.len() > 0,
        files[0].len() <= usize::MAX,
        lazy_scan_laws::groups_stand(
            files[0],
            known.columns,
            groups,
            lazy.base_groups,
            lazy_scan::context_of(known),
        ),
        forall|i: int| 0 <= i < groups.len() ==> (#[trigger] groups[i]).source_versions is Some,
        compaction_fetched(files, lazy, base_blocks, added_blocks),
    ensures
        lazy_compact::lazy_base_offers(lazy, lazy_scan::context_of(known), base_blocks, n)
            == compact::base_offers(groups, lazy.added.suppressed, n),
    decreases n,
{
    if n > 0 {
        lemma_base_offered(files, known, lazy, groups, base_blocks, added_blocks, n - 1);
        let entry = lazy.base_groups[n - 1];
        assert(lazy_scan_laws::group_stands(
            files[0],
            known.columns,
            groups[n - 1],
            lazy.base_groups[n - 1],
            lazy_scan::context_of(known),
        ));
        assert(groups[n - 1].source_versions is Some);
        assert(lazy_scan_laws::fetched_at(
            files,
            lazy_compact::group_needs(entry),
            base_blocks[n - 1]@,
            0,
        ));
        lemma_group_offered(
            files,
            known,
            groups[n - 1],
            entry,
            lazy.added.suppressed,
            base_blocks[n - 1]@,
            lazy.paths[0],
        );
    }
}

proof fn lemma_added_offered(
    files: Seq<Seq<u8>>,
    known: MetadataView,
    lazy: LazyView,
    groups: Seq<GroupView>,
    held: Seq<GroupView>,
    rows: Seq<Seq<ScalarView>>,
    base_blocks: Seq<Vec<Fetched>>,
    added_blocks: Seq<Vec<Fetched>>,
    n: int,
)
    requires
        0 <= n <= rows.len(),
        lazy_scan_laws::projection_stands(known, lazy, files, groups, held, rows),
        lazy.deltas.len() <= u32::MAX,
        compaction_fetched(files, lazy, base_blocks, added_blocks),
    ensures
        lazy_compact::lazy_added_offers(lazy, known.incremental is Some, added_blocks, n)
            == compact::added_offers(lazy_scan_laws::overlay_with(lazy.added, rows), n),
    decreases n,
{
    if n > 0 {
        lemma_added_offered(
            files,
            known,
            lazy,
            groups,
            held,
            rows,
            base_blocks,
            added_blocks,
            n - 1,
        );
        assert(lazy_scan_laws::fetched_at(
            files,
            lazy_compact::row_needs(lazy, lazy.added.live_rows[n - 1]),
            added_blocks[n - 1]@,
            0,
        ));
        lemma_added_read(files, known, lazy, groups, held, rows, n - 1, added_blocks[n - 1]@);
    }
}

/// Compaction of an indexed projection, out of blocks that were fetched from files
/// that hold what the directories say, takes over the same rows as compaction of
/// the same groups and rows in memory, and prepares the same projection: either
/// both ways or neither way succeeds.
pub proof fn law_indexed_compaction_is_the_same(
    known: MetadataView,
    lazy: LazyView,
    files: Seq<Seq<u8>>,
    groups: Seq<GroupView>,
    held: Seq<GroupView>,
    rows: Seq<Seq<ScalarView>>,
    table: TableDef,
    generation: ColumnarGeneration,
    base_blocks: Seq<Vec<Fetched>>,
    added_blocks: Seq<Vec<Fetched>>,
)
    requires
        lazy_scan_laws::projection_stands(known, lazy, files, groups, held, rows),
        forall|i: int| 0 <= i < groups.len() ==> (#[trigger] groups[i]).source_versions is Some,
        overlay::overlay_kept(lazy.added),
        lazy.deltas.len() <= u32::MAX,
        compaction_fetched(files, lazy, base_blocks, added_blocks),
    ensures
        ({
            let added = lazy_scan_laws::overlay_with(lazy.added, rows);
            let here = lazy_compact::lazy_compaction(
                known,
                lazy,
                table,
                generation,
                base_blocks,
                added_blocks,
            );
            let there = compact::eager_compaction(known, groups, added, table, generation);
            &&& lazy_compact::lazy_offers(known, lazy, base_blocks, added_blocks)
                == compact::eager_offers(groups, added)
            &&& here is Ok <==> there is Ok
            &&& here is Ok ==> here == there
        }),
{
    let added = lazy_scan_laws::overlay_with(lazy.added, rows);
    lemma_base_offered(
        files,
        known,
        lazy,
        groups,
        base_blocks,
        added_blocks,
        groups.len() as int,
    );
    lemma_added_offered(
        files,
        known,
        lazy,
        groups,
        held,
        rows,
        base_blocks,
        added_blocks,
        rows.len() as int,
    );
    let offers = compact::eager_offers(groups, added);
    if groups.len() > 0 {
        assert(lazy_scan_laws::group_stands(
            files[0],
            known.columns,
            groups[0],
            lazy.base_groups[0],
            lazy_scan::context_of(known),
        ));
    }
    let order = lazy_compact::lazy_order(known, lazy, generation);
    prepare_laws::law_rows_make_the_same_segment(prepare::order_plan(order), offers);
}

} // verus!
