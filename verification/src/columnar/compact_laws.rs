//! A compacted projection has the rows of the one that it was made from.
use super::compact;
use super::feed::{self, Offer};
use super::gather;
use super::group::{GroupView, TableDef};
use super::indexed::{self, LazyView};
use super::lazy_compact;
use super::lazy_compact_laws;
use super::lazy_scan;
use super::lazy_scan_laws;
use super::lazy_segment;
use super::lazy_segment_laws;
use super::metadata::MetadataView;
use super::overlay::{self, OverlayView};
use super::payload::Fetched;
use super::prepare;
use super::scan;
use super::scan_laws;
use super::segment_laws;
use super::vector::{self, ColumnarColumnSpec};
use super::version::{self, SnapshotKind};
use super::writer::{self, Piece, SegmentPlan};
use crate::change_stream::types::StorageVersionKey;
use crate::ids::{ColumnId, ColumnarGeneration, StorageId};
use crate::value::ScalarView;
use vstd::prelude::*;

verus! {

/// Whether some rows have a value for each column, with texts in valid UTF-8.
pub open spec fn rows_valid(columns: Seq<ColumnarColumnSpec>, rows: Seq<Seq<ScalarView>>) -> bool {
    scan::rows_sound(rows, columns.len()) && segment_laws::table_valid(columns, rows)
}

/// Whether row versions are of a storage.
pub open spec fn keys_valid(
    keys: Seq<StorageVersionKey>,
    storage_id: StorageId,
    kind: SnapshotKind,
) -> bool {
    forall|i: int|
        0 <= i < keys.len() ==> version::key_error(#[trigger] keys[i], storage_id, kind) is None
}

/// Whether the rows of a projection that follows a change stream are such as
/// its metadata says.
pub open spec fn projection_valid(
    known: MetadataView,
    groups: Seq<GroupView>,
    added: OverlayView<Seq<ScalarView>>,
) -> bool {
    &&& segment_laws::distinct(known.columns)
    &&& overlay::overlay_kept(added)
    &&& keys_valid(added.live_keys, known.source_storage_id, known.source_token.kind)
    &&& forall|i: int|
        0 <= i < groups.len() ==> {
            &&& scan::group_sound(#[trigger] groups[i])
            &&& scan_laws::has_columns(groups[i], known.columns)
            &&& groups[i].source_versions is Some
            &&& keys_valid(
                groups[i].source_versions->0,
                known.source_storage_id,
                known.source_token.kind,
            )
        }
    &&& rows_valid(known.columns, scan_laws::visible_rows(groups, added))
}

// ---------------------------------------------------------------------------
// Pieces
// ---------------------------------------------------------------------------
/// Whether a piece is made of offers.
spec fn piece_offered(plan: SegmentPlan, offers: Seq<Offer>, piece: Piece) -> bool {
    &&& plan.versioned ==> piece.keys.len() == piece.rows.len()
    &&& forall|i: int|
        0 <= i < piece.rows.len() ==> feed::offer_rows(offers).contains(#[trigger] piece.rows[i])
    &&& forall|i: int|
        0 <= i < piece.keys.len() ==> feed::offer_keys(offers).contains(#[trigger] piece.keys[i])
}

proof fn lemma_gathered_offered(plan: SegmentPlan, offers: Seq<Offer>, n: int)
    requires
        0 <= n <= offers.len(),
        gather::gathered(plan, offers, n) is Ok,
    ensures
        ({
            let (pieces, pending) = gather::gathered(plan, offers, n)->Ok_0;
            &&& piece_offered(plan, offers, pending)
            &&& forall|i: int|
                0 <= i < pieces.len() ==> piece_offered(plan, offers, #[trigger] pieces[i])
                    && pieces[i].rows.len() > 0
        }),
    decreases n,
{
    if n > 0 {
        lemma_gathered_offered(plan, offers, n - 1);
        let (earlier, waiting) = gather::gathered(plan, offers, n - 1)->Ok_0;
        let grown = gather::piece_grown(plan, waiting, offers[n - 1]);
        assert(feed::offer_rows(offers)[n - 1] == offers[n - 1].row);
        assert(feed::offer_keys(offers)[n - 1] == offers[n - 1].key);
        assert forall|i: int| 0 <= i < grown.rows.len() implies feed::offer_rows(offers).contains(
            #[trigger] grown.rows[i],
        ) by {
            if i < waiting.rows.len() {
                assert(grown.rows[i] == waiting.rows[i]);
            }
        }
        assert forall|i: int| 0 <= i < grown.keys.len() implies feed::offer_keys(offers).contains(
            #[trigger] grown.keys[i],
        ) by {
            if i < waiting.keys.len() {
                assert(grown.keys[i] == waiting.keys[i]);
            }
        }
    }
}

proof fn lemma_piece_rows_flattened(pieces: Seq<Piece>, n: int)
    requires
        0 <= n <= pieces.len(),
    ensures
        lazy_segment_laws::piece_rows(pieces, n) == writer::flattened(pieces, n).len(),
    decreases n,
{
    if n > 0 {
        lemma_piece_rows_flattened(pieces, n - 1);
    }
}

proof fn lemma_kept_keys(
    keys: Seq<StorageVersionKey>,
    suppressed: Seq<StorageVersionKey>,
    vectors: Seq<vector::VectorView>,
    n: int,
    i: int,
)
    requires
        0 <= n <= keys.len(),
        0 <= i < compact::kept_offers(keys, suppressed, vectors, n).len(),
    ensures
        keys.contains(compact::kept_offers(keys, suppressed, vectors, n)[i].key),
    decreases n,
{
    if n > 0 {
        let before = compact::kept_offers(keys, suppressed, vectors, n - 1);
        if i < before.len() {
            lemma_kept_keys(keys, suppressed, vectors, n - 1, i);
        } else {
            assert(keys[n - 1] == compact::kept_offers(keys, suppressed, vectors, n)[i].key);
        }
    }
}

proof fn lemma_base_keys(
    known: MetadataView,
    groups: Seq<GroupView>,
    added: OverlayView<Seq<ScalarView>>,
    n: int,
    i: int,
)
    requires
        projection_valid(known, groups, added),
        0 <= n <= groups.len(),
        0 <= i < compact::base_offers(groups, added.suppressed, n).len(),
    ensures
        version::key_error(
            compact::base_offers(groups, added.suppressed, n)[i].key,
            known.source_storage_id,
            known.source_token.kind,
        ) is None,
    decreases n,
{
    if n > 0 {
        let before = compact::base_offers(groups, added.suppressed, n - 1);
        if i < before.len() {
            lemma_base_keys(known, groups, added, n - 1, i);
        } else {
            assert(scan::group_sound(groups[n - 1]));
            let keys = groups[n - 1].source_versions->0;
            let vectors = compact::group_vectors(groups[n - 1]);
            let j = i - before.len();
            lemma_kept_keys(keys, added.suppressed, vectors, keys.len() as int, j);
            let key = compact::kept_offers(keys, added.suppressed, vectors, keys.len() as int)[j].key;
            let k = choose|k: int| 0 <= k < keys.len() && keys[k] == key;
            assert(version::key_error(
                keys[k],
                known.source_storage_id,
                known.source_token.kind,
            ) is None);
        }
    }
}

proof fn lemma_added_keys(added: OverlayView<Seq<ScalarView>>, n: int, i: int)
    requires
        0 <= i < n <= added.live_keys.len(),
    ensures
        compact::added_offers(added, n).len() == n,
        compact::added_offers(added, n)[i].key == added.live_keys[i],
    decreases n,
{
    assert(compact::added_offers(added, 0).len() == 0);
    if i < n - 1 {
        lemma_added_keys(added, n - 1, i);
    } else if n > 1 {
        lemma_added_keys(added, n - 1, 0);
    }
}

/// The pieces of a compaction can be written and read back.
proof fn lemma_compacted_pieces(
    known: MetadataView,
    groups: Seq<GroupView>,
    added: OverlayView<Seq<ScalarView>>,
    plan: SegmentPlan,
)
    requires
        projection_valid(known, groups, added),
        plan.columns == known.columns,
        plan.versioned,
        plan.identity.storage_id == known.source_storage_id,
        plan.kind == known.source_token.kind,
        gather::all_gathered(plan, compact::eager_offers(groups, added)) is Ok,
        ({
            let pieces = gather::all_gathered(plan, compact::eager_offers(groups, added))->Ok_0;
            forall|i: int|
                0 <= i < pieces.len() ==> segment_laws::table_fits(
                    plan.columns,
                    (#[trigger] pieces[i]).rows,
                )
        }),
    ensures
        ({
            let pieces = gather::all_gathered(plan, compact::eager_offers(groups, added))->Ok_0;
            &&& lazy_segment_laws::pieces_kept(plan, pieces)
            &&& lazy_scan_laws::pieces_wide(plan, pieces)
            &&& writer::flattened(pieces, pieces.len() as int) == scan_laws::visible_rows(
                groups,
                added,
            )
            &&& lazy_segment_laws::piece_rows(pieces, pieces.len() as int)
                == compact::eager_offers(groups, added).len()
        }),
{
    let offers = compact::eager_offers(groups, added);
    let pieces = gather::all_gathered(plan, offers)->Ok_0;
    let all = scan_laws::visible_rows(groups, added);
    let n = offers.len() as int;
    scan_laws::law_compaction_keeps_rows(plan, groups, added);
    scan_laws::lemma_offered_rows(groups, added);
    lemma_piece_rows_flattened(pieces, pieces.len() as int);
    lemma_gathered_offered(plan, offers, n);
    assert forall|i: int| 0 <= i < n implies version::key_error(
        #[trigger] feed::offer_keys(offers)[i],
        known.source_storage_id,
        known.source_token.kind,
    ) is None by {
        let base = compact::base_offers(groups, added.suppressed, groups.len() as int);
        if i < base.len() {
            lemma_base_keys(known, groups, added, groups.len() as int, i);
        } else {
            let m = added.live_keys.len() as int;
            if m > 0 {
                lemma_added_keys(added, m, 0);
            }
            lemma_added_keys(added, m, i - base.len());
            assert(offers[i] == compact::added_offers(added, m)[i - base.len()]);
            assert(version::key_error(
                added.live_keys[i - base.len()],
                known.source_storage_id,
                known.source_token.kind,
            ) is None);
        }
    }
    assert forall|i: int| 0 <= i < pieces.len() implies lazy_segment_laws::piece_kept(
        plan,
        #[trigger] pieces[i],
    ) && scan::rows_sound(pieces[i].rows, plan.columns.len()) by {
        let piece = pieces[i];
        assert(piece_offered(plan, offers, piece) && piece.rows.len() > 0);
        lemma_piece_valid(plan, offers, piece, all);
        assert forall|k: int| 0 <= k < piece.keys.len() implies version::key_error(
            #[trigger] piece.keys[k],
            plan.identity.storage_id,
            plan.kind,
        ) is None by {
            assert(feed::offer_keys(offers).contains(piece.keys[k]));
            let j = choose|j: int|
                0 <= j < feed::offer_keys(offers).len() && feed::offer_keys(offers)[j]
                    == piece.keys[k];
            assert(version::key_error(
                feed::offer_keys(offers)[j],
                known.source_storage_id,
                known.source_token.kind,
            ) is None);
        }
    }
}

proof fn lemma_piece_valid(
    plan: SegmentPlan,
    offers: Seq<Offer>,
    piece: Piece,
    all: Seq<Seq<ScalarView>>,
)
    requires
        piece_offered(plan, offers, piece),
        feed::offer_rows(offers) == all,
        rows_valid(plan.columns, all),
    ensures
        rows_valid(plan.columns, piece.rows),
{
    assert forall|r: int| 0 <= r < piece.rows.len() implies (#[trigger] piece.rows[r]).len()
        == plan.columns.len() by {
        assert(all.contains(piece.rows[r]));
        let j = choose|j: int| 0 <= j < all.len() && all[j] == piece.rows[r];
        assert(all[j].len() == plan.columns.len());
    }
    assert forall|c: int| 0 <= c < plan.columns.len() implies vector::texts_valid(
        #[trigger] vector::column_values(piece.rows, c),
    ) by {
        let values = vector::column_values(piece.rows, c);
        let wider = vector::column_values(all, c);
        assert(vector::texts_valid(wider));
        assert forall|r: int| 0 <= r < values.len() implies vstd::utf8::valid_utf8(
            vector::text_of(#[trigger] values[r]),
        ) by {
            assert(all.contains(piece.rows[r]));
            let j = choose|j: int| 0 <= j < all.len() && all[j] == piece.rows[r];
            assert(wider[j] == values[r]);
        }
    }
}

proof fn lemma_wanted_valid(
    specs: Seq<ColumnarColumnSpec>,
    columns: Seq<ColumnId>,
    all: Seq<Seq<ScalarView>>,
    rows: Seq<Seq<ScalarView>>,
)
    requires
        rows_valid(specs, all),
        scan::unknown_error(specs, columns, columns.len() as int) is None,
        forall|i: int| 0 <= i < rows.len() ==> all.contains(#[trigger] rows[i]),
    ensures
        segment_laws::table_valid(
            scan::wanted(specs, columns),
            scan::wanted_rows(specs, columns, rows),
        ),
{
    let wanted = scan::wanted_rows(specs, columns, rows);
    assert forall|c: int| 0 <= c < scan::wanted(specs, columns).len() implies vector::texts_valid(
        #[trigger] vector::column_values(wanted, c),
    ) by {
        scan::lemma_known_column(specs, columns, c);
        let place = scan::position_of(specs, columns[c]);
        let values = vector::column_values(wanted, c);
        let wider = vector::column_values(all, place);
        assert(vector::texts_valid(wider));
        assert forall|r: int| 0 <= r < values.len() implies vstd::utf8::valid_utf8(
            vector::text_of(#[trigger] values[r]),
        ) by {
            assert(all.contains(rows[r]));
            let j = choose|j: int| 0 <= j < all.len() && all[j] == rows[r];
            assert(wider[j] == values[r]);
        }
    }
}

/// Whether the segment of a compaction can be read back: its columns and its
/// file keep to the limits of the format, and the blocks were fetched from it.
pub open spec fn compacted_readable(
    known: MetadataView,
    groups: Seq<GroupView>,
    added: OverlayView<Seq<ScalarView>>,
    table: TableDef,
    generation: ColumnarGeneration,
    columns: Seq<ColumnId>,
    blocks: Seq<Fetched>,
    paths: Seq<String>,
) -> bool {
    let order = compact::compaction_order(known, generation, compact::compacted_rows(groups));
    let offers = compact::eager_offers(groups, added);
    let pieces = gather::all_gathered(prepare::order_plan(order), offers)->Ok_0;
    let file = compact::eager_compaction(known, groups, added, table, generation)->Ok_0.file;
    let whole = writer::file_of(file);
    &&& offers.len() <= u64::MAX
    &&& pieces.len() <= u64::MAX
    &&& forall|i: int|
        0 <= i < pieces.len() ==> segment_laws::table_fits(
            known.columns,
            (#[trigger] pieces[i]).rows,
        )
    &&& file.footer.len() <= lazy_segment::MAX_INDEX_BYTES
    &&& whole.len() <= lazy_segment::MAX_FILE_BYTES
    &&& whole.len() <= usize::MAX
    &&& lazy_scan_laws::fetched_at(
        seq![whole],
        indexed::scan_requests(
            lazy_scan_laws::fresh_view(file.groups, paths),
            columns,
            Seq::empty(),
        ),
        blocks,
        0,
    )
}

/// A scan of a compacted projection gives the wanted values of the rows that
/// were visible.
#[verifier::rlimit(40)]
proof fn lemma_compacted_scanned(
    known: MetadataView,
    groups: Seq<GroupView>,
    added: OverlayView<Seq<ScalarView>>,
    table: TableDef,
    generation: ColumnarGeneration,
    columns: Seq<ColumnId>,
    blocks: Seq<Fetched>,
    paths: Seq<String>,
)
    requires
        projection_valid(known, groups, added),
        compact::eager_compaction(known, groups, added, table, generation) is Ok,
        scan::unknown_error(known.columns, columns, columns.len() as int) is None,
        compacted_readable(
            known,
            groups,
            added,
            table,
            generation,
            columns,
            blocks,
            paths,
        ),
    ensures
        ({
            let made = compact::eager_compaction(known, groups, added, table, generation)->Ok_0;
            let found = lazy_scan::lazy_scan(
                made.metadata,
                lazy_scan_laws::fresh_view(made.file.groups, paths),
                columns,
                Seq::empty(),
                blocks,
            );
            &&& found is Ok
            &&& scan_laws::batches_rows(
                found->Ok_0.batches,
                found->Ok_0.batches.len() as int,
            ) == scan::wanted_rows(known.columns, columns, scan_laws::visible_rows(groups, added))
            &&& made.metadata.row_count == scan_laws::visible_rows(groups, added).len()
        }),
{
    let order = compact::compaction_order(known, generation, compact::compacted_rows(groups));
    let plan = prepare::order_plan(order);
    let offers = compact::eager_offers(groups, added);
    let pieces = gather::all_gathered(plan, offers)->Ok_0;
    let rows = offers.len() as u64;
    let made = compact::eager_compaction(known, groups, added, table, generation)->Ok_0;
    lemma_compacted_pieces(known, groups, added, plan);
    writer::lemma_pieces_len(plan, pieces, pieces.len() as int);
    lemma_piece_rows_flattened(pieces, pieces.len() as int);
    assert(lazy_segment_laws::metadata_fits(made.metadata, plan, pieces.len(), rows));
    lazy_scan_laws::law_prepared_rows_are_scanned(
        made.metadata,
        plan,
        pieces,
        rows,
        columns,
        blocks,
        paths,
    );
}

/// A scan of a projection gives the wanted values of the rows that are visible.
proof fn lemma_visible_scanned(
    known: MetadataView,
    groups: Seq<GroupView>,
    added: OverlayView<Seq<ScalarView>>,
    columns: Seq<ColumnId>,
)
    requires
        projection_valid(known, groups, added),
        scan::eager_scan(known, groups, added, columns, Seq::empty()) is Ok,
    ensures
        ({
            let before = scan::eager_scan(known, groups, added, columns, Seq::empty())->Ok_0.batches;
            scan_laws::batches_rows(before, before.len() as int) == scan::wanted_rows(
                known.columns,
                columns,
                scan_laws::visible_rows(groups, added),
            )
        }),
{
    let all = scan_laws::visible_rows(groups, added);
    assert forall|i: int| 0 <= i < added.live_rows.len() implies all.contains(
        #[trigger] added.live_rows[i],
    ) by {
        let base = scan_laws::base_visible(groups, added.suppressed, groups.len() as int);
        assert(all[base.len() + i] == added.live_rows[i]);
    }
    lemma_wanted_valid(known.columns, columns, all, added.live_rows);
    assert forall|i: int| 0 <= i < groups.len() implies scan::group_sound(#[trigger] groups[i])
        && scan_laws::has_columns(groups[i], known.columns) by {}
    scan_laws::law_scan_gives_visible_rows(known, groups, added, columns);
}

/// A scan of a compacted projection gives, for every list of columns, the rows
/// that a scan of the projection gave before, in the same order. The compacted
/// projection has as many rows as were visible, has no delta segments, and
/// stands where the projection had followed its change stream to.
pub proof fn law_compaction_keeps_scans(
    known: MetadataView,
    groups: Seq<GroupView>,
    added: OverlayView<Seq<ScalarView>>,
    table: TableDef,
    generation: ColumnarGeneration,
    columns: Seq<ColumnId>,
    blocks: Seq<Fetched>,
    paths: Seq<String>,
)
    requires
        projection_valid(known, groups, added),
        compact::eager_compaction(known, groups, added, table, generation) is Ok,
        scan::eager_scan(known, groups, added, columns, Seq::empty()) is Ok,
        compacted_readable(
            known,
            groups,
            added,
            table,
            generation,
            columns,
            blocks,
            paths,
        ),
    ensures
        ({
            let before = scan::eager_scan(known, groups, added, columns, Seq::empty())->Ok_0.batches;
            let made = compact::eager_compaction(known, groups, added, table, generation)->Ok_0;
            let found = lazy_scan::lazy_scan(
                made.metadata,
                lazy_scan_laws::fresh_view(made.file.groups, paths),
                columns,
                Seq::empty(),
                blocks,
            );
            &&& found is Ok
            &&& scan_laws::batches_rows(
                found->Ok_0.batches,
                found->Ok_0.batches.len() as int,
            ) == scan_laws::batches_rows(before, before.len() as int)
            &&& made.metadata.row_count == scan_laws::visible_rows(groups, added).len()
            &&& made.metadata.generation == generation
            &&& match (made.metadata.incremental, known.incremental) {
                (Some(new), Some(old)) => {
                    &&& new.delta_segments.len() == 0
                    &&& new.base_frontier == old.applied_frontier
                    &&& new.applied_frontier == old.applied_frontier
                    &&& new.stream_generation == old.stream_generation
                },
                _ => false,
            }
        }),
{
    lemma_compacted_scanned(
        known,
        groups,
        added,
        table,
        generation,
        columns,
        blocks,
        paths,
    );
    lemma_visible_scanned(known, groups, added, columns);
}

/// The same holds of an indexed projection, whose scans and whose compaction
/// read blocks that were fetched from its files.
pub proof fn law_indexed_compaction_keeps_scans(
    known: MetadataView,
    lazy: LazyView,
    files: Seq<Seq<u8>>,
    groups: Seq<GroupView>,
    held: Seq<GroupView>,
    rows: Seq<Seq<ScalarView>>,
    table: TableDef,
    generation: ColumnarGeneration,
    base_blocks: Seq<Vec<Fetched>>,
    added_blocks: Seq<Vec<Fetched>>,
    columns: Seq<ColumnId>,
    scan_blocks: Seq<Fetched>,
    blocks: Seq<Fetched>,
    paths: Seq<String>,
)
    requires
        lazy_scan_laws::projection_stands(known, lazy, files, groups, held, rows),
        projection_valid(known, groups, lazy_scan_laws::overlay_with(lazy.added, rows)),
        lazy.deltas.len() <= u32::MAX,
        lazy_compact_laws::compaction_fetched(files, lazy, base_blocks, added_blocks),
        lazy_scan_laws::fetched_at(
            files,
            indexed::scan_requests(lazy, columns, Seq::empty()),
            scan_blocks,
            0,
        ),
        lazy_compact::lazy_compaction(
            known,
            lazy,
            table,
            generation,
            base_blocks,
            added_blocks,
        ) is Ok,
        lazy_scan::lazy_scan(known, lazy, columns, Seq::empty(), scan_blocks) is Ok,
        compacted_readable(
            known,
            groups,
            lazy_scan_laws::overlay_with(lazy.added, rows),
            table,
            generation,
            columns,
            blocks,
            paths,
        ),
    ensures
        ({
            let before = lazy_scan::lazy_scan(
                known,
                lazy,
                columns,
                Seq::empty(),
                scan_blocks,
            )->Ok_0.batches;
            let made = lazy_compact::lazy_compaction(
                known,
                lazy,
                table,
                generation,
                base_blocks,
                added_blocks,
            )->Ok_0;
            let found = lazy_scan::lazy_scan(
                made.metadata,
                lazy_scan_laws::fresh_view(made.file.groups, paths),
                columns,
                Seq::empty(),
                blocks,
            );
            &&& found is Ok
            &&& scan_laws::batches_rows(
                found->Ok_0.batches,
                found->Ok_0.batches.len() as int,
            ) == scan_laws::batches_rows(before, before.len() as int)
        }),
{
    let added = lazy_scan_laws::overlay_with(lazy.added, rows);
    assert forall|i: int| 0 <= i < groups.len() implies (
    #[trigger] groups[i]).source_versions is Some by {
        assert(scan::group_sound(groups[i]));
    }
    assert(overlay::overlay_kept(lazy.added));
    lazy_compact_laws::law_indexed_compaction_is_the_same(
        known,
        lazy,
        files,
        groups,
        held,
        rows,
        table,
        generation,
        base_blocks,
        added_blocks,
    );
    lazy_scan_laws::law_indexed_scan_is_the_same(
        known,
        lazy,
        files,
        groups,
        held,
        rows,
        columns,
        Seq::empty(),
        scan_blocks,
    );
    law_compaction_keeps_scans(
        known,
        groups,
        added,
        table,
        generation,
        columns,
        blocks,
        paths,
    );
}

} // verus!
