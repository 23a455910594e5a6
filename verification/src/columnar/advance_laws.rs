//! What an advanced projection holds.
use super::block::LazyGroupView;
use super::compact;
use super::delta;
use super::delta_laws;
use super::descriptor;
use super::error::ColumnarError;
use super::group::{self, GroupView};
use super::indexed::{self, LazyView, SpotView};
use super::lazy_delta;
use super::lazy_delta_laws;
use super::lazy_scan;
use super::lazy_scan_laws;
use super::lazy_segment;
use super::lazy_segment_laws;
use super::metadata::{DeltaSegmentView, MetadataView, MAX_ROW_GROUPS};
use super::overlay::{self, DeltaMutation, DeltaRowRef, OverlayView};
use super::project::RowBatchView;
use super::scan;
use super::segment_laws;
use super::writer::{self, Piece};
use crate::bytes;
use crate::value::ScalarView;
use vstd::prelude::*;

verus! {

// ---------------------------------------------------------------------------
// Rows and references to them
// ---------------------------------------------------------------------------
/// An overlay with what its rows stand for.
pub open spec fn overlay_mapped<R, S>(
    overlay: OverlayView<R>,
    says: spec_fn(R) -> S,
) -> OverlayView<S> {
    OverlayView {
        suppressed: overlay.suppressed,
        live_keys: overlay.live_keys,
        live_rows: overlay.live_rows.map_values(says),
    }
}

/// A row change with what its row stands for.
pub open spec fn mutation_mapped<R, S>(
    mutation: DeltaMutation<R>,
    says: spec_fn(R) -> S,
) -> DeltaMutation<S> {
    DeltaMutation {
        old_version: mutation.old_version,
        new_version: mutation.new_version,
        after: match mutation.after {
            Some(row) => Some(says(row)),
            None => None,
        },
    }
}

proof fn lemma_mapped_step<R, S>(
    before: OverlayView<R>,
    mutation: DeltaMutation<R>,
    says: spec_fn(R) -> S,
    invalid: &'static str,
)
    requires
        overlay::overlay_kept(before),
    ensures
        overlay::step(overlay_mapped(before, says), mutation_mapped(mutation, says), invalid)
            == match overlay::step(before, mutation, invalid) {
            Ok(next) => Ok::<OverlayView<S>, ColumnarError>(overlay_mapped(next, says)),
            Err(error) => Err(error),
        },
{
    let shown = overlay_mapped(before, says);
    if let Some(key) = mutation.old_version {
        if !before.suppressed.contains(key) {
            overlay::lemma_place_among(before.live_keys, key);
            let place = overlay::place_among(before.live_keys, key);
            if before.live_keys.contains(key) {
                assert(before.live_rows.remove(place).map_values(says)
                    =~= before.live_rows.map_values(says).remove(place));
            }
            assert(overlay_mapped(overlay::replaced(before, key), says) == overlay::replaced(
                shown,
                key,
            ));
        }
    }
    if let Ok(middle) = overlay::step_old(before, mutation.old_version) {
        overlay::lemma_step_old_keeps(before, mutation.old_version);
        if let Some(key) = mutation.new_version {
            if let Some(row) = mutation.after {
                overlay::lemma_place_among(middle.live_keys, key);
                let place = overlay::place_among(middle.live_keys, key);
                assert(middle.live_rows.insert(place, row).map_values(says)
                    =~= middle.live_rows.map_values(says).insert(place, says(row)));
            }
        }
    }
}

/// Row changes do the same to rows as to what stands for them.
pub proof fn law_references_follow_rows<R, S>(
    before: OverlayView<R>,
    mutations: Seq<DeltaMutation<R>>,
    shown: Seq<DeltaMutation<S>>,
    says: spec_fn(R) -> S,
    invalid: &'static str,
    n: int,
)
    requires
        overlay::overlay_kept(before),
        0 <= n <= mutations.len(),
        shown.len() == mutations.len(),
        forall|i: int|
            0 <= i < n ==> #[trigger] shown[i] == mutation_mapped(mutations[i], says),
    ensures
        overlay::steps(overlay_mapped(before, says), shown, invalid, n) == match overlay::steps(
            before,
            mutations,
            invalid,
            n,
        ) {
            Ok(next) => Ok::<OverlayView<S>, ColumnarError>(overlay_mapped(next, says)),
            Err(error) => Err(error),
        },
    decreases n,
{
    if n > 0 {
        law_references_follow_rows(before, mutations, shown, says, invalid, n - 1);
        assert(shown[n - 1] == mutation_mapped(mutations[n - 1], says));
        if let Ok(next) = overlay::steps(before, mutations, invalid, n - 1) {
            overlay::law_steps_keep_overlay(before, mutations, invalid, n - 1);
            lemma_mapped_step(next, mutations[n - 1], says, invalid);
        }
    }
}

/// Whether references are different, and each is an old one or one of the first
/// `count` rows of a segment.
spec fn refs_kept(
    live: Seq<DeltaRowRef>,
    old_live: Seq<DeltaRowRef>,
    segment: u32,
    count: int,
) -> bool {
    &&& live.no_duplicates()
    &&& forall|i: int|
        0 <= i < live.len() ==> old_live.contains(#[trigger] live[i]) || (live[i].segment == segment
            && live[i].row < count)
}

proof fn lemma_refs_less(
    live: Seq<DeltaRowRef>,
    old_live: Seq<DeltaRowRef>,
    segment: u32,
    count: int,
    place: int,
)
    requires
        refs_kept(live, old_live, segment, count),
        0 <= place < live.len(),
    ensures
        refs_kept(live.remove(place), old_live, segment, count),
{
    let less = live.remove(place);
    assert forall|i: int| 0 <= i < less.len() implies old_live.contains(#[trigger] less[i]) || (
    less[i].segment == segment && less[i].row < count) by {
        assert(less[i] == if i < place {
            live[i]
        } else {
            live[i + 1]
        });
    }
    assert forall|i: int, j: int| 0 <= i < less.len() && 0 <= j < less.len() && i != j implies
        less[i] != less[j] by {
        let a = if i < place {
            i
        } else {
            i + 1
        };
        let b = if j < place {
            j
        } else {
            j + 1
        };
        assert(live[a] != live[b]);
    }
}

proof fn lemma_refs_more(
    live: Seq<DeltaRowRef>,
    old_live: Seq<DeltaRowRef>,
    segment: u32,
    count: int,
    place: int,
    fresh: DeltaRowRef,
)
    requires
        refs_kept(live, old_live, segment, count),
        0 <= place <= live.len(),
        fresh.segment == segment,
        fresh.row == count,
        forall|i: int| 0 <= i < old_live.len() ==> (#[trigger] old_live[i]).segment != segment,
    ensures
        refs_kept(live.insert(place, fresh), old_live, segment, count + 1),
{
    let more = live.insert(place, fresh);
    assert forall|i: int| 0 <= i < live.len() implies #[trigger] live[i] != fresh by {
        if old_live.contains(live[i]) {
            let k = choose|k: int| 0 <= k < old_live.len() && old_live[k] == live[i];
            assert(old_live[k].segment != segment);
        }
    }
    assert forall|i: int| 0 <= i < more.len() implies old_live.contains(#[trigger] more[i]) || (
    more[i].segment == segment && more[i].row < count + 1) by {
        if i < place {
            assert(more[i] == live[i]);
        } else if i > place {
            assert(more[i] == live[i - 1]);
        }
    }
    assert forall|i: int, j: int| 0 <= i < more.len() && 0 <= j < more.len() && i != j implies
        more[i] != more[j] by {
        let a = if i < place {
            i
        } else {
            i - 1
        };
        let b = if j < place {
            j
        } else {
            j - 1
        };
        if i == place {
            assert(more[j] == live[b]);
        } else if j == place {
            assert(more[i] == live[a]);
        } else {
            assert(live[a] != live[b]);
        }
    }
}

proof fn lemma_refs(
    before: OverlayView<DeltaRowRef>,
    mutations: Seq<DeltaMutation<Seq<ScalarView>>>,
    segment: u32,
    invalid: &'static str,
    n: int,
)
    requires
        overlay::overlay_kept(before),
        before.live_rows.no_duplicates(),
        forall|i: int|
            0 <= i < before.live_rows.len() ==> (#[trigger] before.live_rows[i]).segment != segment,
        mutations.len() <= u64::MAX,
        0 <= n <= mutations.len(),
        overlay::steps(
            before,
            overlay::all_located(delta_laws::descriptors_of(mutations), segment),
            invalid,
            n,
        ) is Ok,
    ensures
        refs_kept(
            overlay::steps(
                before,
                overlay::all_located(delta_laws::descriptors_of(mutations), segment),
                invalid,
                n,
            )->Ok_0.live_rows,
            before.live_rows,
            segment,
            descriptor::brought(mutations, n),
        ),
    decreases n,
{
    let list = overlay::all_located(delta_laws::descriptors_of(mutations), segment);
    let old_live = before.live_rows;
    if n > 0 {
        lemma_refs(before, mutations, segment, invalid, n - 1);
        overlay::law_steps_keep_overlay(before, list, invalid, n - 1);
        let now = overlay::steps(before, list, invalid, n - 1)->Ok_0;
        let mutation = list[n - 1];
        let count = descriptor::brought(mutations, n - 1);
        descriptor::lemma_brought(mutations, n - 1);
        overlay::lemma_step_old_keeps(now, mutation.old_version);
        let middle = overlay::step_old(now, mutation.old_version)->Ok_0;
        assert(refs_kept(middle.live_rows, old_live, segment, count)) by {
            if let Some(key) = mutation.old_version {
                if now.live_keys.contains(key) {
                    overlay::lemma_place_among(now.live_keys, key);
                    lemma_refs_less(
                        now.live_rows,
                        old_live,
                        segment,
                        count,
                        overlay::place_among(now.live_keys, key),
                    );
                }
            }
        }
        if let Some(key) = mutation.new_version {
            if let Some(fresh) = mutation.after {
                overlay::lemma_place_among(middle.live_keys, key);
                lemma_refs_more(
                    middle.live_rows,
                    old_live,
                    segment,
                    count,
                    overlay::place_among(middle.live_keys, key),
                    fresh,
                );
            }
        }
    } else {
        assert forall|i: int| 0 <= i < old_live.len() implies old_live.contains(
            #[trigger] old_live[i],
        ) by {}
    }
}

// ---------------------------------------------------------------------------
// Groups of a delta segment
// ---------------------------------------------------------------------------
proof fn lemma_flattened_len(pieces: Seq<Piece>, n: int)
    requires
        0 <= n <= pieces.len(),
    ensures
        writer::flattened(pieces, n).len() == lazy_segment_laws::piece_rows(pieces, n),
        lazy_segment_laws::piece_rows(pieces, n) >= 0,
    decreases n,
{
    if n > 0 {
        lemma_flattened_len(pieces, n - 1);
    }
}

proof fn lemma_flattened_at(pieces: Seq<Piece>, n: int, k: int, r: int)
    requires
        0 <= k < n <= pieces.len(),
        0 <= r < pieces[k].rows.len(),
    ensures
        ({
            let place = lazy_segment_laws::piece_rows(pieces, k) + r;
            &&& 0 <= place < writer::flattened(pieces, n).len()
            &&& writer::flattened(pieces, n)[place] == pieces[k].rows[r]
        }),
    decreases n,
{
    lemma_flattened_len(pieces, k);
    lemma_flattened_len(pieces, n - 1);
    if k < n - 1 {
        lemma_flattened_at(pieces, n - 1, k, r);
    }
}

proof fn lemma_home(pieces: Seq<Piece>, n: int, row: int) -> (k: int)
    requires
        0 <= n <= pieces.len(),
        0 <= row < lazy_segment_laws::piece_rows(pieces, n),
    ensures
        0 <= k < n,
        lazy_segment_laws::piece_rows(pieces, k) <= row < lazy_segment_laws::piece_rows(pieces, k)
            + pieces[k].rows.len(),
    decreases n,
{
    if row >= lazy_segment_laws::piece_rows(pieces, n - 1) {
        n - 1
    } else {
        lemma_home(pieces, n - 1, row)
    }
}

proof fn lemma_starts(entries: Seq<LazyGroupView>, pieces: Seq<Piece>, n: int, m: int)
    requires
        0 <= n <= m <= pieces.len(),
        entries.len() == pieces.len(),
        forall|i: int|
            0 <= i < pieces.len() ==> (#[trigger] entries[i]).rows == pieces[i].rows.len(),
        lazy_segment_laws::piece_rows(pieces, m) <= u64::MAX,
    ensures
        indexed::group_start(entries, n) == lazy_segment_laws::piece_rows(pieces, n),
        lazy_segment_laws::piece_rows(pieces, n) <= lazy_segment_laws::piece_rows(pieces, m),
    decreases m,
{
    if n < m {
        lemma_flattened_len(pieces, m - 1);
        lemma_starts(entries, pieces, n, m - 1);
    } else if n > 0 {
        lemma_starts(entries, pieces, n - 1, n - 1);
        assert(entries[n - 1].rows == pieces[n - 1].rows.len());
    }
}

proof fn lemma_spots_before(
    deltas: Seq<Seq<LazyGroupView>>,
    more: Seq<LazyGroupView>,
    n: int,
    i: int,
)
    requires
        0 <= n <= deltas.len(),
        deltas.len() <= u32::MAX,
    ensures
        indexed::all_spots(deltas.push(more), n) == indexed::all_spots(deltas, n),
        0 <= i < indexed::all_spots(deltas, n).len() ==> indexed::all_spots(deltas, n)[i].segment
            < n,
    decreases n,
{
    if n > 0 {
        lemma_spots_before(deltas, more, n - 1, i);
        let front = indexed::all_spots(deltas, n - 1);
        let last = deltas[n - 1];
        lazy_scan_laws::lemma_segment_spot(last, (n - 1) as u32, last.len() as int, i - front.len());
    }
}

proof fn lemma_brought_row(mutations: Seq<DeltaMutation<Seq<ScalarView>>>, n: int, i: int)
    requires
        0 <= i < n <= mutations.len(),
        mutations[i].after is Some,
    ensures
        ({
            let place = descriptor::brought(mutations, i);
            &&& 0 <= place < delta::rows_brought(mutations, n).len()
            &&& delta::rows_brought(mutations, n)[place] == mutations[i].after->0
        }),
    decreases n,
{
    delta::lemma_rows_brought(mutations, n - 1);
    descriptor::lemma_brought(mutations, i);
    if i < n - 1 {
        lemma_brought_row(mutations, n - 1, i);
    }
}

// ---------------------------------------------------------------------------
// Advances
// ---------------------------------------------------------------------------
/// An indexed projection with one more delta segment.
pub open spec fn view_with(
    lazy: LazyView,
    entries: Seq<LazyGroupView>,
    added: OverlayView<DeltaRowRef>,
    paths: Seq<String>,
) -> LazyView {
    LazyView { base_groups: lazy.base_groups, deltas: lazy.deltas.push(entries), added, paths }
}

/// Whether a delta segment with row changes was written for a projection.
pub open spec fn delta_stands(
    known: MetadataView,
    expected: DeltaSegmentView,
    batches: Seq<RowBatchView>,
    mutations: Seq<DeltaMutation<Seq<ScalarView>>>,
) -> bool {
    let plan = lazy_delta::delta_plan(known, expected.after);
    let rows = delta::rows_brought(mutations, mutations.len() as int);
    let pieces = lazy_delta_laws::delta_pieces(plan, rows);
    &&& lazy_delta::delta_made(known, batches, mutations) is Ok
    &&& known.columns.len() <= u32::MAX
    &&& mutations.len() <= u64::MAX
    &&& delta_laws::segment_fits(expected, batches, mutations)
    &&& delta_laws::mutations_kept(mutations, known.source_storage_id, known.source_token.kind)
    &&& lazy_segment_laws::pieces_kept(plan, pieces)
    &&& lazy_scan_laws::pieces_wide(plan, pieces)
    &&& ({
        let file = lazy_delta::delta_made(known, batches, mutations)->Ok_0;
        &&& file.groups.len() <= MAX_ROW_GROUPS
        &&& file.footer.len() <= lazy_segment::MAX_INDEX_BYTES
        &&& lazy_delta::delta_file_of(file).len() <= usize::MAX
        &&& expected.bytes == lazy_delta::delta_file_of(file).len()
        &&& expected.checksum == bytes::u32_at(file.footer, file.footer.len() - 4)
    })
}

proof fn lemma_delta_group(
    known: MetadataView,
    expected: DeltaSegmentView,
    batches: Seq<RowBatchView>,
    mutations: Seq<DeltaMutation<Seq<ScalarView>>>,
    g: int,
)
    requires
        delta_stands(known, expected, batches, mutations),
        0 <= g < lazy_delta_laws::delta_pieces(
            lazy_delta::delta_plan(known, expected.after),
            delta::rows_brought(mutations, mutations.len() as int),
        ).len(),
    ensures
        ({
            let file = lazy_delta::delta_made(known, batches, mutations)->Ok_0;
            let plan = lazy_delta::delta_plan(known, expected.after);
            let brought = delta::rows_brought(mutations, mutations.len() as int);
            let piece = lazy_delta_laws::delta_pieces(plan, brought)[g];
            &&& group::group_error(plan.columns, piece.rows) is None
            &&& segment_laws::columns_kept(known.columns, writer::piece_group(plan, piece))
            &&& lazy_segment_laws::group_holds(
                lazy_delta::delta_file_of(file),
                known.columns,
                writer::piece_group(plan, piece),
                file.groups[g],
            )
            &&& file.groups[g].rows == piece.rows.len()
        }),
{
    let plan = lazy_delta::delta_plan(known, expected.after);
    let brought = delta::rows_brought(mutations, mutations.len() as int);
    let pieces = lazy_delta_laws::delta_pieces(plan, brought);
    lazy_delta_laws::law_written_delta_opens(known, expected, batches, mutations);
    assert(expected.after == batches.last().after);
    lazy_scan_laws::lemma_pieces_make_groups(plan, pieces, pieces.len() as int, g);
    assert(lazy_segment_laws::piece_kept(plan, pieces[g]));
    lazy_scan_laws::lemma_piece_sound(plan, pieces[g]);
}

proof fn lemma_rows_stand(
    known: MetadataView,
    expected: DeltaSegmentView,
    batches: Seq<RowBatchView>,
    mutations: Seq<DeltaMutation<Seq<ScalarView>>>,
    spots: Seq<SpotView>,
    held: Seq<GroupView>,
    references: Seq<DeltaRowRef>,
    rows: Seq<Seq<ScalarView>>,
    live: Seq<DeltaRowRef>,
    shown: Seq<Seq<ScalarView>>,
    says: spec_fn(DeltaRowRef) -> Seq<ScalarView>,
    segment: u32,
)
    requires
        delta_stands(known, expected, batches, mutations),
        lazy_scan_laws::rows_stand(spots, held, references, rows),
        held.len() == spots.len(),
        forall|k: int| 0 <= k < spots.len() ==> (#[trigger] spots[k]).segment < segment,
        forall|i: int| 0 <= i < references.len() ==> (#[trigger] references[i]).segment < segment,
        refs_kept(
            live,
            references,
            segment,
            descriptor::brought(mutations, mutations.len() as int),
        ),
        shown == live.map_values(says),
        forall|i: int| 0 <= i < references.len() ==> says(#[trigger] references[i]) == rows[i],
        forall|reference: DeltaRowRef|
            reference.segment == segment ==> #[trigger] says(reference) == delta::rows_brought(
                mutations,
                mutations.len() as int,
            )[reference.row as int],
    ensures
        ({
            let file = lazy_delta::delta_made(known, batches, mutations)->Ok_0;
            let plan = lazy_delta::delta_plan(known, expected.after);
            let brought = delta::rows_brought(mutations, mutations.len() as int);
            let pieces = lazy_delta_laws::delta_pieces(plan, brought);
            let tail = indexed::segment_spots(file.groups, segment, file.groups.len() as int);
            lazy_scan_laws::rows_stand(
                spots + tail,
                held + lazy_scan_laws::piece_groups(plan, pieces),
                live,
                shown,
            )
        }),
{
    let file = lazy_delta::delta_made(known, batches, mutations)->Ok_0;
    let plan = lazy_delta::delta_plan(known, expected.after);
    let count = mutations.len() as int;
    let brought = delta::rows_brought(mutations, count);
    let pieces = lazy_delta_laws::delta_pieces(plan, brought);
    let entries = file.groups;
    let n = pieces.len() as int;
    let tail = indexed::segment_spots(entries, segment, entries.len() as int);
    let all = spots + tail;
    let all_held = held + lazy_scan_laws::piece_groups(plan, pieces);
    lazy_delta_laws::law_written_delta_opens(known, expected, batches, mutations);
    delta::lemma_rows_brought(mutations, count);
    descriptor::lemma_brought(mutations, count);
    lemma_flattened_len(pieces, n);
    lazy_scan_laws::lemma_segment_spot(entries, segment, n, 0);
    assert forall|i: int| 0 <= i < n implies (#[trigger] entries[i]).rows
        == pieces[i].rows.len() by {
        lemma_delta_group(known, expected, batches, mutations, i);
    }
    assert forall|i: int| 0 <= i < live.len() implies {
        &&& lazy_scan_laws::in_some(all, #[trigger] live[i], all.len() as int)
        &&& lazy_scan::first_of(live, i)
    } by {
        if references.contains(live[i]) {
            let old_place = choose|k: int| 0 <= k < references.len() && references[k] == live[i];
            assert(lazy_scan_laws::in_some(spots, references[old_place], spots.len() as int));
            let k = choose|k: int|
                0 <= k < spots.len() && indexed::inside(#[trigger] spots[k], live[i]);
            assert(all[k] == spots[k]);
            assert(indexed::inside(all[k], live[i]));
        } else {
            let k = lemma_home(pieces, n, live[i].row as int);
            lemma_starts(entries, pieces, k, n);
            lemma_starts(entries, pieces, k + 1, n);
            lazy_scan_laws::lemma_segment_spot(entries, segment, n, k);
            assert(all[spots.len() + k] == tail[k]);
            assert(entries[k].rows == pieces[k].rows.len());
            assert(indexed::inside(all[spots.len() + k], live[i]));
        }
    }
    assert forall|i: int, k: int|
        0 <= i < live.len() && 0 <= k < all.len() && #[trigger] indexed::inside(
            all[k],
            live[i],
        ) implies shown[i] == lazy_scan::row_of(
        compact::group_vectors(all_held[k]),
        live[i].row - all[k].start,
    ) by {
        if k < spots.len() {
            assert(all[k] == spots[k]);
            assert(spots[k].segment < segment);
            assert(references.contains(live[i]));
            let old_place = choose|j: int| 0 <= j < references.len() && references[j] == live[i];
            assert(indexed::inside(spots[k], references[old_place]));
            assert(says(references[old_place]) == rows[old_place]);
        } else {
            let g = k - spots.len();
            lazy_scan_laws::lemma_segment_spot(entries, segment, n, g);
            lemma_delta_group(known, expected, batches, mutations, g);
            assert(all[k] == tail[g]);
            assert(live[i].segment == segment);
            lemma_starts(entries, pieces, g, n);
            lemma_starts(entries, pieces, g + 1, n);
            let r = live[i].row - all[k].start;
            lemma_flattened_at(pieces, n, g, r);
            assert(lazy_segment_laws::piece_kept(plan, pieces[g]));
            assert(scan::rows_sound(pieces[g].rows, plan.columns.len()));
            lazy_scan_laws::lemma_piece_row(plan, pieces[g], r);
            assert(all_held[k] == writer::piece_group(plan, pieces[g]));
            assert(says(live[i]) == brought[live[i].row as int]);
        }
    }
}

/// The files of an advanced projection hold what its directories say: the base
/// segment is as it was, and the added rows are those that the row changes leave.
#[verifier::rlimit(60)]
pub proof fn law_advanced_files_hold(
    known: MetadataView,
    next: MetadataView,
    lazy: LazyView,
    files: Seq<Seq<u8>>,
    groups: Seq<GroupView>,
    held: Seq<GroupView>,
    rows: Seq<Seq<ScalarView>>,
    expected: DeltaSegmentView,
    batches: Seq<RowBatchView>,
    mutations: Seq<DeltaMutation<Seq<ScalarView>>>,
    paths: Seq<String>,
    invalid: &'static str,
)
    requires
        lazy_scan_laws::projection_stands(known, lazy, files, groups, held, rows),
        forall|i: int| 0 <= i < groups.len() ==> (#[trigger] groups[i]).source_versions is Some,
        overlay::overlay_kept(lazy.added),
        files.len() == lazy.deltas.len() + 1,
        lazy.deltas.len() < u32::MAX,
        next.columns == known.columns,
        lazy_scan::context_of(next) == lazy_scan::context_of(known),
        delta_stands(known, expected, batches, mutations),
        overlay::steps(
            lazy.added,
            overlay::all_located(
                delta_laws::descriptors_of(mutations),
                lazy.deltas.len() as u32,
            ),
            invalid,
            mutations.len() as int,
        ) is Ok,
    ensures
        ({
            let file = lazy_delta::delta_made(known, batches, mutations)->Ok_0;
            let plan = lazy_delta::delta_plan(known, expected.after);
            let brought = delta::rows_brought(mutations, mutations.len() as int);
            let pieces = lazy_delta_laws::delta_pieces(plan, brought);
            let added = overlay::steps(
                lazy.added,
                overlay::all_located(
                    delta_laws::descriptors_of(mutations),
                    lazy.deltas.len() as u32,
                ),
                invalid,
                mutations.len() as int,
            )->Ok_0;
            let shown = overlay::steps(
                lazy_scan_laws::overlay_with(lazy.added, rows),
                mutations,
                invalid,
                mutations.len() as int,
            );
            &&& shown is Ok
            &&& shown->Ok_0 == lazy_scan_laws::overlay_with(added, shown->Ok_0.live_rows)
            &&& lazy_scan_laws::projection_stands(
                next,
                view_with(lazy, file.groups, added, paths),
                files.push(lazy_delta::delta_file_of(file)),
                groups,
                held + lazy_scan_laws::piece_groups(plan, pieces),
                shown->Ok_0.live_rows,
            )
        }),
{
    let file = lazy_delta::delta_made(known, batches, mutations)->Ok_0;
    let plan = lazy_delta::delta_plan(known, expected.after);
    let count = mutations.len() as int;
    let brought = delta::rows_brought(mutations, count);
    let pieces = lazy_delta_laws::delta_pieces(plan, brought);
    let segment = lazy.deltas.len() as u32;
    let list = overlay::all_located(delta_laws::descriptors_of(mutations), segment);
    let references = lazy.added.live_rows;
    let spots = indexed::all_spots(lazy.deltas, lazy.deltas.len() as int);
    let added = overlay::steps(lazy.added, list, invalid, count)->Ok_0;
    let whole = lazy_delta::delta_file_of(file);
    let all_files = files.push(whole);
    let all_held = held + lazy_scan_laws::piece_groups(plan, pieces);
    let entries = file.groups;
    let deltas = lazy.deltas.push(entries);
    let all_spots = indexed::all_spots(deltas, deltas.len() as int);
    let tail = indexed::segment_spots(entries, segment, entries.len() as int);
    lazy_delta_laws::law_written_delta_opens(known, expected, batches, mutations);
    delta::lemma_rows_brought(mutations, count);
    descriptor::lemma_brought(mutations, count);
    lemma_flattened_len(pieces, pieces.len() as int);
    lemma_spots_before(lazy.deltas, entries, lazy.deltas.len() as int, 0);
    assert(all_spots == spots + tail);
    lazy_scan_laws::lemma_segment_spot(entries, segment, entries.len() as int, 0);
    // The references from before.
    assert(references.no_duplicates()) by {
        assert forall|i: int, j: int|
            0 <= i < references.len() && 0 <= j < references.len() && i != j implies references[i]
            != references[j] by {
            let (a, b) = if i < j {
                (i, j)
            } else {
                (j, i)
            };
            assert(references[b] == references[b]);
            assert(lazy_scan::first_of(references, b));
            assert(references[a] != references[b]);
        }
    }
    assert forall|k: int| 0 <= k < spots.len() implies (#[trigger] spots[k]).segment < segment by {
        lemma_spots_before(lazy.deltas, entries, lazy.deltas.len() as int, k);
    }
    assert forall|i: int| 0 <= i < references.len() implies (#[trigger] references[i]).segment
        < segment by {
        assert(lazy_scan_laws::in_some(spots, references[i], spots.len() as int));
        let k = choose|k: int|
            0 <= k < spots.len() && indexed::inside(#[trigger] spots[k], references[i]);
        assert(spots[k].segment < segment);
    }
    lemma_refs(lazy.added, mutations, segment, invalid, count);
    // What references stand for.
    let says = |reference: DeltaRowRef|
        if reference.segment == segment {
            brought[reference.row as int]
        } else {
            rows[choose|i: int| 0 <= i < references.len() && references[i] == reference]
        };
    assert forall|i: int| 0 <= i < references.len() implies says(#[trigger] references[i])
        == rows[i] by {
        let found = choose|k: int| 0 <= k < references.len() && references[k] == references[i];
        assert(references[found] == references[i]);
        assert(found == i);
    }
    assert(overlay_mapped(lazy.added, says).live_rows =~= rows);
    assert forall|i: int| 0 <= i < count implies #[trigger] mutations[i] == mutation_mapped(
        list[i],
        says,
    ) by {
        if mutations[i].after is Some {
            lemma_brought_row(mutations, count, i);
        }
    }
    law_references_follow_rows(lazy.added, list, mutations, says, invalid, count);
    let shown = overlay_mapped(added, says);
    // The groups of the delta segments.
    assert forall|k: int| 0 <= k < all_spots.len() implies lazy_scan_laws::spot_stands(
        all_files,
        next.columns,
        #[trigger] all_spots[k],
        all_held[k],
    ) by {
        if k < spots.len() {
            assert(all_spots[k] == spots[k]);
            assert(lazy_scan_laws::spot_stands(files, known.columns, spots[k], held[k]));
        } else {
            let g = k - spots.len();
            lazy_scan_laws::lemma_segment_spot(entries, segment, entries.len() as int, g);
            lemma_delta_group(known, expected, batches, mutations, g);
            assert(all_held[k] == writer::piece_group(plan, pieces[g]));
        }
    }
    assert(lazy_scan_laws::spots_stand(all_files, next.columns, all_spots, all_held));
    lemma_rows_stand(
        known,
        expected,
        batches,
        mutations,
        spots,
        held,
        references,
        rows,
        added.live_rows,
        shown.live_rows,
        says,
        segment,
    );
    assert(lazy_scan_laws::groups_stand(
        all_files[0],
        next.columns,
        groups,
        lazy.base_groups,
        lazy_scan::context_of(next),
    ));
}

} // verus!
