//! How rows and their versions are cut into groups, and which of them compaction
//! and preparation put there.
use super::compact;
use super::error::ColumnarError;
use super::feed::{self, Offer};
use super::gather;
use super::group::{GroupView, TableDef};
use super::metadata::MetadataView;
use super::overlay::{self, OverlayView};
use super::prepare::{self, BaseOrder};
use super::scan;
use super::scan_laws;
use super::vector::VectorView;
use super::version::{self, SnapshotKind};
use super::writer::{self, Piece, SegmentFile, SegmentPlan};
use crate::change_stream::types::StorageVersionKey;
use crate::ids::{ColumnId, ColumnarGeneration, SchemaFingerprint, StorageId};
use crate::value::ScalarView;
use vstd::prelude::*;

verus! {

/// The row versions of the first `n` pieces.
pub open spec fn piece_keys(pieces: Seq<Piece>, n: int) -> Seq<StorageVersionKey>
    decreases n,
{
    if n <= 0 {
        Seq::empty()
    } else {
        piece_keys(pieces, n - 1) + pieces[n - 1].keys
    }
}

proof fn lemma_keys_prefix(left: Seq<Piece>, right: Seq<Piece>, n: int)
    requires
        0 <= n <= left.len(),
        n <= right.len(),
        forall|i: int| 0 <= i < n ==> left[i] == right[i],
    ensures
        piece_keys(left, n) == piece_keys(right, n),
    decreases n,
{
    if n > 0 {
        lemma_keys_prefix(left, right, n - 1);
    }
}

/// Rows are cut into groups of the size that was asked for, and what is left over is
/// smaller. Where versions are kept, each row keeps its own.
pub proof fn law_rows_are_cut_into_groups(plan: SegmentPlan, offers: Seq<Offer>, n: int)
    requires
        0 <= n <= offers.len(),
        plan.group_rows > 0,
        gather::gathered(plan, offers, n) is Ok,
    ensures
        ({
            let (pieces, pending) = gather::gathered(plan, offers, n)->Ok_0;
            &&& pending.rows.len() < plan.group_rows
            &&& forall|i: int|
                0 <= i < pieces.len() ==> (#[trigger] pieces[i]).rows.len() == plan.group_rows
            &&& plan.versioned ==> {
                &&& piece_keys(pieces, pieces.len() as int) + pending.keys == feed::offer_keys(
                    offers,
                ).take(n)
                &&& pending.keys.len() == pending.rows.len()
                &&& forall|i: int|
                    0 <= i < pieces.len() ==> (#[trigger] pieces[i]).keys.len()
                        == pieces[i].rows.len()
            }
            &&& forall|i: int|
                0 <= i < n ==> #[trigger] feed::refusal(plan.versioned, offers, i) is None
        }),
    decreases n,
{
    let keys = feed::offer_keys(offers);
    let (pieces, pending) = gather::gathered(plan, offers, n)->Ok_0;
    if n > 0 {
        let (earlier, waiting) = gather::gathered(plan, offers, n - 1)->Ok_0;
        law_rows_are_cut_into_groups(plan, offers, n - 1);
        let before = piece_keys(earlier, earlier.len() as int);
        assert(keys.take(n) =~= keys.take(n - 1).push(keys[n - 1]));
        if plan.versioned {
            if pending.rows.len() == 0 {
                lemma_keys_prefix(pieces, earlier, earlier.len() as int);
                assert(piece_keys(pieces, pieces.len() as int) + pending.keys =~= before
                    + waiting.keys.push(keys[n - 1]));
                assert(before + waiting.keys.push(keys[n - 1]) =~= (before + waiting.keys).push(
                    keys[n - 1],
                ));
            } else {
                assert(before + pending.keys =~= (before + waiting.keys).push(keys[n - 1]));
            }
        }
    } else {
        assert(piece_keys(pieces, 0) + pending.keys =~= keys.take(0));
    }
}

/// All rows that are offered are in the groups, in order, and where versions are kept
/// each has its own. All groups but the last have the size that was asked for, and
/// the last has at most as many rows. No offer was refused.
pub proof fn law_all_rows_are_in_the_groups(plan: SegmentPlan, offers: Seq<Offer>)
    requires
        plan.group_rows > 0,
        gather::all_gathered(plan, offers) is Ok,
    ensures
        ({
            let pieces = gather::all_gathered(plan, offers)->Ok_0;
            let n = pieces.len() as int;
            &&& writer::flattened(pieces, n) == feed::offer_rows(offers)
            &&& plan.versioned ==> piece_keys(pieces, n) == feed::offer_keys(offers)
            &&& forall|i: int|
                0 <= i < n ==> 0 < (#[trigger] pieces[i]).rows.len() <= plan.group_rows
            &&& forall|i: int|
                0 <= i < n - 1 ==> (#[trigger] pieces[i]).rows.len() == plan.group_rows
            &&& plan.versioned ==> forall|i: int|
                0 <= i < n ==> (#[trigger] pieces[i]).keys.len() == pieces[i].rows.len()
            &&& forall|i: int|
                0 <= i < offers.len() ==> #[trigger] feed::refusal(plan.versioned, offers, i)
                    is None
        }),
{
    let m = offers.len() as int;
    let (earlier, pending) = gather::gathered(plan, offers, m)->Ok_0;
    let pieces = gather::all_gathered(plan, offers)->Ok_0;
    gather::law_gathered_rows_are_kept(plan, offers, m);
    law_rows_are_cut_into_groups(plan, offers, m);
    let rows = feed::offer_rows(offers);
    let keys = feed::offer_keys(offers);
    assert(rows.take(m) =~= rows);
    assert(keys.take(m) =~= keys);
    let k = earlier.len() as int;
    if pending.rows.len() == 0 {
        assert(writer::flattened(earlier, k) + pending.rows =~= writer::flattened(earlier, k));
        if plan.versioned {
            assert(piece_keys(earlier, k) + pending.keys =~= piece_keys(earlier, k));
        }
    } else {
        writer::lemma_flattened_prefix(pieces, earlier, k);
        lemma_keys_prefix(pieces, earlier, k);
    }
}

// ---------------------------------------------------------------------------
// Compaction
// ---------------------------------------------------------------------------
/// The versions of the rows of a group that were not replaced.
pub open spec fn group_keys(known: GroupView, suppressed: Seq<StorageVersionKey>) -> Seq<
    StorageVersionKey,
> {
    scan::retained(known, suppressed).map_values(|row: usize| known.source_versions->0[row as int])
}

/// The versions of the rows of the first `n` groups that were not replaced.
pub open spec fn base_keys(
    groups: Seq<GroupView>,
    suppressed: Seq<StorageVersionKey>,
    n: int,
) -> Seq<StorageVersionKey>
    decreases n,
{
    if n <= 0 {
        Seq::empty()
    } else {
        base_keys(groups, suppressed, n - 1) + group_keys(groups[n - 1], suppressed)
    }
}

/// The versions of the rows of a projection, in the order of its rows.
pub open spec fn visible_keys<R>(groups: Seq<GroupView>, added: OverlayView<R>) -> Seq<
    StorageVersionKey,
> {
    base_keys(groups, added.suppressed, groups.len() as int) + added.live_keys
}

proof fn lemma_kept_keys(
    keys: Seq<StorageVersionKey>,
    suppressed: Seq<StorageVersionKey>,
    vectors: Seq<VectorView>,
    n: int,
)
    requires
        0 <= n <= keys.len(),
        n <= usize::MAX,
    ensures
        feed::offer_keys(compact::kept_offers(keys, suppressed, vectors, n)) == scan::kept_rows(
            keys,
            suppressed,
            n,
        ).map_values(|row: usize| keys[row as int]),
    decreases n,
{
    let left = feed::offer_keys(compact::kept_offers(keys, suppressed, vectors, n));
    let right = scan::kept_rows(keys, suppressed, n).map_values(|row: usize| keys[row as int]);
    if n > 0 {
        lemma_kept_keys(keys, suppressed, vectors, n - 1);
        let before = feed::offer_keys(compact::kept_offers(keys, suppressed, vectors, n - 1));
        if !suppressed.contains(keys[n - 1]) {
            assert(left =~= before.push(keys[n - 1]));
            assert(right =~= before.push(keys[n - 1]));
        }
    } else {
        assert(left =~= right);
    }
}

proof fn lemma_base_keys(groups: Seq<GroupView>, suppressed: Seq<StorageVersionKey>, n: int)
    requires
        0 <= n <= groups.len(),
        forall|i: int|
            0 <= i < groups.len() ==> scan::group_sound(#[trigger] groups[i])
                && groups[i].source_versions is Some,
    ensures
        feed::offer_keys(compact::base_offers(groups, suppressed, n)) == base_keys(
            groups,
            suppressed,
            n,
        ),
    decreases n,
{
    let left = feed::offer_keys(compact::base_offers(groups, suppressed, n));
    if n > 0 {
        lemma_base_keys(groups, suppressed, n - 1);
        let known = groups[n - 1];
        assert(scan::group_sound(known) && known.source_versions is Some);
        let keys = known.source_versions->0;
        lemma_kept_keys(keys, suppressed, compact::group_vectors(known), keys.len() as int);
        assert(group_keys(known, suppressed) =~= scan::kept_rows(
            keys,
            suppressed,
            keys.len() as int,
        ).map_values(|row: usize| keys[row as int]));
        assert(left =~= base_keys(groups, suppressed, n - 1) + group_keys(known, suppressed));
    } else {
        assert(left =~= Seq::empty());
    }
}

proof fn lemma_added_keys(added: OverlayView<Seq<ScalarView>>, n: int)
    requires
        0 <= n <= added.live_keys.len(),
    ensures
        feed::offer_keys(compact::added_offers(added, n)) == added.live_keys.take(n),
    decreases n,
{
    let left = feed::offer_keys(compact::added_offers(added, n));
    if n > 0 {
        lemma_added_keys(added, n - 1);
        assert(left =~= added.live_keys.take(n - 1).push(added.live_keys[n - 1]));
        assert(left =~= added.live_keys.take(n));
    } else {
        assert(left =~= added.live_keys.take(0));
    }
}

/// Each row of a compacted base segment has the version that it had in the
/// projection.
pub proof fn law_compaction_keeps_versions(
    plan: SegmentPlan,
    groups: Seq<GroupView>,
    added: OverlayView<Seq<ScalarView>>,
)
    requires
        plan.versioned,
        plan.group_rows > 0,
        forall|i: int|
            0 <= i < groups.len() ==> scan::group_sound(#[trigger] groups[i])
                && groups[i].source_versions is Some,
        overlay::overlay_kept(added),
        gather::all_gathered(plan, compact::eager_offers(groups, added)) is Ok,
    ensures
        ({
            let pieces = gather::all_gathered(plan, compact::eager_offers(groups, added))->Ok_0;
            &&& piece_keys(pieces, pieces.len() as int) == visible_keys(groups, added)
            &&& writer::flattened(pieces, pieces.len() as int) == scan_laws::visible_rows(
                groups,
                added,
            )
        }),
{
    let offers = compact::eager_offers(groups, added);
    law_all_rows_are_in_the_groups(plan, offers);
    scan_laws::law_compaction_keeps_rows(plan, groups, added);
    lemma_base_keys(groups, added.suppressed, groups.len() as int);
    lemma_added_keys(added, added.live_keys.len() as int);
    assert(added.live_keys.take(added.live_keys.len() as int) =~= added.live_keys);
    assert(feed::offer_keys(offers) =~= visible_keys(groups, added));
}

/// A projection can be compacted only where it follows a change stream and has delta
/// segments, into the next generation, and for a table that is the same as it was.
pub proof fn law_when_a_projection_can_be_compacted(
    known: MetadataView,
    table: TableDef,
    generation: ColumnarGeneration,
)
    ensures
        compact::compaction_error(known, table, generation) is None <==> {
            &&& known.incremental is Some
            &&& known.incremental->0.delta_segments.len() > 0
            &&& generation.0 == known.generation.0 + 1
            &&& table.id == known.table_id
            &&& table.fingerprint == Ok::<SchemaFingerprint, String>(
                known.schema_fingerprint,
            )
        },
{
}

// ---------------------------------------------------------------------------
// Preparation
// ---------------------------------------------------------------------------
/// What preparing a projection makes of the rows that it is offered: a base segment
/// with all of them, in order, each with its version where the projection follows a
/// change stream, and metadata that tell of it. The source is that of the
/// projection, and no offer is refused.
pub proof fn law_what_preparing_makes(
    order: BaseOrder,
    table: TableDef,
    columns: Seq<ColumnId>,
    mismatch: &'static str,
    offers: Seq<Offer>,
)
    requires
        offers.len() <= u64::MAX,
    ensures
        prepare::prepare_spec(order, table, columns, mismatch, offers) matches Ok(view) ==> {
            let plan = prepare::order_plan(order);
            let pieces = gather::all_gathered(plan, offers)->Ok_0;
            let n = pieces.len() as int;
            let known = view.metadata;
            &&& order.token.storage_id == order.storage_id
            &&& order.cursor matches Some(at) ==> at.storage_id == order.storage_id
                && at.generation.0 != 0
            &&& 0 < order.group_rows <= u32::MAX
            &&& writer::segment_made(plan, pieces, offers.len() as u64) == Ok::<
                SegmentFile,
                ColumnarError,
            >(view.file)
            &&& writer::flattened(pieces, n) == feed::offer_rows(offers)
            &&& order.cursor is Some ==> piece_keys(pieces, n) == feed::offer_keys(offers)
            &&& known.id == order.id
            &&& known.generation == order.generation
            &&& known.table_id == order.table_id
            &&& known.source_storage_id == order.storage_id
            &&& known.source_token == order.token
            &&& known.schema_fingerprint == order.fingerprint
            &&& known.columns == order.columns
            &&& known.row_count == offers.len()
            &&& known.segment_count == 1
            &&& view.segment_id.0 == order.generation.0
            &&& match (order.cursor, known.incremental) {
                (None, None) => true,
                (Some(at), Some(incremental)) => {
                    &&& incremental.stream_generation == at.generation
                    &&& incremental.base_frontier == at.frontier
                    &&& incremental.applied_frontier == at.frontier
                    &&& incremental.delta_segments.len() == 0
                    &&& incremental.delta_mutation_count == 0
                    &&& incremental.delta_live_row_count == 0
                    &&& incremental.suppressed_version_count == 0
                    &&& incremental.delta_bytes == 0
                },
                _ => false,
            }
            &&& forall|i: int|
                0 <= i < offers.len() ==> #[trigger] feed::refusal(
                    order.cursor is Some,
                    offers,
                    i,
                ) is None
        },
{
    if prepare::prepare_spec(order, table, columns, mismatch, offers) is Ok {
        law_all_rows_are_in_the_groups(prepare::order_plan(order), offers);
    }
}

/// A row of a source is refused exactly where its version is not of the storage, or
/// came before, or it has not a value for each column; the reasons come in this
/// order.
pub proof fn law_refused_source_rows(
    storage_id: StorageId,
    kind: SnapshotKind,
    width: nat,
    rows: Seq<(StorageVersionKey, Seq<ScalarView>)>,
    i: int,
)
    requires
        0 <= i < rows.len(),
    ensures
        ({
            let offers = feed::source_offers(storage_id, kind, width, rows);
            let refused = feed::refusal(true, offers, i);
            let strange = version::key_error(rows[i].0, storage_id, kind);
            let again = exists|j: int| 0 <= j < i && (#[trigger] rows[j]).0 == rows[i].0;
            &&& offers.len() == rows.len()
            &&& feed::offer_rows(offers)[i] == rows[i].1
            &&& feed::offer_keys(offers)[i] == rows[i].0
            &&& refused is None <==> strange is None && !again && rows[i].1.len() == width
            &&& strange is Some ==> refused == strange
            &&& strange is None && again ==> refused == Some(
                ColumnarError::InvalidInput("duplicate base source version"),
            )
        }),
{
    let offers = feed::source_offers(storage_id, kind, width, rows);
    if feed::offered_before(offers, i) {
        let j = choose|j: int| 0 <= j < i && (#[trigger] offers[j]).key == offers[i].key;
        assert(rows[j].0 == rows[i].0);
    }
    if exists|j: int| 0 <= j < i && (#[trigger] rows[j]).0 == rows[i].0 {
        let j = choose|j: int| 0 <= j < i && (#[trigger] rows[j]).0 == rows[i].0;
        assert(offers[j].key == offers[i].key);
    }
}

} // verus!
