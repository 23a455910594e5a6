//! Compaction: the rows of a projection's base segment that were not replaced,
//! and the rows that its delta segments added, become a new base segment.
use super::base;
use super::error::ColumnarError;
use super::feed::{self, Offer, SeenVersions};
use super::gather::{self, GroupGatherer};
use super::group::{self, GroupView, RowGroup, TableDef};
use super::lazy_scan;
use super::metadata::{
    self, ColumnarProjectionMetadata, MetadataView, SegmentIdentity, DEFAULT_ROW_GROUP_ROWS,
};
use super::overlay::{self, DeltaOverlay, OverlayView};
use super::prepare::{self, BaseOrder, PreparedColumnarProjection, PreparedView};
use super::scan;
use super::vector::{self, VectorView};
use super::writer::{self, Piece, SegmentPlan};
use crate::change_stream::stream::ChangeStreamCursor;
use crate::change_stream::types::StorageVersionKey;
use crate::ids::{ColumnarGeneration, ColumnarSegmentId, SchemaFingerprint};
use crate::value::{self, ScalarValue, ScalarView};
use vstd::prelude::*;

verus! {

// ---------------------------------------------------------------------------
// Checks
// ---------------------------------------------------------------------------
/// Why a table is not the one that a projection is of, if it is not.
pub open spec fn schema_error(
    known: MetadataView,
    table: TableDef,
    mismatch: &'static str,
) -> Option<ColumnarError> {
    if table.id != known.table_id {
        Some(ColumnarError::IdentityMismatch(mismatch))
    } else {
        match prepare::fingerprint_of(table) {
            Err(error) => Some(error),
            Ok(fingerprint) => if fingerprint != known.schema_fingerprint {
                Some(ColumnarError::IdentityMismatch(mismatch))
            } else {
                None
            },
        }
    }
}

/// Checks that a table is the one that a projection is of.
pub fn check_schema(
    metadata: &ColumnarProjectionMetadata,
    table: &TableDef,
    mismatch: &'static str,
) -> (valid: Result<(), ColumnarError>)
    ensures
        match schema_error(metadata@, *table, mismatch) {
            Some(error) => valid == Err::<(), ColumnarError>(error),
            None => valid is Ok,
        },
{
    if table.id != metadata.table_id {
        return Err(ColumnarError::IdentityMismatch(mismatch));
    }
    let fingerprint: SchemaFingerprint = prepare::table_fingerprint(table)?;
    if !fingerprint.same_as(&metadata.schema_fingerprint) {
        return Err(ColumnarError::IdentityMismatch(mismatch));
    }
    Ok(())
}

/// Why a projection cannot be compacted into a generation, if it cannot.
pub open spec fn compaction_error(
    known: MetadataView,
    table: TableDef,
    generation: ColumnarGeneration,
) -> Option<ColumnarError> {
    match known.incremental {
        None => Some(ColumnarError::InvalidInput("snapshot projection cannot compact")),
        Some(incremental) => if incremental.delta_segments.len() == 0 {
            Some(ColumnarError::InvalidInput("incremental projection has no delta to compact"))
        } else if known.generation.0 == u64::MAX {
            Some(ColumnarError::InvalidInput("columnar generation space is exhausted"))
        } else if generation.0 != known.generation.0 + 1 {
            Some(ColumnarError::IdentityMismatch("compaction generation"))
        } else {
            schema_error(known, table, "compaction schema")
        },
    }
}

/// Checks that a projection can be compacted into a generation, and gives the
/// place in its change stream that the new base segment is at.
pub fn check_compaction(
    metadata: &ColumnarProjectionMetadata,
    table: &TableDef,
    generation: ColumnarGeneration,
) -> (valid: Result<ChangeStreamCursor, ColumnarError>)
    ensures
        match compaction_error(metadata@, *table, generation) {
            Some(error) => valid == Err::<ChangeStreamCursor, ColumnarError>(error),
            None => {
                &&& metadata@.incremental is Some
                &&& valid == Ok::<ChangeStreamCursor, ColumnarError>(
                    compaction_cursor(metadata@),
                )
            },
        },
{
    match &metadata.incremental {
        None => Err(ColumnarError::InvalidInput("snapshot projection cannot compact")),
        Some(incremental) => {
            if incremental.delta_segments.len() == 0 {
                return Err(
                    ColumnarError::InvalidInput("incremental projection has no delta to compact"),
                );
            }
            if metadata.generation.0 == u64::MAX {
                return Err(ColumnarError::InvalidInput("columnar generation space is exhausted"));
            }
            if generation.0 != metadata.generation.0 + 1 {
                return Err(ColumnarError::IdentityMismatch("compaction generation"));
            }
            check_schema(metadata, table, "compaction schema")?;
            Ok(
                ChangeStreamCursor {
                    storage_id: metadata.source_storage_id,
                    generation: incremental.stream_generation,
                    frontier: incremental.applied_frontier,
                },
            )
        },
    }
}

/// The place in a change stream that a compacted base segment is at: the one that
/// the projection had followed the stream to.
pub open spec fn compaction_cursor(known: MetadataView) -> ChangeStreamCursor {
    ChangeStreamCursor {
        storage_id: known.source_storage_id,
        generation: known.incremental->0.stream_generation,
        frontier: known.incremental->0.applied_frontier,
    }
}

/// What a compacted base segment is prepared for.
pub open spec fn compaction_order(
    known: MetadataView,
    generation: ColumnarGeneration,
    group_rows: usize,
) -> BaseOrder {
    BaseOrder {
        id: known.id,
        generation,
        table_id: known.table_id,
        storage_id: known.source_storage_id,
        token: known.source_token,
        fingerprint: known.schema_fingerprint,
        columns: known.columns,
        cursor: Some(compaction_cursor(known)),
        group_rows,
    }
}

/// The identity of a compacted base segment.
pub fn compaction_identity(
    metadata: &ColumnarProjectionMetadata,
    generation: ColumnarGeneration,
) -> (identity: SegmentIdentity)
    ensures
        forall|rows: usize|
            identity == #[trigger] prepare::order_identity(
                compaction_order(metadata@, generation, rows),
            ),
{
    SegmentIdentity {
        projection_id: metadata.id,
        generation,
        segment_id: ColumnarSegmentId(generation.0),
        table_id: metadata.table_id,
        storage_id: metadata.source_storage_id,
        fingerprint: metadata.schema_fingerprint,
    }
}

// ---------------------------------------------------------------------------
// Offers
// ---------------------------------------------------------------------------
/// A row that was not replaced, as an offer.
pub open spec fn kept_offer(key: StorageVersionKey, row: Seq<ScalarView>) -> Offer {
    Offer {
        lead: None,
        key,
        duplicate: ColumnarError::Corrupt("duplicate retained source version during compaction"),
        fault: None,
        row,
    }
}

/// Those of the first `n` rows of a group that were not replaced, as offers.
pub open spec fn kept_offers(
    keys: Seq<StorageVersionKey>,
    suppressed: Seq<StorageVersionKey>,
    vectors: Seq<VectorView>,
    n: int,
) -> Seq<Offer>
    decreases n,
{
    if n <= 0 {
        Seq::empty()
    } else if suppressed.contains(keys[n - 1]) {
        kept_offers(keys, suppressed, vectors, n - 1)
    } else {
        kept_offers(keys, suppressed, vectors, n - 1).push(
            kept_offer(keys[n - 1], lazy_scan::row_of(vectors, n - 1)),
        )
    }
}

/// What stands for a group that cannot be read.
pub open spec fn refused_offer(error: ColumnarError) -> Offer {
    Offer {
        lead: Some(error),
        key: base::no_key(),
        duplicate: ColumnarError::InvalidInput(""),
        fault: None,
        row: Seq::empty(),
    }
}

/// The vectors of a group.
pub open spec fn group_vectors(known: GroupView) -> Seq<VectorView> {
    known.columns.map_values(|column: (crate::ids::ColumnId, VectorView)| column.1)
}

/// The rows of a group that were not replaced, as offers.
pub open spec fn group_offers(known: GroupView, suppressed: Seq<StorageVersionKey>) -> Seq<Offer> {
    match known.source_versions {
        None => seq![
            refused_offer(
                ColumnarError::Corrupt("incremental base row group has no version keys"),
            ),
        ],
        Some(keys) => kept_offers(keys, suppressed, group_vectors(known), keys.len() as int),
    }
}

/// The rows of the first `n` groups that were not replaced, as offers.
pub open spec fn base_offers(
    groups: Seq<GroupView>,
    suppressed: Seq<StorageVersionKey>,
    n: int,
) -> Seq<Offer>
    decreases n,
{
    if n <= 0 {
        Seq::empty()
    } else {
        base_offers(groups, suppressed, n - 1) + group_offers(groups[n - 1], suppressed)
    }
}

/// A row that a delta segment added, as an offer.
pub open spec fn added_offer(key: StorageVersionKey, row: Seq<ScalarView>) -> Offer {
    Offer {
        lead: None,
        key,
        duplicate: ColumnarError::Corrupt("delta version duplicates a retained base version"),
        fault: None,
        row,
    }
}

/// The first `n` rows that delta segments added, as offers.
pub open spec fn added_offers(added: OverlayView<Seq<ScalarView>>, n: int) -> Seq<Offer>
    decreases n,
{
    if n <= 0 {
        Seq::empty()
    } else {
        added_offers(added, n - 1).push(
            added_offer(added.live_keys[n - 1], added.live_rows[n - 1]),
        )
    }
}

/// The rows of a projection in memory, as offers to its compacted base segment.
pub open spec fn eager_offers(groups: Seq<GroupView>, added: OverlayView<Seq<ScalarView>>) -> Seq<
    Offer,
> {
    base_offers(groups, added.suppressed, groups.len() as int) + added_offers(
        added,
        added.live_keys.len() as int,
    )
}

/// How many rows the groups of a compacted base segment have.
pub open spec fn compacted_rows(groups: Seq<GroupView>) -> usize {
    if groups.len() == 0 {
        DEFAULT_ROW_GROUP_ROWS
    } else {
        groups[0].rows as usize
    }
}

/// The compaction of a projection in memory.
pub open spec fn eager_compaction(
    known: MetadataView,
    groups: Seq<GroupView>,
    added: OverlayView<Seq<ScalarView>>,
    table: TableDef,
    generation: ColumnarGeneration,
) -> Result<PreparedView, ColumnarError> {
    let order = compaction_order(known, generation, compacted_rows(groups));
    let offers = eager_offers(groups, added);
    match compaction_error(known, table, generation) {
        Some(error) => Err(error),
        None => match gather::all_gathered(prepare::order_plan(order), offers) {
            Err(error) => Err(error),
            Ok(pieces) => match writer::segment_made(
                prepare::order_plan(order),
                pieces,
                offers.len() as u64,
            ) {
                Err(error) => Err(error),
                Ok(file) => prepare::prepared(order, file, offers.len() as u64),
            },
        },
    }
}

/// Whether offers are the first of others.
pub open spec fn is_front(front: Seq<Offer>, whole: Seq<Offer>) -> bool {
    &&& front.len() <= whole.len()
    &&& forall|i: int| 0 <= i < front.len() ==> #[trigger] front[i] == whole[i]
}

proof fn lemma_front_fails(plan: SegmentPlan, front: Seq<Offer>, whole: Seq<Offer>)
    requires
        is_front(front, whole),
        gather::gathered(plan, front, front.len() as int) is Err,
    ensures
        gather::all_gathered(plan, whole) == Err::<Seq<Piece>, ColumnarError>(
            gather::gathered(plan, front, front.len() as int)->Err_0,
        ),
{
    gather::lemma_gathered_same(plan, front, whole, front.len() as int);
    gather::lemma_gathered_prefix(plan, whole, front.len() as int, whole.len() as int);
}

/// Earlier rows of a group are offered first.
pub proof fn lemma_kept_front(
    keys: Seq<StorageVersionKey>,
    suppressed: Seq<StorageVersionKey>,
    vectors: Seq<VectorView>,
    n: int,
    m: int,
)
    requires
        n <= m,
    ensures
        is_front(
            kept_offers(keys, suppressed, vectors, n),
            kept_offers(keys, suppressed, vectors, m),
        ),
    decreases m - n,
{
    if n < m {
        lemma_kept_front(keys, suppressed, vectors, n, m - 1);
    }
}

proof fn lemma_base_front(
    groups: Seq<GroupView>,
    suppressed: Seq<StorageVersionKey>,
    n: int,
    m: int,
)
    requires
        n <= m,
    ensures
        is_front(base_offers(groups, suppressed, n), base_offers(groups, suppressed, m)),
    decreases m - n,
{
    if n < m {
        lemma_base_front(groups, suppressed, n, m - 1);
    }
}

proof fn lemma_added_front(added: OverlayView<Seq<ScalarView>>, n: int, m: int)
    requires
        n <= m,
    ensures
        is_front(added_offers(added, n), added_offers(added, m)),
    decreases m - n,
{
    if n < m {
        lemma_added_front(added, n, m - 1);
    }
}

// ---------------------------------------------------------------------------
// Projections in memory
// ---------------------------------------------------------------------------
/// Whether groups are what offers make so far, and the versions are theirs.
spec fn gathers(gatherer: GroupGatherer, seen: SeenVersions, done: Seq<Offer>) -> bool {
    &&& gatherer.wf()
    &&& gatherer.versioned
    &&& seen.wf()
    &&& feed::holds_keys(seen.keys@, done)
    &&& gatherer.row_count == done.len()
    &&& gather::gathered(gatherer.plan@, done, done.len() as int) == Ok::<
        (Seq<Piece>, Piece),
        ColumnarError,
    >((gatherer.pieces@, gatherer.pending()))
}

/// Whether all offers were gathered, or it was said why not.
spec fn gathers_all(
    result: Result<(), ColumnarError>,
    before: GroupGatherer,
    after: GroupGatherer,
    seen: SeenVersions,
    all: Seq<Offer>,
) -> bool {
    match result {
        Ok(_) => gathers(after, seen, all) && after.plan == before.plan,
        Err(error) => all.len() > u64::MAX || gather::gathered(
            before.plan@,
            all,
            all.len() as int,
        ) == Err::<(Seq<Piece>, Piece), ColumnarError>(error),
    }
}

fn gather_offer(
    gatherer: &mut GroupGatherer,
    seen: &mut SeenVersions,
    key: StorageVersionKey,
    duplicate: &'static str,
    row: Vec<ScalarValue>,
    Ghost(done): Ghost<Seq<Offer>>,
) -> (gathered: Result<(), ColumnarError>)
    requires
        gathers(*old(gatherer), *old(seen), done),
    ensures
        ({
            let offer = Offer {
                lead: None,
                key,
                duplicate: ColumnarError::Corrupt(duplicate),
                fault: None,
                row: value::row_view(row@),
            };
            let grown = done.push(offer);
            gathers_all(gathered, *old(gatherer), *final(gatherer), *final(seen), grown)
        }),
{
    let ghost offer = Offer {
        lead: None,
        key,
        duplicate: ColumnarError::Corrupt(duplicate),
        fault: None,
        row: value::row_view(row@),
    };
    let ghost grown = done.push(offer);
    let ghost before = seen.keys@;
    let fresh: bool = seen.insert(key);
    proof {
        feed::lemma_holds_push(before, seen.keys@, done, offer);
        gather::lemma_gathered_same(gatherer.plan@, done, grown, done.len() as int);
    }
    if !fresh {
        return Err(ColumnarError::Corrupt(duplicate));
    }
    gatherer.push(Some(key), row, "compacted row count overflow")
}

fn read_group_row(known: &RowGroup, row: usize) -> (values: Vec<ScalarValue>)
    requires
        scan::group_sound(known@),
        row < known.rows,
    ensures
        value::row_view(values@) == lazy_scan::row_of(group_vectors(known@), row as int),
{
    let ghost whole = lazy_scan::row_of(group_vectors(known@), row as int);
    let mut values: Vec<ScalarValue> = Vec::new();
    let mut i: usize = 0;
    while i < known.columns.len()
        invariant
            i <= known.columns@.len(),
            scan::group_sound(known@),
            row < known.rows,
            whole == lazy_scan::row_of(group_vectors(known@), row as int),
            value::row_view(values@) == whole.take(i as int),
        decreases known.columns@.len() - i,
    {
        let ghost source = known.columns@[i as int].values@;
        assert(known@.columns[i as int].1 == source);
        assert(group_vectors(known@)[i as int] == source);
        proof {
            vector::lemma_well_formed_values(source);
            assert(vector::value_of(source, row as int) is Ok);
        }
        let ghost before = value::row_view(values@);
        if let Ok(found) = known.columns[i].values.value(row) {
            values.push(found);
        }
        i = i + 1;
        assert(value::row_view(values@) =~= before.push(whole[i - 1]));
        assert(before.push(whole[i - 1]) =~= whole.take(i as int));
    }
    assert(value::row_view(values@) =~= whole);
    values
}

fn gather_group(
    gatherer: &mut GroupGatherer,
    seen: &mut SeenVersions,
    known: &RowGroup,
    suppressed: &[StorageVersionKey],
    Ghost(done): Ghost<Seq<Offer>>,
) -> (gathered: Result<(), ColumnarError>)
    requires
        gathers(*old(gatherer), *old(seen), done),
        scan::group_sound(known@),
        overlay::ascending(suppressed@),
    ensures
        ({
            let all = done + group_offers(known@, suppressed@);
            gathers_all(gathered, *old(gatherer), *final(gatherer), *final(seen), all)
        }),
{
    let ghost all = done + group_offers(known@, suppressed@);
    let ghost plan = gatherer.plan@;
    let ghost vectors = group_vectors(known@);
    let keys: &Vec<StorageVersionKey> = match &known.source_versions {
        Some(keys) => keys,
        None => {
            proof {
                gather::lemma_gathered_same(plan, done, all, done.len() as int);
                assert(all[done.len() as int].lead is Some);
            }
            return Err(ColumnarError::Corrupt("incremental base row group has no version keys"));
        },
    };
    let ghost n = keys@.len() as int;
    let ghost mut so_far = done;
    let mut row: usize = 0;
    assert(done + kept_offers(keys@, suppressed@, vectors, 0) =~= done);
    while row < keys.len()
        invariant
            row <= keys@.len(),
            n == keys@.len(),
            scan::group_sound(known@),
            known.rows == keys@.len(),
            overlay::ascending(suppressed@),
            vectors == group_vectors(known@),
            all == done + kept_offers(keys@, suppressed@, vectors, n),
            all == done + group_offers(known@, suppressed@),
            so_far == done + kept_offers(keys@, suppressed@, vectors, row as int),
            plan == old(gatherer).plan@,
            gathers(*gatherer, *seen, so_far),
            gatherer.plan == old(gatherer).plan,
        decreases keys@.len() - row,
    {
        let key: StorageVersionKey = keys[row];
        proof {
            lemma_kept_front(keys@, suppressed@, vectors, row + 1, n);
        }
        if !overlay::search(suppressed, key).1 {
            let values: Vec<ScalarValue> = read_group_row(known, row);
            let ghost offer = kept_offer(key, value::row_view(values@));
            let ghost grown = so_far.push(offer);
            proof {
                assert(grown =~= done + kept_offers(keys@, suppressed@, vectors, row + 1));
                assert(is_front(grown, all));
                if gather::gathered(plan, grown, grown.len() as int) is Err {
                    gather::lemma_gathered_same(plan, grown, all, grown.len() as int);
                    gather::lemma_gathered_prefix(
                        plan,
                        all,
                        grown.len() as int,
                        all.len() as int,
                    );
                }
            }
            gather_offer(
                gatherer,
                seen,
                key,
                "duplicate retained source version during compaction",
                values,
                Ghost(so_far),
            )?;
            proof {
                so_far = grown;
            }
        }
        row = row + 1;
    }
    Ok(())
}

fn gather_added(
    gatherer: &mut GroupGatherer,
    seen: &mut SeenVersions,
    added: &DeltaOverlay<Vec<ScalarValue>>,
    Ghost(done): Ghost<Seq<Offer>>,
) -> (gathered: Result<(), ColumnarError>)
    requires
        gathers(*old(gatherer), *old(seen), done),
        overlay::overlay_kept(added@),
    ensures
        ({
            let rows = overlay::values_overlay(added@);
            let all = done + added_offers(rows, rows.live_keys.len() as int);
            gathers_all(gathered, *old(gatherer), *final(gatherer), *final(seen), all)
        }),
{
    let ghost rows = overlay::values_overlay(added@);
    let ghost n = rows.live_keys.len() as int;
    let ghost all = done + added_offers(rows, n);
    let ghost plan = gatherer.plan@;
    let ghost mut so_far = done;
    let mut i: usize = 0;
    assert(done + added_offers(rows, 0) =~= done);
    while i < added.live_keys.len()
        invariant
            i <= added.live_keys@.len(),
            n == added.live_keys@.len(),
            rows == overlay::values_overlay(added@),
            overlay::overlay_kept(added@),
            all == done + added_offers(rows, n),
            so_far == done + added_offers(rows, i as int),
            plan == old(gatherer).plan@,
            gathers(*gatherer, *seen, so_far),
            gatherer.plan == old(gatherer).plan,
        decreases added.live_keys@.len() - i,
    {
        let key: StorageVersionKey = added.live_keys[i];
        let copy: Vec<ScalarValue> = value::copy_row(added.live_rows[i].as_slice());
        let ghost grown = so_far.push(added_offer(key, value::row_view(copy@)));
        proof {
            assert(rows.live_rows[i as int] == value::row_view(copy@));
            lemma_added_front(rows, i + 1, n);
            assert(grown =~= done + added_offers(rows, i + 1));
            assert(is_front(grown, all));
            if gather::gathered(plan, grown, grown.len() as int) is Err {
                gather::lemma_gathered_same(plan, grown, all, grown.len() as int);
                gather::lemma_gathered_prefix(plan, all, grown.len() as int, all.len() as int);
            }
        }
        gather_offer(
            gatherer,
            seen,
            key,
            "delta version duplicates a retained base version",
            copy,
            Ghost(so_far),
        )?;
        proof {
            so_far = grown;
        }
        i = i + 1;
    }
    Ok(())
}

/// Compacts a projection in memory.
pub fn compact_eager(
    metadata: &ColumnarProjectionMetadata,
    groups: &[RowGroup],
    added: &DeltaOverlay<Vec<ScalarValue>>,
    table: &TableDef,
    generation: ColumnarGeneration,
) -> (compacted: Result<PreparedColumnarProjection, ColumnarError>)
    requires
        forall|i: int| 0 <= i < groups@.len() ==> scan::group_sound((#[trigger] groups@[i])@),
        overlay::overlay_kept(added@),
    ensures
        eager_offers(
            group::groups_view(groups@),
            overlay::values_overlay(added@),
        ).len() <= u64::MAX ==> prepare::prepares(
            compacted,
            eager_compaction(
                metadata@,
                group::groups_view(groups@),
                overlay::values_overlay(added@),
                *table,
                generation,
            ),
        ),
{
    let cursor: ChangeStreamCursor = check_compaction(metadata, table, generation)?;
    let ghost known = group::groups_view(groups@);
    let ghost rows = overlay::values_overlay(added@);
    let ghost suppressed = added.suppressed@;
    let ghost whole = eager_offers(known, rows);
    let ghost n = known.len() as int;
    let ghost expected = eager_compaction(metadata@, known, rows, *table, generation);
    let group_rows: usize = if groups.len() == 0 {
        DEFAULT_ROW_GROUP_ROWS
    } else {
        assert(scan::group_sound(groups@[0]@));
        groups[0].rows as usize
    };
    let ghost order = compaction_order(metadata@, generation, group_rows);
    let ghost plan = prepare::order_plan(order);
    let mut gatherer: GroupGatherer = GroupGatherer::new(
        Ghost(plan),
        metadata::copy_columns(metadata.columns.as_slice()),
        true,
        group_rows,
    );
    let mut seen: SeenVersions = SeenVersions::new();
    let ghost mut done: Seq<Offer> = Seq::empty();
    let mut i: usize = 0;
    while i < groups.len()
        invariant
            i <= groups@.len(),
            n == groups@.len(),
            known == group::groups_view(groups@),
            suppressed == added.suppressed@,
            rows == overlay::values_overlay(added@),
            overlay::overlay_kept(added@),
            forall|k: int| 0 <= k < groups@.len() ==> scan::group_sound((#[trigger] groups@[k])@),
            whole == eager_offers(known, rows),
            plan == prepare::order_plan(order),
            order == compaction_order(metadata@, generation, group_rows),
            group_rows == compacted_rows(known),
            expected == eager_compaction(metadata@, known, rows, *table, generation),
            compaction_error(metadata@, *table, generation) is None,
            done == base_offers(known, suppressed, i as int),
            gathers(gatherer, seen, done),
            gatherer.plan@ == plan,
        decreases groups@.len() - i,
    {
        let ghost all = done + group_offers(known[i as int], suppressed);
        proof {
            assert(known[i as int] == groups@[i as int]@);
            lemma_base_front(known, suppressed, i + 1, n);
            assert(is_front(all, whole)) by {
                assert(all == base_offers(known, suppressed, i + 1));
            }
            if gather::gathered(plan, all, all.len() as int) is Err {
                lemma_front_fails(plan, all, whole);
            }
        }
        gather_group(
            &mut gatherer,
            &mut seen,
            &groups[i],
            added.suppressed.as_slice(),
            Ghost(done),
        )?;
        proof {
            done = all;
        }
        i = i + 1;
    }
    let ghost all = done + added_offers(rows, rows.live_keys.len() as int);
    assert(all == whole);
    proof {
        if gather::gathered(plan, whole, whole.len() as int) is Err {
            lemma_front_fails(plan, whole, whole);
        }
    }
    gather_added(&mut gatherer, &mut seen, added, Ghost(done))?;
    gatherer.end()?;
    let ghost pieces = gather::all_gathered(plan, whole)->Ok_0;
    let identity: SegmentIdentity = compaction_identity(metadata, generation);
    prepare::complete_gathered(
        identity,
        metadata.source_token,
        metadata::copy_columns(metadata.columns.as_slice()),
        Some(cursor),
        gatherer,
        Ghost(order),
        Ghost(pieces),
    )
}

} // verus!
