//! Compaction of indexed projections, one group or one added row at a time.
use super::base::{self, BaseBuilder};
use super::block::{self, LazyGroupView, LazyRowGroup};
use super::compact;
use super::delta;
use super::error::ColumnarError;
use super::feed::Offer;
use super::group::TableDef;
use super::indexed::{self, LazyProjection, LazyView};
use super::lazy_scan::{self, VersionContext};
use super::metadata::{
    self, ColumnarProjectionMetadata, MetadataView, SegmentIdentity, DEFAULT_ROW_GROUP_ROWS,
};
use super::overlay::{self, DeltaRowRef};
use super::payload::{self, BlockRequest, Fetched};
use super::prepare::{
    self, BaseOrder, PreparedColumnarProjection, PreparedView, StreamingProjection,
};
use super::scan::ColumnarScanStatistics;
use super::vector::{ColumnarVector, VectorView};
use super::writer;
use crate::bytes;
use crate::change_stream::stream::ChangeStreamCursor;
use crate::change_stream::types::StorageVersionKey;
use crate::ids::ColumnarGeneration;
use crate::value::{self, ScalarValue, ScalarView};
use vstd::prelude::*;

verus! {

// ---------------------------------------------------------------------------
// Groups
// ---------------------------------------------------------------------------
/// The blocks of the first `n` columns of a group.
pub open spec fn all_column_requests(known: LazyGroupView, file: usize, n: int) -> Seq<BlockRequest>
    decreases n,
{
    if n <= 0 {
        Seq::empty()
    } else {
        all_column_requests(known, file, n - 1).push(
            BlockRequest { file, block: known.columns[n - 1].block },
        )
    }
}

/// The blocks that the compaction of a group of the base segment needs.
pub open spec fn group_needs(known: LazyGroupView) -> Seq<BlockRequest> {
    match known.source_versions {
        None => Seq::empty(),
        Some(at) => seq![BlockRequest { file: 0, block: at }] + all_column_requests(
            known,
            0,
            known.columns.len() as int,
        ),
    }
}

/// The first `n` columns of a group, out of blocks from `at` on.
pub open spec fn all_vectors(
    known: LazyGroupView,
    blocks: Seq<Fetched>,
    at: int,
    path: String,
    n: int,
) -> Result<Seq<VectorView>, ColumnarError>
    decreases n,
{
    if n <= 0 {
        Ok(Seq::empty())
    } else {
        match all_vectors(known, blocks, at, path, n - 1) {
            Err(error) => Err(error),
            Ok(earlier) => match payload::column_read(
                blocks[at + n - 1],
                known.columns[n - 1],
                known.rows,
                path,
            ) {
                Err(error) => Err(error),
                Ok(found) => Ok(earlier.push(found)),
            },
        }
    }
}

/// Statistics after the first `n` columns of a group were read.
pub open spec fn all_counted(
    known: LazyGroupView,
    delta: bool,
    statistics: ColumnarScanStatistics,
    n: int,
) -> ColumnarScanStatistics
    decreases n,
{
    if n <= 0 {
        statistics
    } else {
        payload::column_counted(
            all_counted(known, delta, statistics, n - 1),
            known.columns[n - 1].block.length,
            delta,
        )
    }
}

/// The rows of a group that were not replaced, as offers, out of its blocks.
pub open spec fn lazy_group_offers(
    known: LazyGroupView,
    context: VersionContext,
    suppressed: Seq<StorageVersionKey>,
    blocks: Seq<Fetched>,
    path: String,
) -> Seq<Offer> {
    match lazy_scan::group_versions(known, context, blocks, 0, path) {
        Err(error) => seq![compact::refused_offer(error)],
        Ok(keys) => match all_vectors(known, blocks, 1, path, known.columns.len() as int) {
            Err(error) => seq![compact::refused_offer(error)],
            Ok(vectors) => compact::kept_offers(
                keys,
                suppressed,
                vectors,
                keys.len() as int,
            ),
        },
    }
}

proof fn lemma_vectors_stop(
    known: LazyGroupView,
    blocks: Seq<Fetched>,
    at: int,
    path: String,
    n: int,
    m: int,
)
    requires
        n <= m,
        all_vectors(known, blocks, at, path, n) is Err,
    ensures
        all_vectors(known, blocks, at, path, m) == all_vectors(known, blocks, at, path, n),
    decreases m - n,
{
    if n < m {
        lemma_vectors_stop(known, blocks, at, path, n, m - 1);
    }
}

fn read_all_vectors(
    known: &LazyRowGroup,
    blocks: &[Fetched],
    at: usize,
    path: &String,
    delta: bool,
    statistics: &mut ColumnarScanStatistics,
) -> (read: Result<Vec<ColumnarVector>, ColumnarError>)
    requires
        at + known.columns@.len() <= blocks@.len(),
    ensures
        match all_vectors(known@, blocks@, at as int, *path, known.columns@.len() as int) {
            Ok(vectors) => {
                &&& read is Ok
                &&& delta::vectors_view(read->Ok_0@) == vectors
                &&& vectors.len() == known.columns@.len()
                &&& lazy_scan::vectors_sound(vectors, known.rows)
                &&& *final(statistics) == all_counted(
                    known@,
                    delta,
                    *old(statistics),
                    known.columns@.len() as int,
                )
            },
            Err(error) => read == Err::<Vec<ColumnarVector>, ColumnarError>(error),
        },
{
    let length: usize = blocks.len();
    let mut vectors: Vec<ColumnarVector> = Vec::new();
    assert(delta::vectors_view(vectors@) =~= Seq::empty());
    let mut i: usize = 0;
    while i < known.columns.len()
        invariant
            i <= known.columns@.len(),
            at + known.columns@.len() <= blocks@.len(),
            length == blocks@.len(),
            vectors@.len() == i,
            all_vectors(known@, blocks@, at as int, *path, i as int) == Ok::<
                Seq<VectorView>,
                ColumnarError,
            >(delta::vectors_view(vectors@)),
            lazy_scan::vectors_sound(delta::vectors_view(vectors@), known.rows),
            *statistics == all_counted(known@, delta, *old(statistics), i as int),
        decreases known.columns@.len() - i,
    {
        proof {
            assert(known@.columns[i as int] == known.columns@[i as int]@);
            if all_vectors(known@, blocks@, at as int, *path, i + 1) is Err {
                lemma_vectors_stop(
                    known@,
                    blocks@,
                    at as int,
                    *path,
                    i + 1,
                    known.columns@.len() as int,
                );
            }
        }
        let found: ColumnarVector = payload::read_column_block(
            &blocks[at + i],
            &known.columns[i],
            known.rows,
            delta,
            path,
            statistics,
        )?;
        let ghost before = delta::vectors_view(vectors@);
        let ghost last = found@;
        vectors.push(found);
        i = i + 1;
        assert(delta::vectors_view(vectors@) =~= before.push(last));
    }
    Ok(vectors)
}

/// The blocks that the compaction of a group of the base segment needs.
pub fn plan_group(lazy: &LazyProjection, place: usize) -> (requests: Vec<BlockRequest>)
    requires
        place < lazy.base_groups@.len(),
    ensures
        requests@ == group_needs(lazy@.base_groups[place as int]),
{
    let known: &LazyRowGroup = &lazy.base_groups[place];
    assert(lazy@.base_groups[place as int] == known@);
    let mut output: Vec<BlockRequest> = Vec::new();
    if let Some(at) = known.source_versions {
        output.push(BlockRequest { file: 0, block: at });
        push_all_columns(&mut output, known, 0);
        assert(output@ =~= group_needs(known@));
    } else {
        assert(output@ =~= group_needs(known@));
    }
    output
}

fn push_all_columns(output: &mut Vec<BlockRequest>, known: &LazyRowGroup, file: usize)
    ensures
        final(output)@ == old(output)@ + all_column_requests(
            known@,
            file,
            known.columns@.len() as int,
        ),
        final(output)@.len() == old(output)@.len() + known.columns@.len(),
{
    let mut i: usize = 0;
    assert(output@ + all_column_requests(known@, file, 0) =~= output@);
    while i < known.columns.len()
        invariant
            i <= known.columns@.len(),
            output@ == old(output)@ + all_column_requests(known@, file, i as int),
            output@.len() == old(output)@.len() + i,
        decreases known.columns@.len() - i,
    {
        assert(known@.columns[i as int] == known.columns@[i as int]@);
        output.push(BlockRequest { file, block: known.columns[i].block });
        i = i + 1;
        assert(output@ =~= old(output)@ + all_column_requests(known@, file, i as int));
    }
}

/// A group has as many blocks as columns.
pub proof fn lemma_all_requests_len(known: LazyGroupView, file: usize, n: int)
    requires
        0 <= n,
    ensures
        all_column_requests(known, file, n).len() == n,
    decreases n,
{
    if n > 0 {
        lemma_all_requests_len(known, file, n - 1);
    }
}

// ---------------------------------------------------------------------------
// Added rows
// ---------------------------------------------------------------------------
/// The first group from `from` on that ends behind a row.
pub open spec fn home_from(groups: Seq<LazyGroupView>, row: u64, from: int) -> Option<int>
    decreases groups.len() - from,
{
    if from >= groups.len() {
        None
    } else if row < indexed::group_start(groups, from + 1) {
        Some(from)
    } else {
        home_from(groups, row, from + 1)
    }
}

/// The group of a delta segment that a row is in.
pub open spec fn home_of(deltas: Seq<Seq<LazyGroupView>>, reference: DeltaRowRef) -> Option<int> {
    if reference.segment >= deltas.len() {
        None
    } else {
        home_from(deltas[reference.segment as int], reference.row, 0)
    }
}

/// The blocks that an added row needs.
pub open spec fn row_needs(known: LazyView, reference: DeltaRowRef) -> Seq<BlockRequest> {
    match home_of(known.deltas, reference) {
        None => Seq::empty(),
        Some(place) => {
            let home = known.deltas[reference.segment as int][place];
            all_column_requests(
                home,
                (reference.segment + 1) as usize,
                home.columns.len() as int,
            )
        },
    }
}

/// An added row, out of the blocks of its group.
pub open spec fn added_row(
    known: LazyView,
    incremental: bool,
    reference: DeltaRowRef,
    blocks: Seq<Fetched>,
) -> Result<Seq<ScalarView>, ColumnarError> {
    if reference.segment >= known.deltas.len() {
        Err(ColumnarError::Corrupt("delta row references an unknown segment"))
    } else {
        let groups = known.deltas[reference.segment as int];
        match home_of(known.deltas, reference) {
            None => Err(
                ColumnarError::Corrupt(
                    if incremental {
                        "delta row reference is out of bounds"
                    } else {
                        "delta row reference exists on snapshot projection"
                    },
                ),
            ),
            Some(place) => match all_vectors(
                groups[place],
                blocks,
                0,
                known.paths[reference.segment + 1],
                groups[place].columns.len() as int,
            ) {
                Err(error) => Err(error),
                Ok(vectors) => Ok(
                    lazy_scan::row_of(
                        vectors,
                        reference.row - indexed::group_start(groups, place),
                    ),
                ),
            },
        }
    }
}

/// An added row as an offer, out of the blocks of its group.
pub open spec fn lazy_added_offer(
    known: LazyView,
    incremental: bool,
    i: int,
    blocks: Seq<Fetched>,
) -> Offer {
    let read = added_row(known, incremental, known.added.live_rows[i], blocks);
    Offer {
        lead: None,
        key: known.added.live_keys[i],
        duplicate: ColumnarError::Corrupt("delta version duplicates a retained base version"),
        fault: match read {
            Ok(_) => None,
            Err(error) => Some(error),
        },
        row: match read {
            Ok(row) => row,
            Err(_) => Seq::empty(),
        },
    }
}

/// A row is in the group that it is found in.
pub proof fn lemma_home(groups: Seq<LazyGroupView>, row: u64, from: int)
    requires
        0 <= from,
        indexed::group_start(groups, from) <= row,
    ensures
        home_from(groups, row, from) matches Some(place) ==> {
            &&& from <= place < groups.len()
            &&& indexed::group_start(groups, place) <= row
            &&& row - indexed::group_start(groups, place) < groups[place].rows
        },
    decreases groups.len() - from,
{
    if from < groups.len() && row >= indexed::group_start(groups, from + 1) {
        lemma_home(groups, row, from + 1);
    }
}

fn find_home(groups: &[LazyRowGroup], row: u64) -> (home: Option<(usize, u64)>)
    ensures
        ({
            let known = block::lazy_groups_view(groups@);
            match home_from(known, row, 0) {
                None => home is None,
                Some(place) => {
                    &&& home is Some
                    &&& (home->0).0 == place
                    &&& (home->0).0 < groups@.len()
                    &&& (home->0).1 == indexed::group_start(known, place)
                    &&& (home->0).1 <= row
                    &&& row - (home->0).1 < known[place].rows
                },
            }
        }),
{
    let ghost known = block::lazy_groups_view(groups@);
    let mut start: u64 = 0;
    let mut i: usize = 0;
    proof {
        lemma_home(known, row, 0);
    }
    while i < groups.len()
        invariant
            i <= groups@.len(),
            known == block::lazy_groups_view(groups@),
            start == indexed::group_start(known, i as int),
            home_from(known, row, 0) == home_from(known, row, i as int),
            home_from(known, row, 0) matches Some(place) ==> {
                &&& 0 <= place < known.len()
                &&& indexed::group_start(known, place) <= row
                &&& row - indexed::group_start(known, place) < known[place].rows
            },
        decreases groups@.len() - i,
    {
        assert(known[i as int] == groups@[i as int]@);
        let end: u64 = start.saturating_add(groups[i].rows as u64);
        if row < end {
            return Some((i, start));
        }
        start = end;
        i = i + 1;
    }
    None
}

/// The blocks that an added row needs.
pub fn plan_added(lazy: &LazyProjection, place: usize) -> (requests: Vec<BlockRequest>)
    requires
        place < lazy.overlay.live_rows@.len(),
        indexed::indexed_kept(lazy@),
    ensures
        requests@ == row_needs(lazy@, lazy@.added.live_rows[place as int]),
{
    let reference: DeltaRowRef = lazy.overlay.live_rows[place];
    let mut output: Vec<BlockRequest> = Vec::new();
    if (reference.segment as usize) < lazy.deltas.len() {
        let groups: &Vec<LazyRowGroup> = &lazy.deltas[reference.segment as usize].groups;
        assert(lazy@.deltas[reference.segment as int] == block::lazy_groups_view(groups@));
        if let Some((home, _)) = find_home(groups.as_slice(), reference.row) {
            push_all_columns(&mut output, &groups[home], reference.segment as usize + 1);
        }
    }
    assert(output@ =~= row_needs(lazy@, reference));
    output
}

/// Reads an added row out of the blocks of its group.
pub fn read_lazy_delta_row(
    lazy: &LazyProjection,
    incremental: bool,
    reference: DeltaRowRef,
    blocks: &[Fetched],
    statistics: &mut ColumnarScanStatistics,
) -> (read: Result<Vec<ScalarValue>, ColumnarError>)
    requires
        indexed::indexed_kept(lazy@),
        blocks@.len() == row_needs(lazy@, reference).len(),
    ensures
        match added_row(lazy@, incremental, reference, blocks@) {
            Ok(row) => {
                let home = lazy@.deltas[reference.segment as int][home_of(
                    lazy@.deltas,
                    reference,
                )->0];
                &&& read is Ok
                &&& value::row_view(read->Ok_0@) == row
                &&& *final(statistics) == all_counted(
                    home,
                    true,
                    *old(statistics),
                    home.columns.len() as int,
                )
            },
            Err(error) => read == Err::<Vec<ScalarValue>, ColumnarError>(error),
        },
{
    if reference.segment as usize >= lazy.deltas.len() {
        return Err(ColumnarError::Corrupt("delta row references an unknown segment"));
    }
    let groups: &Vec<LazyRowGroup> = &lazy.deltas[reference.segment as usize].groups;
    assert(lazy@.deltas[reference.segment as int] == block::lazy_groups_view(groups@));
    let (home, start) = match find_home(groups.as_slice(), reference.row) {
        Some(found) => found,
        None => {
            return Err(
                ColumnarError::Corrupt(
                    if incremental {
                        "delta row reference is out of bounds"
                    } else {
                        "delta row reference exists on snapshot projection"
                    },
                ),
            );
        },
    };
    let known: &LazyRowGroup = &groups[home];
    proof {
        lemma_all_requests_len(
            known@,
            (reference.segment + 1) as usize,
            known.columns@.len() as int,
        );
    }
    let vectors: Vec<ColumnarVector> = read_all_vectors(
        known,
        blocks,
        0,
        &lazy.paths[reference.segment as usize + 1],
        true,
        statistics,
    )?;
    let local: usize = (reference.row - start) as usize;
    let ghost shown = delta::vectors_view(vectors@);
    proof {
        lazy_scan::lemma_row_of(shown, known.rows, local as int, shown.len() as int);
        assert(lazy_scan::row_of(shown, local as int).take(shown.len() as int)
            =~= lazy_scan::row_of(shown, local as int));
    }
    delta::read_row(vectors.as_slice(), local)
}

// ---------------------------------------------------------------------------
// Whole compaction
// ---------------------------------------------------------------------------
/// How many rows the groups of a compacted base segment have.
pub open spec fn lazy_compacted_rows(groups: Seq<LazyGroupView>) -> usize {
    if groups.len() == 0 {
        DEFAULT_ROW_GROUP_ROWS
    } else {
        groups[0].rows as usize
    }
}

/// What the compaction of an indexed projection prepares.
pub open spec fn lazy_order(known: MetadataView, lazy: LazyView, generation: ColumnarGeneration)
    -> BaseOrder {
    compact::compaction_order(known, generation, lazy_compacted_rows(lazy.base_groups))
}

/// The rows of the first `n` groups of the base segment that were not replaced,
/// as offers.
pub open spec fn lazy_base_offers(
    lazy: LazyView,
    context: VersionContext,
    blocks: Seq<Vec<Fetched>>,
    n: int,
) -> Seq<Offer>
    decreases n,
{
    if n <= 0 {
        Seq::empty()
    } else {
        lazy_base_offers(lazy, context, blocks, n - 1) + lazy_group_offers(
            lazy.base_groups[n - 1],
            context,
            lazy.added.suppressed,
            blocks[n - 1]@,
            lazy.paths[0],
        )
    }
}

/// The first `n` added rows as offers.
pub open spec fn lazy_added_offers(
    lazy: LazyView,
    incremental: bool,
    blocks: Seq<Vec<Fetched>>,
    n: int,
) -> Seq<Offer>
    decreases n,
{
    if n <= 0 {
        Seq::empty()
    } else {
        lazy_added_offers(lazy, incremental, blocks, n - 1).push(
            lazy_added_offer(lazy, incremental, n - 1, blocks[n - 1]@),
        )
    }
}

/// The rows of an indexed projection, as offers to its compacted base segment.
/// For each group, and for each added row, there are the blocks that it needs.
pub open spec fn lazy_offers(
    known: MetadataView,
    lazy: LazyView,
    base_blocks: Seq<Vec<Fetched>>,
    added_blocks: Seq<Vec<Fetched>>,
) -> Seq<Offer> {
    lazy_base_offers(
        lazy,
        lazy_scan::context_of(known),
        base_blocks,
        lazy.base_groups.len() as int,
    ) + lazy_added_offers(
        lazy,
        known.incremental is Some,
        added_blocks,
        lazy.added.live_keys.len() as int,
    )
}

/// The compaction of an indexed projection.
pub open spec fn lazy_compaction(
    known: MetadataView,
    lazy: LazyView,
    table: TableDef,
    generation: ColumnarGeneration,
    base_blocks: Seq<Vec<Fetched>>,
    added_blocks: Seq<Vec<Fetched>>,
) -> Result<PreparedView, ColumnarError> {
    match compact::compaction_error(known, table, generation) {
        Some(error) => Err(error),
        None => prepare::prepared_by_row(
            lazy_order(known, lazy, generation),
            lazy_offers(known, lazy, base_blocks, added_blocks),
        ),
    }
}

/// Whether there are the blocks that compaction needs.
pub open spec fn has_blocks(
    lazy: LazyView,
    base_blocks: Seq<Vec<Fetched>>,
    added_blocks: Seq<Vec<Fetched>>,
) -> bool {
    &&& base_blocks.len() == lazy.base_groups.len()
    &&& added_blocks.len() == lazy.added.live_rows.len()
    &&& forall|i: int|
        0 <= i < base_blocks.len() ==> (#[trigger] base_blocks[i])@.len() == group_needs(
            lazy.base_groups[i],
        ).len()
    &&& forall|i: int|
        0 <= i < added_blocks.len() ==> (#[trigger] added_blocks[i])@.len() == row_needs(
            lazy,
            lazy.added.live_rows[i],
        ).len()
}

/// Whether all offers were taken, or it was said why not.
pub open spec fn offers_all(
    result: Result<Vec<u8>, ColumnarError>,
    before: StreamingProjection,
    after: StreamingProjection,
    all: Seq<Offer>,
) -> bool {
    match result {
        Ok(appended) => {
            &&& after.wf()
            &&& after.order() == before.order()
            &&& after.offers() == all
            &&& after.builder.written() == before.builder.written() + appended@
        },
        Err(error) => all.len() > u64::MAX || base::built(
            prepare::order_plan(before.order()),
            all,
            all.len() as int,
        ) == Err::<(Seq<writer::Piece>, writer::Piece), ColumnarError>(error),
    }
}

/// Starts the compaction of an indexed projection into a generation.
pub fn start_compaction(
    metadata: &ColumnarProjectionMetadata,
    lazy: &LazyProjection,
    table: &TableDef,
    generation: ColumnarGeneration,
) -> (started: Result<StreamingProjection, ColumnarError>)
    requires
        indexed::indexed_kept(lazy@),
    ensures
        match compact::compaction_error(metadata@, *table, generation) {
            Some(error) => started == Err::<StreamingProjection, ColumnarError>(error),
            None => {
                &&& started is Ok
                &&& started->Ok_0.wf()
                &&& started->Ok_0.order() == lazy_order(metadata@, lazy@, generation)
                &&& started->Ok_0.offers() == Seq::<Offer>::empty()
                &&& started->Ok_0.builder.written() == Seq::<u8>::empty()
            },
        },
{
    let cursor: ChangeStreamCursor = compact::check_compaction(metadata, table, generation)?;
    let group_rows: usize = if lazy.base_groups.len() == 0 {
        DEFAULT_ROW_GROUP_ROWS
    } else {
        assert(lazy@.base_groups[0] == lazy.base_groups@[0]@);
        lazy.base_groups[0].rows as usize
    };
    let identity: SegmentIdentity = compact::compaction_identity(metadata, generation);
    assert(identity == prepare::order_identity(lazy_order(metadata@, lazy@, generation)));
    let builder: BaseBuilder = BaseBuilder::new(
        identity,
        metadata.source_token.kind,
        metadata::copy_columns(metadata.columns.as_slice()),
        true,
        group_rows,
        "row count overflow",
    );
    Ok(StreamingProjection { builder, token: metadata.source_token, cursor: Some(cursor) })
}

fn offer_row(
    stream: &mut StreamingProjection,
    key: StorageVersionKey,
    duplicate: &'static str,
    fault: Option<ColumnarError>,
    row: Vec<ScalarValue>,
) -> (offered: Result<Vec<u8>, ColumnarError>)
    requires
        old(stream).wf(),
        old(stream).cursor is Some,
    ensures
        offers_all(
            offered,
            *old(stream),
            *final(stream),
            old(stream).offers().push(
                Offer {
                    lead: None,
                    key,
                    duplicate: ColumnarError::Corrupt(duplicate),
                    fault,
                    row: value::row_view(row@),
                },
            ),
        ),
        offered is Ok ==> final(stream).cursor == old(stream).cursor,
{
    let ghost grown = stream.offers().push(
        Offer {
            lead: None,
            key,
            duplicate: ColumnarError::Corrupt(duplicate),
            fault,
            row: value::row_view(row@),
        },
    );
    assert(stream.builder.offers@.len() == stream.builder.writer.row_count);
    stream.builder.offer(None, Some(key), ColumnarError::Corrupt(duplicate), fault, row)
}

/// Compacts a group of the base segment, out of the blocks that it needs, and
/// gives what is appended to the new segment's file.
pub fn compact_group(
    stream: &mut StreamingProjection,
    metadata: &ColumnarProjectionMetadata,
    lazy: &LazyProjection,
    place: usize,
    blocks: &[Fetched],
) -> (compacted: Result<Vec<u8>, ColumnarError>)
    requires
        old(stream).wf(),
        old(stream).cursor is Some,
        indexed::indexed_kept(lazy@),
        place < lazy.base_groups@.len(),
        blocks@.len() == group_needs(lazy@.base_groups[place as int]).len(),
    ensures
        offers_all(
            compacted,
            *old(stream),
            *final(stream),
            old(stream).offers() + lazy_group_offers(
                lazy@.base_groups[place as int],
                lazy_scan::context_of(metadata@),
                lazy@.added.suppressed,
                blocks@,
                lazy@.paths[0],
            ),
        ),
        compacted is Ok ==> final(stream).cursor == old(stream).cursor,
{
    let known: &LazyRowGroup = &lazy.base_groups[place];
    assert(lazy@.base_groups[place as int] == known@);
    let context: VersionContext = VersionContext {
        storage_id: metadata.source_storage_id,
        kind: metadata.source_token.kind,
    };
    let ghost suppressed = lazy.overlay.suppressed@;
    let ghost done = stream.offers();
    let ghost plan = prepare::order_plan(stream.order());
    let ghost all = done + lazy_group_offers(known@, context, suppressed, blocks@, lazy.paths@[0]);
    let ghost written = stream.builder.written();
    let mut statistics: ColumnarScanStatistics = ColumnarScanStatistics::default();
    proof {
        if known.source_versions is Some {
            lemma_all_requests_len(known@, 0, known.columns@.len() as int);
        }
        if all.len() == done.len() + 1 && all[done.len() as int].lead is Some {
            lemma_lead_refuses(plan, done, all);
        }
    }
    let keys: Vec<StorageVersionKey> = lazy_scan::read_group_versions(
        known,
        &context,
        blocks,
        0,
        &lazy.paths[0],
        &mut statistics,
    )?;
    let vectors: Vec<ColumnarVector> = read_all_vectors(
        known,
        blocks,
        1,
        &lazy.paths[0],
        false,
        &mut statistics,
    )?;
    let ghost shown = delta::vectors_view(vectors@);
    let ghost n = keys@.len() as int;
    let ghost order = stream.order();
    let mut output: Vec<u8> = Vec::new();
    let mut row: usize = 0;
    assert(done + compact::kept_offers(keys@, suppressed, shown, 0) =~= done);
    while row < keys.len()
        invariant
            row <= keys@.len(),
            n == keys@.len(),
            known.rows == keys@.len(),
            suppressed == lazy.overlay.suppressed@,
            indexed::indexed_kept(lazy@),
            shown == delta::vectors_view(vectors@),
            lazy_scan::vectors_sound(shown, known.rows),
            all == done + compact::kept_offers(keys@, suppressed, shown, n),
            all == done + lazy_group_offers(
                lazy@.base_groups[place as int],
                lazy_scan::context_of(metadata@),
                lazy@.added.suppressed,
                blocks@,
                lazy@.paths[0],
            ),
            plan == prepare::order_plan(order),
            order == old(stream).order(),
            done == old(stream).offers(),
            written == old(stream).builder.written(),
            old(stream).cursor is Some,
            stream.wf(),
            stream.order() == order,
            stream.cursor == old(stream).cursor,
            stream.offers() == done + compact::kept_offers(keys@, suppressed, shown, row as int),
            stream.builder.written() == written + output@,
        decreases keys@.len() - row,
    {
        let key: StorageVersionKey = keys[row];
        proof {
            compact::lemma_kept_front(keys@, suppressed, shown, row + 1, n);
        }
        if !overlay::search(lazy.overlay.suppressed.as_slice(), key).1 {
            proof {
                lazy_scan::lemma_row_of(shown, known.rows, row as int, shown.len() as int);
                assert(lazy_scan::row_of(shown, row as int).take(shown.len() as int)
                    =~= lazy_scan::row_of(shown, row as int));
            }
            let values: Vec<ScalarValue> = delta::read_row(vectors.as_slice(), row)?;
            let ghost grown = stream.offers().push(
                compact::kept_offer(key, value::row_view(values@)),
            );
            proof {
                assert(grown =~= done + compact::kept_offers(keys@, suppressed, shown, row + 1));
                assert(compact::is_front(grown, all));
                if base::built(plan, grown, grown.len() as int) is Err {
                    base::lemma_built_same(plan, grown, all, grown.len() as int);
                    base::lemma_built_prefix(plan, all, grown.len() as int, all.len() as int);
                }
            }
            let ghost before = output@;
            let appended: Vec<u8> = offer_row(
                stream,
                key,
                "duplicate retained source version during compaction",
                None,
                values,
            )?;
            bytes::push_bytes(&mut output, appended.as_slice());
            assert(stream.builder.written() =~= written + output@);
        }
        row = row + 1;
    }
    Ok(output)
}

proof fn lemma_lead_refuses(plan: writer::SegmentPlan, done: Seq<Offer>, all: Seq<Offer>)
    requires
        all.len() == done.len() + 1,
        forall|i: int| 0 <= i < done.len() ==> all[i] == done[i],
        all[done.len() as int].lead is Some,
        base::built(plan, done, done.len() as int) is Ok,
    ensures
        base::built(plan, all, all.len() as int) == Err::<
            (Seq<writer::Piece>, writer::Piece),
            ColumnarError,
        >(all[done.len() as int].lead->0),
{
    base::lemma_built_same(plan, done, all, done.len() as int);
}

/// Compacts an added row, out of the blocks that it needs, and gives what is
/// appended to the new segment's file.
pub fn compact_added(
    stream: &mut StreamingProjection,
    metadata: &ColumnarProjectionMetadata,
    lazy: &LazyProjection,
    place: usize,
    blocks: &[Fetched],
) -> (compacted: Result<Vec<u8>, ColumnarError>)
    requires
        old(stream).wf(),
        old(stream).cursor is Some,
        indexed::indexed_kept(lazy@),
        place < lazy.overlay.live_keys@.len(),
        blocks@.len() == row_needs(lazy@, lazy@.added.live_rows[place as int]).len(),
    ensures
        offers_all(
            compacted,
            *old(stream),
            *final(stream),
            old(stream).offers().push(
                lazy_added_offer(
                    lazy@,
                    metadata@.incremental is Some,
                    place as int,
                    blocks@,
                ),
            ),
        ),
        compacted is Ok ==> final(stream).cursor == old(stream).cursor,
{
    let mut statistics: ColumnarScanStatistics = ColumnarScanStatistics::default();
    let key: StorageVersionKey = lazy.overlay.live_keys[place];
    let incremental: bool = metadata.incremental.is_some();
    assert(incremental == (metadata@.incremental is Some));
    let read: Result<Vec<ScalarValue>, ColumnarError> = read_lazy_delta_row(
        lazy,
        incremental,
        lazy.overlay.live_rows[place],
        blocks,
        &mut statistics,
    );
    let (fault, row): (Option<ColumnarError>, Vec<ScalarValue>) = match read {
        Ok(row) => (None, row),
        Err(error) => {
            let none: Vec<ScalarValue> = Vec::new();
            assert(value::row_view(none@) =~= Seq::empty());
            (Some(error), none)
        },
    };
    offer_row(stream, key, "delta version duplicates a retained base version", fault, row)
}

proof fn lemma_base_offers_front(
    lazy: LazyView,
    context: VersionContext,
    blocks: Seq<Vec<Fetched>>,
    n: int,
    m: int,
)
    requires
        n <= m,
    ensures
        compact::is_front(
            lazy_base_offers(lazy, context, blocks, n),
            lazy_base_offers(lazy, context, blocks, m),
        ),
    decreases m - n,
{
    if n < m {
        lemma_base_offers_front(lazy, context, blocks, n, m - 1);
    }
}

proof fn lemma_added_offers_front(
    lazy: LazyView,
    incremental: bool,
    blocks: Seq<Vec<Fetched>>,
    n: int,
    m: int,
)
    requires
        n <= m,
    ensures
        compact::is_front(
            lazy_added_offers(lazy, incremental, blocks, n),
            lazy_added_offers(lazy, incremental, blocks, m),
        ),
    decreases m - n,
{
    if n < m {
        lemma_added_offers_front(lazy, incremental, blocks, n, m - 1);
    }
}

proof fn lemma_front_stops(order: BaseOrder, front: Seq<Offer>, whole: Seq<Offer>)
    requires
        compact::is_front(front, whole),
        base::built(prepare::order_plan(order), front, front.len() as int) is Err,
    ensures
        prepare::prepared_by_row(order, whole) == Err::<PreparedView, ColumnarError>(
            base::built(prepare::order_plan(order), front, front.len() as int)->Err_0,
        ),
{
    let plan = prepare::order_plan(order);
    base::lemma_built_same(plan, front, whole, front.len() as int);
    base::lemma_built_prefix(plan, whole, front.len() as int, whole.len() as int);
}

/// Compacts an indexed projection, out of the blocks that its groups and its
/// added rows need.
#[verifier::rlimit(60)]
pub fn prepare_lazy_compaction(
    metadata: &ColumnarProjectionMetadata,
    lazy: &LazyProjection,
    table: &TableDef,
    generation: ColumnarGeneration,
    base_blocks: &[Vec<Fetched>],
    added_blocks: &[Vec<Fetched>],
) -> (compacted: Result<PreparedColumnarProjection, ColumnarError>)
    requires
        indexed::indexed_kept(lazy@),
        has_blocks(lazy@, base_blocks@, added_blocks@),
    ensures
        lazy_offers(metadata@, lazy@, base_blocks@, added_blocks@).len() <= u64::MAX
            ==> prepare::prepares(
            compacted,
            lazy_compaction(
                metadata@,
                lazy@,
                *table,
                generation,
                base_blocks@,
                added_blocks@,
            ),
        ),
{
    let ghost whole = lazy_offers(metadata@, lazy@, base_blocks@, added_blocks@);
    let ghost context = lazy_scan::context_of(metadata@);
    let ghost incremental = metadata@.incremental is Some;
    let ghost n = lazy@.base_groups.len() as int;
    let ghost m = lazy@.added.live_keys.len() as int;
    let ghost expected = lazy_compaction(
        metadata@,
        lazy@,
        *table,
        generation,
        base_blocks@,
        added_blocks@,
    );
    let mut stream: StreamingProjection = start_compaction(metadata, lazy, table, generation)?;
    let ghost order = stream.order();
    let ghost plan = prepare::order_plan(order);
    let mut output: Vec<u8> = Vec::new();
    let mut i: usize = 0;
    while i < lazy.base_groups.len()
        invariant
            i <= lazy.base_groups@.len(),
            n == lazy.base_groups@.len(),
            indexed::indexed_kept(lazy@),
            has_blocks(lazy@, base_blocks@, added_blocks@),
            context == lazy_scan::context_of(metadata@),
            whole == lazy_offers(metadata@, lazy@, base_blocks@, added_blocks@),
            plan == prepare::order_plan(order),
            expected == prepare::prepared_by_row(order, whole),
            expected == lazy_compaction(
                metadata@,
                lazy@,
                *table,
                generation,
                base_blocks@,
                added_blocks@,
            ),
            stream.wf(),
            stream.order() == order,
            stream.cursor is Some,
            stream.offers() == lazy_base_offers(lazy@, context, base_blocks@, i as int),
            stream.builder.written() == output@,
        decreases lazy.base_groups@.len() - i,
    {
        let ghost all = lazy_base_offers(lazy@, context, base_blocks@, i + 1);
        proof {
            lemma_base_offers_front(lazy@, context, base_blocks@, i + 1, n);
            assert(compact::is_front(all, whole));
            if base::built(plan, all, all.len() as int) is Err {
                lemma_front_stops(order, all, whole);
            }
        }
        let appended: Vec<u8> = compact_group(
            &mut stream,
            metadata,
            lazy,
            i,
            base_blocks[i].as_slice(),
        )?;
        bytes::push_bytes(&mut output, appended.as_slice());
        i = i + 1;
    }
    let ghost first = stream.offers();
    assert(first + lazy_added_offers(lazy@, incremental, added_blocks@, 0) =~= first);
    let mut j: usize = 0;
    while j < lazy.overlay.live_keys.len()
        invariant
            j <= lazy.overlay.live_keys@.len(),
            m == lazy.overlay.live_keys@.len(),
            n == lazy.base_groups@.len(),
            indexed::indexed_kept(lazy@),
            has_blocks(lazy@, base_blocks@, added_blocks@),
            context == lazy_scan::context_of(metadata@),
            incremental == (metadata@.incremental is Some),
            whole == lazy_offers(metadata@, lazy@, base_blocks@, added_blocks@),
            first == lazy_base_offers(lazy@, context, base_blocks@, n),
            plan == prepare::order_plan(order),
            expected == prepare::prepared_by_row(order, whole),
            expected == lazy_compaction(
                metadata@,
                lazy@,
                *table,
                generation,
                base_blocks@,
                added_blocks@,
            ),
            stream.wf(),
            stream.order() == order,
            stream.cursor is Some,
            stream.offers() == first + lazy_added_offers(
                lazy@,
                incremental,
                added_blocks@,
                j as int,
            ),
            stream.builder.written() == output@,
        decreases lazy.overlay.live_keys@.len() - j,
    {
        let ghost all = first + lazy_added_offers(lazy@, incremental, added_blocks@, j + 1);
        let ghost last = lazy_added_offer(lazy@, incremental, j as int, added_blocks@[j as int]@);
        proof {
            lemma_added_offers_front(lazy@, incremental, added_blocks@, j + 1, m);
            assert(compact::is_front(all, whole));
            assert(stream.offers().push(last) =~= all);
            if base::built(plan, all, all.len() as int) is Err {
                lemma_front_stops(order, all, whole);
            }
        }
        let appended: Vec<u8> = compact_added(
            &mut stream,
            metadata,
            lazy,
            j,
            added_blocks[j].as_slice(),
        )?;
        bytes::push_bytes(&mut output, appended.as_slice());
        j = j + 1;
    }
    assert(stream.offers() == whole);
    let completed: PreparedColumnarProjection = stream.finish()?;
    Ok(prepare::with_output(completed, output))
}

} // verus!
