//! Scans of indexed projections: the blocks of the wanted columns become batches.
use super::block::{self, BlockRef, LazyGroupView, LazyRowGroup};
use super::delta;
use super::error::ColumnarError;
use super::group::{self, ColumnarBatch, ColumnarBatchColumn};
use super::indexed::{self, LazyProjection, LazyView, Spot, SpotView};
use super::metadata::{ColumnarProjectionMetadata, MetadataView};
use super::overlay::{self, DeltaRowRef};
use super::payload::{self, Fetched};
use super::scan::{self, BatchView, ColumnarScanStatistics, Scanned};
use super::select;
use super::statistics::ColumnarConstraint;
use super::vector::{self, ColumnarColumnSpec, ColumnarVector, VectorView};
use super::version::SnapshotKind;
use crate::change_stream::types::StorageVersionKey;
use crate::ids::{ColumnId, StorageId};
use crate::value::{self, ScalarValue, ScalarView};
use std::collections::HashSet;
use vstd::prelude::*;

verus! {

broadcast use vstd::std_specs::hash::group_hash_axioms;

// ---------------------------------------------------------------------------
// Columns of a group
// ---------------------------------------------------------------------------
/// The first `n` wanted columns of a group, out of blocks from `at` on.
pub open spec fn vectors_read(
    known: LazyGroupView,
    columns: Seq<ColumnId>,
    blocks: Seq<Fetched>,
    at: int,
    file: usize,
    path: String,
    missing: &'static str,
    n: int,
) -> Result<Seq<VectorView>, ColumnarError>
    decreases n,
{
    if n <= 0 {
        Ok(Seq::empty())
    } else {
        match vectors_read(known, columns, blocks, at, file, path, missing, n - 1) {
            Err(error) => Err(error),
            Ok(earlier) => match indexed::chunk_place(known, columns[n - 1]) {
                None => Err(ColumnarError::Corrupt(missing)),
                Some(place) => match payload::column_read(
                    blocks[at + indexed::column_requests(known, columns, file, n - 1).len()],
                    known.columns[place],
                    known.rows,
                    path,
                ) {
                    Err(error) => Err(error),
                    Ok(found) => Ok(earlier.push(found)),
                },
            },
        }
    }
}

/// Statistics after the first `n` wanted columns of a group were read.
pub open spec fn vectors_counted(
    known: LazyGroupView,
    columns: Seq<ColumnId>,
    delta: bool,
    statistics: ColumnarScanStatistics,
    n: int,
) -> ColumnarScanStatistics
    decreases n,
{
    if n <= 0 {
        statistics
    } else {
        payload::column_counted(
            vectors_counted(known, columns, delta, statistics, n - 1),
            known.columns[indexed::chunk_place(known, columns[n - 1])->0].block.length,
            delta,
        )
    }
}

proof fn lemma_vectors_prefix(
    known: LazyGroupView,
    columns: Seq<ColumnId>,
    blocks: Seq<Fetched>,
    at: int,
    file: usize,
    path: String,
    missing: &'static str,
    n: int,
    m: int,
)
    requires
        n <= m,
        vectors_read(known, columns, blocks, at, file, path, missing, n) is Err,
    ensures
        vectors_read(known, columns, blocks, at, file, path, missing, m) == vectors_read(
            known,
            columns,
            blocks,
            at,
            file,
            path,
            missing,
            n,
        ),
    decreases m - n,
{
    if n < m {
        lemma_vectors_prefix(known, columns, blocks, at, file, path, missing, n, m - 1);
    }
}

/// Whether vectors are well formed and have so many rows.
pub open spec fn vectors_sound(vectors: Seq<VectorView>, rows: u32) -> bool {
    forall|i: int|
        0 <= i < vectors.len() ==> {
            &&& vector::well_formed(#[trigger] vectors[i])
            &&& vector::vector_len(vectors[i]) == rows
        }
}

/// Reads the wanted columns of a group.
pub fn read_vectors(
    known: &LazyRowGroup,
    columns: &[ColumnId],
    blocks: &[Fetched],
    at: usize,
    file: usize,
    path: &String,
    delta: bool,
    missing: &'static str,
    statistics: &mut ColumnarScanStatistics,
) -> (read: Result<Vec<ColumnarVector>, ColumnarError>)
    requires
        at + indexed::column_requests(known@, columns@, file, columns@.len() as int).len()
            <= blocks@.len(),
    ensures
        match vectors_read(
            known@,
            columns@,
            blocks@,
            at as int,
            file,
            *path,
            missing,
            columns@.len() as int,
        ) {
            Ok(vectors) => {
                &&& read is Ok
                &&& delta::vectors_view(read->Ok_0@) == vectors
                &&& vectors.len() == columns@.len()
                &&& vectors_sound(vectors, known.rows)
                &&& indexed::column_requests(known@, columns@, file, columns@.len() as int).len()
                    == columns@.len()
                &&& *final(statistics) == vectors_counted(
                    known@,
                    columns@,
                    delta,
                    *old(statistics),
                    columns@.len() as int,
                )
            },
            Err(error) => read == Err::<Vec<ColumnarVector>, ColumnarError>(error),
        },
{
    let ghost n = columns@.len() as int;
    let length: usize = blocks.len();
    let mut vectors: Vec<ColumnarVector> = Vec::new();
    assert(delta::vectors_view(vectors@) =~= Seq::empty());
    let mut i: usize = 0;
    while i < columns.len()
        invariant
            i <= columns@.len(),
            n == columns@.len(),
            at + indexed::column_requests(known@, columns@, file, n).len() <= blocks@.len(),
            length == blocks@.len(),
            indexed::column_requests(known@, columns@, file, i as int).len() == i,
            vectors_read(known@, columns@, blocks@, at as int, file, *path, missing, i as int)
                == Ok::<Seq<VectorView>, ColumnarError>(delta::vectors_view(vectors@)),
            vectors@.len() == i,
            vectors_sound(delta::vectors_view(vectors@), known.rows),
            *statistics == vectors_counted(known@, columns@, delta, *old(statistics), i as int),
        decreases columns@.len() - i,
    {
        proof {
            indexed::lemma_column_requests_grow(known@, columns@, file, i + 1, n);
            if vectors_read(
                known@,
                columns@,
                blocks@,
                at as int,
                file,
                *path,
                missing,
                i + 1,
            ) is Err {
                lemma_vectors_prefix(
                    known@,
                    columns@,
                    blocks@,
                    at as int,
                    file,
                    *path,
                    missing,
                    i + 1,
                    n,
                );
            }
        }
        let place: usize = match indexed::find_chunk(known, columns[i]) {
            Some(place) => place,
            None => {
                return Err(ColumnarError::Corrupt(missing));
            },
        };
        assert(known@.columns[place as int] == known.columns@[place as int]@);
        let found: ColumnarVector = payload::read_column_block(
            &blocks[at + i],
            &known.columns[place],
            known.rows,
            delta,
            path,
            statistics,
        )?;
        let ghost before = delta::vectors_view(vectors@);
        let ghost last = found@;
        vectors.push(found);
        i = i + 1;
        assert(delta::vectors_view(vectors@) =~= before.push(last));
    }
    Ok(vectors)
}

// ---------------------------------------------------------------------------
// Base groups
// ---------------------------------------------------------------------------
/// What row versions are read for.
pub struct VersionContext {
    pub storage_id: StorageId,
    pub kind: SnapshotKind,
}

/// The row versions of a group, out of a block.
pub open spec fn group_versions(
    known: LazyGroupView,
    context: VersionContext,
    blocks: Seq<Fetched>,
    at: int,
    path: String,
) -> Result<Seq<StorageVersionKey>, ColumnarError> {
    match known.source_versions {
        None => Err(ColumnarError::Corrupt("incremental indexed group has no version block")),
        Some(want) => payload::versions_read(
            blocks[at],
            want,
            known.rows,
            context.storage_id,
            context.kind,
            path,
        ),
    }
}

/// The rows of a group whose versions were not replaced.
pub open spec fn lazy_retained(
    known: LazyGroupView,
    context: VersionContext,
    suppressed: Seq<StorageVersionKey>,
    blocks: Seq<Fetched>,
    at: int,
    path: String,
) -> Result<Seq<usize>, ColumnarError> {
    if suppressed.len() == 0 {
        Ok(scan::all_rows(known.rows as nat))
    } else {
        match group_versions(known, context, blocks, at, path) {
            Err(error) => Err(error),
            Ok(keys) => Ok(scan::kept_rows(keys, suppressed, keys.len() as int)),
        }
    }
}

/// Statistics after the row versions of a group were read, if they were needed.
pub open spec fn retained_counted(
    known: LazyGroupView,
    suppressed: Seq<StorageVersionKey>,
    rows: Seq<usize>,
    statistics: ColumnarScanStatistics,
) -> ColumnarScanStatistics {
    if suppressed.len() == 0 {
        statistics
    } else {
        let counted = payload::versions_counted(statistics, known.source_versions->0.length);
        ColumnarScanStatistics {
            base_rows_suppressed: scan::grown(
                counted.base_rows_suppressed,
                known.rows - rows.len(),
            ),
            ..counted
        }
    }
}

/// The batch of some rows of wanted columns.
pub open spec fn batch_of(columns: Seq<ColumnId>, vectors: Seq<VectorView>, rows: Seq<usize>)
    -> BatchView {
    BatchView {
        row_count: rows.len(),
        columns: Seq::new(
            columns.len(),
            |i: int| (columns[i], select::selected(vectors[i], rows)),
        ),
    }
}

/// A scan after one more group of the base segment.
pub open spec fn lazy_group_scanned(
    known: LazyGroupView,
    context: VersionContext,
    suppressed: Seq<StorageVersionKey>,
    columns: Seq<ColumnId>,
    constraints: Seq<ColumnarConstraint>,
    blocks: Seq<Fetched>,
    at: int,
    path: String,
    so_far: Scanned,
) -> Result<Scanned, ColumnarError> {
    let statistics = so_far.statistics;
    let n = columns.len() as int;
    if group::pruned(block::directory_statistics(known), constraints) {
        Ok(
            Scanned {
                batches: so_far.batches,
                statistics: ColumnarScanStatistics {
                    row_groups_pruned: scan::grown(statistics.row_groups_pruned, 1),
                    row_groups_pruned_before_data_read: scan::grown(
                        statistics.row_groups_pruned_before_data_read,
                        1,
                    ),
                    ..statistics
                },
            },
        )
    } else {
        match lazy_retained(known, context, suppressed, blocks, at, path) {
            Err(error) => Err(error),
            Ok(rows) => match vectors_read(
                known,
                columns,
                blocks,
                at + indexed::version_requests(known, suppressed.len() > 0).len(),
                0,
                path,
                "indexed row group is missing a projected column",
                n,
            ) {
                Err(error) => Err(error),
                Ok(vectors) => {
                    let begun = ColumnarScanStatistics {
                        row_groups_read: scan::grown(statistics.row_groups_read, 1),
                        ..statistics
                    };
                    let counted = vectors_counted(
                        known,
                        columns,
                        false,
                        retained_counted(known, suppressed, rows, begun),
                        n,
                    );
                    let batch = batch_of(columns, vectors, rows);
                    Ok(
                        Scanned {
                            batches: so_far.batches.push(batch),
                            statistics: ColumnarScanStatistics {
                                rows_read: scan::grown(counted.rows_read, rows.len() as int),
                                bytes_read: scan::grown_by_sizes(
                                    counted.bytes_read,
                                    batch.columns,
                                    n,
                                ),
                                ..counted
                            },
                        },
                    )
                },
            },
        }
    }
}

/// A scan after the first `n` groups of the base segment.
pub open spec fn lazy_groups_scanned(
    groups: Seq<LazyGroupView>,
    context: VersionContext,
    suppressed: Seq<StorageVersionKey>,
    columns: Seq<ColumnId>,
    constraints: Seq<ColumnarConstraint>,
    blocks: Seq<Fetched>,
    path: String,
    start: Scanned,
    n: int,
) -> Result<Scanned, ColumnarError>
    decreases n,
{
    if n <= 0 {
        Ok(start)
    } else {
        match lazy_groups_scanned(
            groups,
            context,
            suppressed,
            columns,
            constraints,
            blocks,
            path,
            start,
            n - 1,
        ) {
            Err(error) => Err(error),
            Ok(so_far) => lazy_group_scanned(
                groups[n - 1],
                context,
                suppressed,
                columns,
                constraints,
                blocks,
                indexed::base_requests(
                    groups,
                    suppressed.len() > 0,
                    columns,
                    constraints,
                    n - 1,
                ).len() as int,
                path,
                so_far,
            ),
        }
    }
}

proof fn lemma_lazy_groups_prefix(
    groups: Seq<LazyGroupView>,
    context: VersionContext,
    suppressed: Seq<StorageVersionKey>,
    columns: Seq<ColumnId>,
    constraints: Seq<ColumnarConstraint>,
    blocks: Seq<Fetched>,
    path: String,
    start: Scanned,
    n: int,
    m: int,
)
    requires
        n <= m,
        lazy_groups_scanned(
            groups,
            context,
            suppressed,
            columns,
            constraints,
            blocks,
            path,
            start,
            n,
        ) is Err,
    ensures
        lazy_groups_scanned(
            groups,
            context,
            suppressed,
            columns,
            constraints,
            blocks,
            path,
            start,
            m,
        ) == lazy_groups_scanned(
            groups,
            context,
            suppressed,
            columns,
            constraints,
            blocks,
            path,
            start,
            n,
        ),
    decreases m - n,
{
    if n < m {
        lemma_lazy_groups_prefix(
            groups,
            context,
            suppressed,
            columns,
            constraints,
            blocks,
            path,
            start,
            n,
            m - 1,
        );
    }
}

/// Reads the row versions of a group.
pub fn read_group_versions(
    known: &LazyRowGroup,
    context: &VersionContext,
    blocks: &[Fetched],
    at: usize,
    path: &String,
    statistics: &mut ColumnarScanStatistics,
) -> (read: Result<Vec<StorageVersionKey>, ColumnarError>)
    requires
        known.source_versions is Some ==> at < blocks@.len(),
    ensures
        match group_versions(known@, *context, blocks@, at as int, *path) {
            Ok(keys) => {
                &&& read is Ok
                &&& read->Ok_0@ == keys
                &&& keys.len() == known.rows
                &&& *final(statistics) == payload::versions_counted(
                    *old(statistics),
                    known.source_versions->0.length,
                )
            },
            Err(error) => read == Err::<Vec<StorageVersionKey>, ColumnarError>(error),
        },
{
    let want: BlockRef = match known.source_versions {
        Some(want) => want,
        None => {
            return Err(ColumnarError::Corrupt("incremental indexed group has no version block"));
        },
    };
    payload::read_version_block(
        &blocks[at],
        want,
        known.rows,
        context.storage_id,
        context.kind,
        path,
        statistics,
    )
}

fn select_columns(columns: &[ColumnId], vectors: &[ColumnarVector], rows: &[usize]) -> (picked: Vec<
    ColumnarBatchColumn,
>)
    requires
        vectors@.len() == columns@.len(),
        forall|i: int|
            0 <= i < vectors@.len() ==> select::pickable((#[trigger] vectors@[i])@, rows@),
    ensures
        group::batch_columns_view(picked@) == batch_of(
            columns@,
            delta::vectors_view(vectors@),
            rows@,
        ).columns,
{
    let ghost whole = batch_of(columns@, delta::vectors_view(vectors@), rows@).columns;
    let mut picked: Vec<ColumnarBatchColumn> = Vec::new();
    let mut i: usize = 0;
    while i < columns.len()
        invariant
            i <= columns@.len(),
            vectors@.len() == columns@.len(),
            whole == batch_of(columns@, delta::vectors_view(vectors@), rows@).columns,
            forall|k: int|
                0 <= k < vectors@.len() ==> select::pickable((#[trigger] vectors@[k])@, rows@),
            group::batch_columns_view(picked@) == whole.take(i as int),
        decreases columns@.len() - i,
    {
        let values: ColumnarVector = select::select_vector_rows(&vectors[i], rows);
        let ghost before = group::batch_columns_view(picked@);
        let ghost last = (columns@[i as int], values@);
        assert(whole[i as int] == last);
        picked.push(ColumnarBatchColumn { column_id: columns[i], values });
        i = i + 1;
        assert(group::batch_columns_view(picked@) =~= before.push(last));
        assert(before.push(last) =~= whole.take(i as int));
    }
    assert(group::batch_columns_view(picked@) =~= whole);
    picked
}

fn retain_lazy_rows(
    known: &LazyRowGroup,
    context: &VersionContext,
    suppressed: &[StorageVersionKey],
    blocks: &[Fetched],
    at: usize,
    path: &String,
    statistics: &mut ColumnarScanStatistics,
) -> (kept: Result<Vec<usize>, ColumnarError>)
    requires
        overlay::ascending(suppressed@),
        at + indexed::version_requests(known@, suppressed@.len() > 0).len() <= blocks@.len(),
    ensures
        match lazy_retained(known@, *context, suppressed@, blocks@, at as int, *path) {
            Ok(rows) => {
                &&& kept is Ok
                &&& kept->Ok_0@ == rows
                &&& rows.len() <= known.rows
                &&& forall|i: int| 0 <= i < rows.len() ==> (#[trigger] rows[i]) < known.rows
                &&& *final(statistics) == retained_counted(
                    known@,
                    suppressed@,
                    rows,
                    *old(statistics),
                )
                &&& indexed::version_requests(known@, suppressed@.len() > 0).len() == if suppressed@.len()
                    > 0 {
                    1nat
                } else {
                    0
                }
            },
            Err(error) => kept == Err::<Vec<usize>, ColumnarError>(error),
        },
{
    if suppressed.len() == 0 {
        return Ok(scan::list_rows(known.rows as usize));
    }
    let keys: Vec<StorageVersionKey> = read_group_versions(
        known,
        context,
        blocks,
        at,
        path,
        statistics,
    )?;
    let kept: Vec<usize> = scan::retain_rows(keys.as_slice(), suppressed);
    proof {
        scan::lemma_kept_rows(keys@, suppressed@, keys@.len() as int);
    }
    statistics.base_rows_suppressed = statistics.base_rows_suppressed.saturating_add(
        (keys.len() - kept.len()) as u64,
    );
    Ok(kept)
}

fn push_batch(
    columns: &[ColumnId],
    vectors: &[ColumnarVector],
    rows: &[usize],
    batches: &mut Vec<ColumnarBatch>,
    statistics: &mut ColumnarScanStatistics,
)
    requires
        vectors@.len() == columns@.len(),
        forall|i: int|
            0 <= i < vectors@.len() ==> select::pickable((#[trigger] vectors@[i])@, rows@),
    ensures
        ({
            let batch = batch_of(columns@, delta::vectors_view(vectors@), rows@);
            &&& scan::batches_view(final(batches)@) == scan::batches_view(old(batches)@).push(batch)
            &&& *final(statistics) == (ColumnarScanStatistics {
                rows_read: scan::grown(old(statistics).rows_read, rows@.len() as int),
                bytes_read: scan::grown_by_sizes(
                    old(statistics).bytes_read,
                    batch.columns,
                    columns@.len() as int,
                ),
                ..*old(statistics)
            })
        }),
{
    let picked: Vec<ColumnarBatchColumn> = select_columns(columns, vectors, rows);
    assert(picked@.len() == columns@.len()) by {
        assert(group::batch_columns_view(picked@).len() == columns@.len());
    }
    statistics.rows_read = statistics.rows_read.saturating_add(rows.len() as u64);
    statistics.bytes_read = scan::grow_by_sizes(statistics.bytes_read, picked.as_slice());
    let ghost before = scan::batches_view(batches@);
    let batch: ColumnarBatch = ColumnarBatch { row_count: rows.len(), columns: picked };
    let ghost last = batch@;
    batches.push(batch);
    assert(scan::batches_view(batches@) =~= before.push(last));
}

fn scan_lazy_group(
    known: &LazyRowGroup,
    context: &VersionContext,
    suppressed: &[StorageVersionKey],
    columns: &[ColumnId],
    constraints: &[ColumnarConstraint],
    blocks: &[Fetched],
    at: usize,
    path: &String,
    batches: &mut Vec<ColumnarBatch>,
    statistics: &mut ColumnarScanStatistics,
) -> (scanned: Result<usize, ColumnarError>)
    requires
        overlay::ascending(suppressed@),
        at + indexed::group_requests(known@, suppressed@.len() > 0, columns@, constraints@).len()
            <= blocks@.len(),
    ensures
        match lazy_group_scanned(
            known@,
            *context,
            suppressed@,
            columns@,
            constraints@,
            blocks@,
            at as int,
            *path,
            (Scanned { batches: scan::batches_view(old(batches)@), statistics: *old(statistics) }),
        ) {
            Ok(next) => {
                &&& scanned is Ok
                &&& scanned->Ok_0 == at + indexed::group_requests(
                    known@,
                    suppressed@.len() > 0,
                    columns@,
                    constraints@,
                ).len()
                &&& scan::batches_view(final(batches)@) == next.batches
                &&& *final(statistics) == next.statistics
            },
            Err(error) => scanned == Err::<usize, ColumnarError>(error),
        },
{
    let length: usize = blocks.len();
    if block::lazy_group_pruned(known, constraints) {
        statistics.row_groups_pruned = statistics.row_groups_pruned.saturating_add(1);
        statistics.row_groups_pruned_before_data_read =
        statistics.row_groups_pruned_before_data_read.saturating_add(1);
        return Ok(at);
    }
    statistics.row_groups_read = statistics.row_groups_read.saturating_add(1);
    let rows: Vec<usize> = retain_lazy_rows(
        known,
        context,
        suppressed,
        blocks,
        at,
        path,
        statistics,
    )?;
    let next: usize = if suppressed.len() > 0 {
        at + 1
    } else {
        at
    };
    let vectors: Vec<ColumnarVector> = read_vectors(
        known,
        columns,
        blocks,
        next,
        0,
        path,
        false,
        "indexed row group is missing a projected column",
        statistics,
    )?;
    let ghost shown = delta::vectors_view(vectors@);
    assert forall|i: int| 0 <= i < vectors@.len() implies select::pickable(
        (#[trigger] vectors@[i])@,
        rows@,
    ) by {
        assert(shown[i] == vectors@[i]@);
        select::lemma_pickable(vectors@[i]@, rows@);
    }
    push_batch(columns, vectors.as_slice(), rows.as_slice(), batches, statistics);
    Ok(next + columns.len())
}

// ---------------------------------------------------------------------------
// Added rows
// ---------------------------------------------------------------------------
/// Whether no earlier row is the same.
pub open spec fn first_of(references: Seq<DeltaRowRef>, i: int) -> bool {
    forall|j: int| 0 <= j < i ==> #[trigger] references[j] != references[i]
}

/// The values of one row of vectors.
pub open spec fn row_of(vectors: Seq<VectorView>, row: int) -> Seq<ScalarView> {
    vectors.map_values(|found: VectorView| vector::value_of(found, row)->Ok_0)
}

/// Which rows are found after one more group, and their values.
pub open spec fn rows_found(
    spot: SpotView,
    references: Seq<DeltaRowRef>,
    vectors: Seq<VectorView>,
    earlier: Seq<Option<Seq<ScalarView>>>,
) -> Seq<Option<Seq<ScalarView>>> {
    Seq::new(
        references.len(),
        |i: int|
            if indexed::inside(spot, references[i]) && first_of(references, i) {
                Some(row_of(vectors, references[i].row - spot.start))
            } else {
                earlier[i]
            },
    )
}

/// Nothing found yet.
pub open spec fn none_found(n: nat) -> Seq<Option<Seq<ScalarView>>> {
    Seq::new(n, |i: int| None)
}

/// The added rows that the first `n` groups of delta segments hold.
pub open spec fn spots_read(
    spots: Seq<SpotView>,
    references: Seq<DeltaRowRef>,
    columns: Seq<ColumnId>,
    blocks: Seq<Fetched>,
    at: int,
    paths: Seq<String>,
    n: int,
) -> Result<Seq<Option<Seq<ScalarView>>>, ColumnarError>
    decreases n,
{
    if n <= 0 {
        Ok(none_found(references.len()))
    } else {
        match spots_read(spots, references, columns, blocks, at, paths, n - 1) {
            Err(error) => Err(error),
            Ok(earlier) => {
                let spot = spots[n - 1];
                if !indexed::touched(spot, references) {
                    Ok(earlier)
                } else {
                    match vectors_read(
                        spot.known,
                        columns,
                        blocks,
                        at + indexed::delta_requests(spots, references, columns, n - 1).len(),
                        indexed::file_of(spot),
                        paths[indexed::file_of(spot) as int],
                        "indexed delta group is missing a projected column",
                        columns.len() as int,
                    ) {
                        Err(error) => Err(error),
                        Ok(vectors) => Ok(rows_found(spot, references, vectors, earlier)),
                    }
                }
            },
        }
    }
}

/// Statistics after the first `n` groups of delta segments.
pub open spec fn spots_counted(
    spots: Seq<SpotView>,
    references: Seq<DeltaRowRef>,
    columns: Seq<ColumnId>,
    statistics: ColumnarScanStatistics,
    n: int,
) -> ColumnarScanStatistics
    decreases n,
{
    if n <= 0 {
        statistics
    } else {
        let earlier = spots_counted(spots, references, columns, statistics, n - 1);
        if indexed::touched(spots[n - 1], references) {
            vectors_counted(spots[n - 1].known, columns, true, earlier, columns.len() as int)
        } else {
            earlier
        }
    }
}

/// The first `n` added rows, all of which must have been found.
pub open spec fn all_found(found: Seq<Option<Seq<ScalarView>>>, n: int) -> Result<
    Seq<Seq<ScalarView>>,
    ColumnarError,
>
    decreases n,
{
    if n <= 0 {
        Ok(Seq::empty())
    } else {
        match all_found(found, n - 1) {
            Err(error) => Err(error),
            Ok(earlier) => match found[n - 1] {
                Some(row) => Ok(earlier.push(row)),
                None => Err(ColumnarError::Corrupt("live delta row reference is unresolved")),
            },
        }
    }
}

proof fn lemma_spots_prefix(
    spots: Seq<SpotView>,
    references: Seq<DeltaRowRef>,
    columns: Seq<ColumnId>,
    blocks: Seq<Fetched>,
    at: int,
    paths: Seq<String>,
    n: int,
    m: int,
)
    requires
        n <= m,
        spots_read(spots, references, columns, blocks, at, paths, n) is Err,
    ensures
        spots_read(spots, references, columns, blocks, at, paths, m) == spots_read(
            spots,
            references,
            columns,
            blocks,
            at,
            paths,
            n,
        ),
    decreases m - n,
{
    if n < m {
        lemma_spots_prefix(spots, references, columns, blocks, at, paths, n, m - 1);
    }
}

proof fn lemma_found_prefix(found: Seq<Option<Seq<ScalarView>>>, n: int, m: int)
    requires
        n <= m,
        all_found(found, n) is Err,
    ensures
        all_found(found, m) == all_found(found, n),
    decreases m - n,
{
    if n < m {
        lemma_found_prefix(found, n, m - 1);
    }
}

/// What found rows hold.
pub open spec fn found_view(found: Seq<Option<Vec<ScalarValue>>>) -> Seq<Option<Seq<ScalarView>>> {
    found.map_values(
        |row: Option<Vec<ScalarValue>>|
            match row {
                Some(values) => Some(value::row_view(values@)),
                None => None,
            },
    )
}

/// A row of well-formed vectors has a value in each.
pub proof fn lemma_row_of(vectors: Seq<VectorView>, rows: u32, row: int, n: int)
    requires
        vectors_sound(vectors, rows),
        0 <= row < rows,
        0 <= n <= vectors.len(),
    ensures
        delta::row_values(vectors, row, n) == Ok::<Seq<ScalarView>, ColumnarError>(
            row_of(vectors, row).take(n),
        ),
    decreases n,
{
    let whole = row_of(vectors, row);
    if n > 0 {
        lemma_row_of(vectors, rows, row, n - 1);
        assert(vector::well_formed(vectors[n - 1]));
        vector::lemma_well_formed_values(vectors[n - 1]);
        assert(vector::value_of(vectors[n - 1], row) is Ok);
        assert(whole.take(n - 1).push(whole[n - 1]) =~= whole.take(n));
    } else {
        assert(whole.take(0) =~= Seq::empty());
    }
}

fn fill_rows(
    spot: Spot,
    rows: u32,
    references: &[DeltaRowRef],
    vectors: &[ColumnarVector],
    found: &mut Vec<Option<Vec<ScalarValue>>>,
    Ghost(known): Ghost<LazyGroupView>,
)
    requires
        known.rows == rows,
        old(found)@.len() == references@.len(),
        vectors_sound(delta::vectors_view(vectors@), rows),
    ensures
        final(found)@.len() == references@.len(),
        found_view(final(found)@) == rows_found(
            (SpotView { segment: spot.segment, start: spot.start, known }),
            references@,
            delta::vectors_view(vectors@),
            found_view(old(found)@),
        ),
{
    let ghost shown = SpotView { segment: spot.segment, start: spot.start, known };
    let ghost read = delta::vectors_view(vectors@);
    let ghost before = found_view(found@);
    let ghost whole = rows_found(shown, references@, read, before);
    let end: u64 = spot.start.saturating_add(rows as u64);
    let mut taken: HashSet<u64> = HashSet::new();
    let mut i: usize = 0;
    while i < references.len()
        invariant
            i <= references@.len(),
            shown == (SpotView { segment: spot.segment, start: spot.start, known }),
            known.rows == rows,
            end == scan::grown(spot.start, rows as int),
            read == delta::vectors_view(vectors@),
            vectors_sound(read, rows),
            before.len() == references@.len(),
            whole == rows_found(shown, references@, read, before),
            found@.len() == references@.len(),
            forall|k: int| 0 <= k < i ==> #[trigger] found_view(found@)[k] == whole[k],
            forall|k: int|
                i <= k < references@.len() ==> #[trigger] found_view(found@)[k] == before[k],
            forall|row: u64|
                #[trigger] taken@.contains(row) <==> exists|k: int|
                    0 <= k < i && indexed::inside(shown, #[trigger] references@[k])
                        && references@[k].row == row,
        decreases references@.len() - i,
    {
        let reference: DeltaRowRef = references[i];
        let ghost taken_before = taken@;
        let ghost found_before = found@;
        if reference.segment == spot.segment && spot.start <= reference.row && reference.row
            < end {
            assert(indexed::inside(shown, references@[i as int]));
            let fresh: bool = !taken.contains(&reference.row);
            proof {
                if !fresh {
                    let k = choose|k: int|
                        0 <= k < i && indexed::inside(shown, #[trigger] references@[k])
                            && references@[k].row == reference.row;
                    assert(references@[k] == references@[i as int]);
                    assert(!first_of(references@, i as int));
                } else {
                    assert forall|j: int| 0 <= j < i implies #[trigger] references@[j]
                        != references@[i as int] by {
                        if references@[j] == references@[i as int] {
                            assert(indexed::inside(shown, references@[j]));
                            assert(taken@.contains(reference.row));
                        }
                    }
                    assert(first_of(references@, i as int));
                }
            }
            if fresh {
                let local: usize = (reference.row - spot.start) as usize;
                proof {
                    lemma_row_of(read, rows, local as int, read.len() as int);
                    assert(row_of(read, local as int).take(read.len() as int) =~= row_of(
                        read,
                        local as int,
                    ));
                }
                if let Ok(values) = delta::read_row(vectors, local) {
                    found.set(i, Some(values));
                }
                taken.insert(reference.row);
            }
        }
        proof {
            assert forall|k: int| 0 <= k < references@.len() && k != i implies #[trigger] found_view(
                found@,
            )[k] == found_view(found_before)[k] by {
                assert(found@[k] == found_before[k]);
            }
            assert forall|row: u64|
                #[trigger] taken@.contains(row) <==> exists|k: int|
                    0 <= k < i + 1 && indexed::inside(shown, #[trigger] references@[k])
                        && references@[k].row == row by {
                if taken_before.contains(row) {
                    let k = choose|k: int|
                        0 <= k < i && indexed::inside(shown, #[trigger] references@[k])
                            && references@[k].row == row;
                    assert(0 <= k < i + 1 && indexed::inside(shown, references@[k]));
                }
                if exists|k: int|
                    0 <= k < i + 1 && indexed::inside(shown, #[trigger] references@[k])
                        && references@[k].row == row {
                    let k = choose|k: int|
                        0 <= k < i + 1 && indexed::inside(shown, #[trigger] references@[k])
                            && references@[k].row == row;
                    if k < i {
                        assert(taken_before.contains(row));
                    } else {
                        assert(taken@.contains(row));
                    }
                }
            }
        }
        i = i + 1;
    }
    assert(found_view(found@) =~= whole);
}

fn no_rows(n: usize) -> (rows: Vec<Option<Vec<ScalarValue>>>)
    ensures
        rows@.len() == n,
        found_view(rows@) == none_found(n as nat),
{
    let mut rows: Vec<Option<Vec<ScalarValue>>> = Vec::new();
    let mut i: usize = 0;
    while i < n
        invariant
            i <= n,
            rows@.len() == i,
            forall|k: int| 0 <= k < i ==> (#[trigger] rows@[k]) is None,
        decreases n - i,
    {
        rows.push(None);
        i = i + 1;
    }
    assert(found_view(rows@) =~= none_found(n as nat));
    rows
}

fn collect_found(found: Vec<Option<Vec<ScalarValue>>>) -> (rows: Result<
    Vec<Vec<ScalarValue>>,
    ColumnarError,
>)
    ensures
        match all_found(found_view(found@), found@.len() as int) {
            Ok(list) => rows is Ok && vector::rows_view(rows->Ok_0@) == list,
            Err(error) => rows == Err::<Vec<Vec<ScalarValue>>, ColumnarError>(error),
        },
{
    let ghost shown = found_view(found@);
    let mut rows: Vec<Vec<ScalarValue>> = Vec::new();
    assert(vector::rows_view(rows@) =~= Seq::empty());
    let mut i: usize = 0;
    while i < found.len()
        invariant
            i <= found@.len(),
            shown == found_view(found@),
            all_found(shown, i as int) == Ok::<Seq<Seq<ScalarView>>, ColumnarError>(
                vector::rows_view(rows@),
            ),
        decreases found@.len() - i,
    {
        proof {
            if all_found(shown, i + 1) is Err {
                lemma_found_prefix(shown, i + 1, found@.len() as int);
            }
        }
        match &found[i] {
            Some(values) => {
                let copy: Vec<ScalarValue> = value::copy_row(values.as_slice());
                let ghost before = vector::rows_view(rows@);
                let ghost last = value::row_view(copy@);
                rows.push(copy);
                assert(vector::rows_view(rows@) =~= before.push(last));
            },
            None => {
                return Err(ColumnarError::Corrupt("live delta row reference is unresolved"));
            },
        }
        i = i + 1;
    }
    Ok(rows)
}

#[verifier::rlimit(60)]
fn read_added_rows(
    lazy: &LazyProjection,
    columns: &[ColumnId],
    blocks: &[Fetched],
    at: usize,
    statistics: &mut ColumnarScanStatistics,
) -> (rows: Result<Vec<Vec<ScalarValue>>, ColumnarError>)
    requires
        indexed::indexed_kept(lazy@),
        ({
            let spots = indexed::all_spots(lazy@.deltas, lazy@.deltas.len() as int);
            at + indexed::delta_requests(
                spots,
                lazy@.added.live_rows,
                columns@,
                spots.len() as int,
            ).len() <= blocks@.len()
        }),
    ensures
        ({
            let spots = indexed::all_spots(lazy@.deltas, lazy@.deltas.len() as int);
            let references = lazy@.added.live_rows;
            match spots_read(
                spots,
                references,
                columns@,
                blocks@,
                at as int,
                lazy@.paths,
                spots.len() as int,
            ) {
                Err(error) => rows == Err::<Vec<Vec<ScalarValue>>, ColumnarError>(error),
                Ok(found) => match all_found(found, references.len() as int) {
                    Err(error) => rows == Err::<Vec<Vec<ScalarValue>>, ColumnarError>(error),
                    Ok(list) => {
                        &&& rows is Ok
                        &&& vector::rows_view(rows->Ok_0@) == list
                        &&& *final(statistics) == spots_counted(
                            spots,
                            references,
                            columns@,
                            *old(statistics),
                            spots.len() as int,
                        )
                    },
                },
            }
        }),
{
    let spots: Vec<Spot> = indexed::list_spots(lazy.deltas.as_slice());
    let ghost shown = indexed::spots_view(lazy@.deltas, spots@);
    let ghost references = lazy.overlay.live_rows@;
    let ghost n = spots@.len() as int;
    let ghost m = columns@.len() as int;
    let length: usize = blocks.len();
    let mut found: Vec<Option<Vec<ScalarValue>>> = no_rows(lazy.overlay.live_rows.len());
    let mut position: usize = at;
    let mut i: usize = 0;
    while i < spots.len()
        invariant
            i <= spots@.len(),
            n == spots@.len(),
            m == columns@.len(),
            indexed::indexed_kept(lazy@),
            shown == indexed::spots_view(lazy@.deltas, spots@),
            shown == indexed::all_spots(lazy@.deltas, lazy@.deltas.len() as int),
            references == lazy.overlay.live_rows@,
            forall|k: int|
                0 <= k < spots@.len() ==> indexed::spot_within(
                    lazy@.deltas,
                    #[trigger] spots@[k],
                ),
            at + indexed::delta_requests(shown, references, columns@, n).len() <= blocks@.len(),
            length == blocks@.len(),
            position == at + indexed::delta_requests(
                shown,
                references,
                columns@,
                i as int,
            ).len(),
            found@.len() == references.len(),
            spots_read(
                shown,
                references,
                columns@,
                blocks@,
                at as int,
                lazy@.paths,
                i as int,
            ) == Ok::<Seq<Option<Seq<ScalarView>>>, ColumnarError>(found_view(found@)),
            *statistics == spots_counted(
                shown,
                references,
                columns@,
                *old(statistics),
                i as int,
            ),
        decreases spots@.len() - i,
    {
        let spot: Spot = spots[i];
        assert(indexed::spot_within(lazy@.deltas, spots@[i as int]));
        let known: &LazyRowGroup = &lazy.deltas[spot.segment as usize].groups[spot.place];
        assert(shown[i as int].known == known@);
        assert(shown[i as int] == (SpotView {
            segment: spot.segment,
            start: spot.start,
            known: known@,
        }));
        proof {
            indexed::lemma_delta_requests_grow(shown, references, columns@, i + 1, n);
            if spots_read(
                shown,
                references,
                columns@,
                blocks@,
                at as int,
                lazy@.paths,
                i + 1,
            ) is Err {
                lemma_spots_prefix(
                    shown,
                    references,
                    columns@,
                    blocks@,
                    at as int,
                    lazy@.paths,
                    i + 1,
                    n,
                );
            }
        }
        if indexed::spot_touched(
            spot,
            known.rows,
            lazy.overlay.live_rows.as_slice(),
            Ghost(known@),
        ) {
            let file: usize = spot.segment as usize + 1;
            let vectors: Vec<ColumnarVector> = read_vectors(
                known,
                columns,
                blocks,
                position,
                file,
                &lazy.paths[file],
                true,
                "indexed delta group is missing a projected column",
                statistics,
            )?;
            fill_rows(
                spot,
                known.rows,
                lazy.overlay.live_rows.as_slice(),
                vectors.as_slice(),
                &mut found,
                Ghost(known@),
            );
            position = position + columns.len();
        }
        i = i + 1;
    }
    collect_found(found)
}

// ---------------------------------------------------------------------------
// Indexed projections
// ---------------------------------------------------------------------------
/// What a scan of an indexed projection starts with.
pub open spec fn lazy_start(known: MetadataView, indexed: LazyView) -> Scanned {
    Scanned {
        batches: Seq::empty(),
        statistics: ColumnarScanStatistics {
            row_groups_total: indexed.base_groups.len() as u64,
            delta_segments: indexed.deltas.len() as u64,
            delta_mutations: match known.incremental {
                Some(incremental) => incremental.delta_mutation_count,
                None => 0,
            },
            delta_live_rows: indexed.added.live_keys.len() as u64,
            ..scan::no_statistics()
        },
    }
}

/// What row versions of a projection are read for.
pub open spec fn context_of(known: MetadataView) -> VersionContext {
    VersionContext { storage_id: known.source_storage_id, kind: known.source_token.kind }
}

/// A scan after the rows that delta segments added, if they added any.
pub open spec fn lazy_added_scanned(
    specs: Seq<ColumnarColumnSpec>,
    indexed: LazyView,
    columns: Seq<ColumnId>,
    blocks: Seq<Fetched>,
    at: int,
    so_far: Scanned,
) -> Result<Scanned, ColumnarError> {
    let spots = indexed::all_spots(indexed.deltas, indexed.deltas.len() as int);
    let references = indexed.added.live_rows;
    let n = spots.len() as int;
    if references.len() == 0 {
        Ok(so_far)
    } else {
        match spots_read(spots, references, columns, blocks, at, indexed.paths, n) {
            Err(error) => Err(error),
            Ok(found) => match all_found(found, references.len() as int) {
                Err(error) => Err(error),
                Ok(rows) => scan::rows_scanned(
                    scan::wanted(specs, columns),
                    rows,
                    false,
                    Scanned {
                        batches: so_far.batches,
                        statistics: spots_counted(
                            spots,
                            references,
                            columns,
                            so_far.statistics,
                            n,
                        ),
                    },
                ),
            },
        }
    }
}

/// The scan of an indexed projection, out of the blocks that it needs.
pub open spec fn lazy_scan(
    known: MetadataView,
    indexed: LazyView,
    columns: Seq<ColumnId>,
    constraints: Seq<ColumnarConstraint>,
    blocks: Seq<Fetched>,
) -> Result<Scanned, ColumnarError> {
    let groups = indexed.base_groups;
    let suppressed = indexed.added.suppressed;
    match scan::unknown_error(known.columns, columns, columns.len() as int) {
        Some(error) => Err(error),
        None => match lazy_groups_scanned(
            groups,
            context_of(known),
            suppressed,
            columns,
            constraints,
            blocks,
            indexed.paths[0],
            lazy_start(known, indexed),
            groups.len() as int,
        ) {
            Err(error) => Err(error),
            Ok(base) => match lazy_added_scanned(
                known.columns,
                indexed,
                columns,
                blocks,
                indexed::base_requests(
                    groups,
                    suppressed.len() > 0,
                    columns,
                    constraints,
                    groups.len() as int,
                ).len() as int,
                base,
            ) {
                Err(error) => Err(error),
                Ok(all) => Ok(scan::merged(all)),
            },
        },
    }
}

fn start_lazy(metadata: &ColumnarProjectionMetadata, lazy: &LazyProjection) -> (statistics:
    ColumnarScanStatistics)
    ensures
        statistics == lazy_start(metadata@, lazy@).statistics,
{
    let mut statistics: ColumnarScanStatistics = ColumnarScanStatistics::default();
    statistics.row_groups_total = lazy.base_groups.len() as u64;
    statistics.delta_segments = lazy.deltas.len() as u64;
    statistics.delta_live_rows = lazy.overlay.live_keys.len() as u64;
    if let Some(incremental) = &metadata.incremental {
        statistics.delta_mutations = incremental.delta_mutation_count;
    }
    statistics
}

/// Scans an indexed projection, out of the blocks that the scan needs.
pub fn scan_lazy(
    metadata: &ColumnarProjectionMetadata,
    lazy: &LazyProjection,
    columns: &[ColumnId],
    constraints: &[ColumnarConstraint],
    blocks: &[Fetched],
) -> (scanned: Result<(Vec<ColumnarBatch>, ColumnarScanStatistics), ColumnarError>)
    requires
        indexed::indexed_kept(lazy@),
        blocks@.len() == indexed::scan_requests(lazy@, columns@, constraints@).len(),
    ensures
        match lazy_scan(metadata@, lazy@, columns@, constraints@, blocks@) {
            Ok(all) => {
                &&& scanned is Ok
                &&& scan::batches_view(scanned->Ok_0.0@) == all.batches
                &&& scanned->Ok_0.1 == all.statistics
            },
            Err(error) => scanned == Err::<
                (Vec<ColumnarBatch>, ColumnarScanStatistics),
                ColumnarError,
            >(error),
        },
{
    let places: Vec<usize> = scan::find_wanted(metadata.columns.as_slice(), columns)?;
    let context: VersionContext = VersionContext {
        storage_id: metadata.source_storage_id,
        kind: metadata.source_token.kind,
    };
    let ghost groups = lazy@.base_groups;
    let ghost suppressed = lazy.overlay.suppressed@;
    let ghost needed = suppressed.len() > 0;
    let ghost start = lazy_start(metadata@, lazy@);
    let ghost n = groups.len() as int;
    let mut statistics: ColumnarScanStatistics = start_lazy(metadata, lazy);
    let mut batches: Vec<ColumnarBatch> = Vec::new();
    assert(scan::batches_view(batches@) =~= Seq::empty());
    let mut at: usize = 0;
    let mut i: usize = 0;
    while i < lazy.base_groups.len()
        invariant
            i <= lazy.base_groups@.len(),
            indexed::indexed_kept(lazy@),
            groups == lazy@.base_groups,
            n == groups.len(),
            suppressed == lazy.overlay.suppressed@,
            needed == (suppressed.len() > 0),
            start == lazy_start(metadata@, lazy@),
            context == context_of(metadata@),
            scan::unknown_error(metadata.columns@, columns@, columns@.len() as int) is None,
            indexed::base_requests(groups, needed, columns@, constraints@, n).len()
                <= blocks@.len(),
            at == indexed::base_requests(
                groups,
                needed,
                columns@,
                constraints@,
                i as int,
            ).len(),
            lazy_groups_scanned(
                groups,
                context,
                suppressed,
                columns@,
                constraints@,
                blocks@,
                lazy.paths@[0],
                start,
                i as int,
            ) == Ok::<Scanned, ColumnarError>(
                (Scanned { batches: scan::batches_view(batches@), statistics }),
            ),
        decreases lazy.base_groups@.len() - i,
    {
        proof {
            assert(groups[i as int] == lazy.base_groups@[i as int]@);
            indexed::lemma_base_requests_grow(groups, needed, columns@, constraints@, i + 1, n);
            if lazy_groups_scanned(
                groups,
                context,
                suppressed,
                columns@,
                constraints@,
                blocks@,
                lazy.paths@[0],
                start,
                i + 1,
            ) is Err {
                lemma_lazy_groups_prefix(
                    groups,
                    context,
                    suppressed,
                    columns@,
                    constraints@,
                    blocks@,
                    lazy.paths@[0],
                    start,
                    i + 1,
                    n,
                );
            }
        }
        at = scan_lazy_group(
            &lazy.base_groups[i],
            &context,
            lazy.overlay.suppressed.as_slice(),
            columns,
            constraints,
            blocks,
            at,
            &lazy.paths[0],
            &mut batches,
            &mut statistics,
        )?;
        i = i + 1;
    }
    if lazy.overlay.live_keys.len() > 0 {
        let rows: Vec<Vec<ScalarValue>> = read_added_rows(
            lazy,
            columns,
            blocks,
            at,
            &mut statistics,
        )?;
        let specs: Vec<ColumnarColumnSpec> = scan::pick_specs(
            metadata.columns.as_slice(),
            columns,
            places.as_slice(),
        );
        scan::scan_rows(specs.as_slice(), rows.as_slice(), false, &mut batches, &mut statistics)?;
    }
    statistics.merged_rows = statistics.rows_read;
    Ok((batches, statistics))
}

} // verus!
