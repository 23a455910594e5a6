//! From change batches to row changes of a projection.
use super::error::ColumnarError;
use super::group::{self, ColumnDef, TableDef};
use super::metadata::{ColumnarProjectionMetadata, MetadataView};
use super::overlay::{self, DeltaMutation, ProjectedDeltaMutation};
use super::vector::ColumnarColumnSpec;
use super::version::{self, SnapshotKind};
use crate::change_stream::types::{StorageChange, StorageVersionKey};
use crate::ids::{SchemaFingerprint, StorageDataVersion, StorageId, TableId};
use crate::value::{self, ScalarValue, ScalarView};
use vstd::prelude::*;

verus! {

/// A change batch whose rows are decoded.
#[derive(Debug, PartialEq, Eq)]
pub struct RowBatch {
    pub table_id: TableId,
    pub storage_id: StorageId,
    pub schema_fingerprint: SchemaFingerprint,
    pub before: StorageDataVersion,
    pub after: StorageDataVersion,
    pub mutations: Vec<StorageChange<Vec<ScalarValue>>>,
}

/// What a batch says.
pub struct RowBatchView {
    pub table_id: TableId,
    pub storage_id: StorageId,
    pub schema_fingerprint: SchemaFingerprint,
    pub before: StorageDataVersion,
    pub after: StorageDataVersion,
    pub mutations: Seq<StorageChange<Seq<ScalarView>>>,
}

/// What a change says.
pub open spec fn change_values(change: StorageChange<Vec<ScalarValue>>) -> StorageChange<
    Seq<ScalarView>,
> {
    match change {
        StorageChange::Insert { new_version, after } =>
            StorageChange::Insert { new_version, after: value::row_view(after@) },
        StorageChange::Update { old_version, new_version, after } =>
            StorageChange::Update { old_version, new_version, after: value::row_view(after@) },
        StorageChange::Delete { old_version } => StorageChange::Delete { old_version },
    }
}

impl View for RowBatch {
    type V = RowBatchView;

    open spec fn view(&self) -> RowBatchView {
        RowBatchView {
            table_id: self.table_id,
            storage_id: self.storage_id,
            schema_fingerprint: self.schema_fingerprint,
            before: self.before,
            after: self.after,
            mutations: self.mutations@.map_values(
                |change: StorageChange<Vec<ScalarValue>>| change_values(change),
            ),
        }
    }
}

/// What batches say.
pub open spec fn batches_view(batches: Seq<RowBatch>) -> Seq<RowBatchView> {
    batches.map_values(|batch: RowBatch| batch@)
}

// ---------------------------------------------------------------------------
// Rows
// ---------------------------------------------------------------------------
/// Why one of the first `n` projected columns is not in a table, if it is not.
pub open spec fn positions_error(
    table: Seq<ColumnDef>,
    columns: Seq<ColumnarColumnSpec>,
    n: int,
) -> Option<ColumnarError>
    decreases n,
{
    if n <= 0 {
        None
    } else if positions_error(table, columns, n - 1) is Some {
        positions_error(table, columns, n - 1)
    } else if group::place_of(group::table_ids(table), columns[n - 1].column_id) is None {
        Some(ColumnarError::UnknownColumn(columns[n - 1].column_id))
    } else {
        None
    }
}

/// Where the projected columns stand in a table.
pub open spec fn positions_of(table: Seq<ColumnDef>, columns: Seq<ColumnarColumnSpec>) -> Seq<int> {
    columns.map_values(
        |column: ColumnarColumnSpec|
            group::place_of(group::table_ids(table), column.column_id)->0,
    )
}

proof fn lemma_positions_prefix(
    table: Seq<ColumnDef>,
    columns: Seq<ColumnarColumnSpec>,
    n: int,
    m: int,
)
    requires
        n <= m,
        positions_error(table, columns, n) is Some,
    ensures
        positions_error(table, columns, m) == positions_error(table, columns, n),
    decreases m - n,
{
    if n < m {
        lemma_positions_prefix(table, columns, n, m - 1);
    }
}

/// Places in a table.
pub open spec fn places(positions: Seq<usize>) -> Seq<int> {
    positions.map_values(|position: usize| position as int)
}

fn find_positions(table: &[ColumnDef], columns: &[ColumnarColumnSpec]) -> (found: Result<
    Vec<usize>,
    ColumnarError,
>)
    ensures
        match positions_error(table@, columns@, columns@.len() as int) {
            Some(error) => found == Err::<Vec<usize>, ColumnarError>(error),
            None => found is Ok && places(found->Ok_0@) == positions_of(table@, columns@),
        },
{
    let ghost whole = positions_of(table@, columns@);
    let mut positions: Vec<usize> = Vec::new();
    assert(places(positions@) =~= whole.take(0));
    let mut i: usize = 0;
    while i < columns.len()
        invariant
            i <= columns@.len(),
            whole == positions_of(table@, columns@),
            positions_error(table@, columns@, i as int) is None,
            places(positions@) == whole.take(i as int),
        decreases columns@.len() - i,
    {
        proof {
            if positions_error(table@, columns@, i + 1) is Some {
                lemma_positions_prefix(table@, columns@, i + 1, columns@.len() as int);
            }
        }
        match group::find_column(table, columns[i].column_id) {
            Some(place) => {
                let ghost before = places(positions@);
                positions.push(place);
                assert(places(positions@) =~= before.push(place as int));
                assert(before.push(place as int) =~= whole.take(i + 1));
            },
            None => {
                return Err(ColumnarError::UnknownColumn(columns[i].column_id));
            },
        }
        i = i + 1;
    }
    assert(whole.take(columns@.len() as int) =~= whole);
    Ok(positions)
}

/// The projected values of a row.
pub open spec fn projected_row(after: Seq<ScalarView>, positions: Seq<int>) -> Result<
    Seq<ScalarView>,
    ColumnarError,
> {
    if forall|i: int| 0 <= i < positions.len() ==> (#[trigger] positions[i]) < after.len() {
        Ok(positions.map_values(|position: int| after[position]))
    } else {
        Err(ColumnarError::Corrupt("change after-image is too short"))
    }
}

/// The projected values of a row.
pub fn project_after(after: &[ScalarValue], positions: &[usize]) -> (projected: Result<
    Vec<ScalarValue>,
    ColumnarError,
>)
    ensures
        match projected_row(value::row_view(after@), places(positions@)) {
            Ok(row) => projected is Ok && value::row_view(projected->Ok_0@) == row,
            Err(error) => projected == Err::<Vec<ScalarValue>, ColumnarError>(error),
        },
{
    let ghost known = value::row_view(after@);
    let ghost wanted = places(positions@);
    let ghost whole = wanted.map_values(|position: int| known[position]);
    let mut row: Vec<ScalarValue> = Vec::new();
    let mut i: usize = 0;
    assert(value::row_view(row@) =~= whole.take(0));
    while i < positions.len()
        invariant
            i <= positions@.len(),
            known == value::row_view(after@),
            wanted == places(positions@),
            whole == wanted.map_values(|position: int| known[position]),
            forall|k: int| 0 <= k < i ==> (#[trigger] wanted[k]) < known.len(),
            value::row_view(row@) == whole.take(i as int),
        decreases positions@.len() - i,
    {
        let position: usize = positions[i];
        assert(wanted[i as int] == position);
        if position >= after.len() {
            return Err(ColumnarError::Corrupt("change after-image is too short"));
        }
        let ghost before = value::row_view(row@);
        row.push(value::copy_value(&after[position]));
        i = i + 1;
        assert(value::row_view(row@) =~= before.push(known[position as int]));
        assert(before.push(known[position as int]) =~= whole.take(i as int));
    }
    assert(value::row_view(row@) =~= whole);
    Ok(row)
}

// ---------------------------------------------------------------------------
// Changes
// ---------------------------------------------------------------------------
/// Why a version that may be missing is not one of a storage, if it is not.
pub open spec fn optional_key_error(
    key: Option<StorageVersionKey>,
    storage_id: StorageId,
    kind: SnapshotKind,
) -> Option<ColumnarError> {
    match key {
        Some(known) => version::key_error(known, storage_id, kind),
        None => None,
    }
}

/// The row change of a change, before its versions are checked.
pub open spec fn unchecked_mutation(
    change: StorageChange<Seq<ScalarView>>,
    positions: Seq<int>,
) -> Result<DeltaMutation<Seq<ScalarView>>, ColumnarError> {
    match change {
        StorageChange::Insert { new_version, after } => match projected_row(after, positions) {
            Err(error) => Err(error),
            Ok(row) => Ok(
                DeltaMutation {
                    old_version: None,
                    new_version: Some(new_version),
                    after: Some(row),
                },
            ),
        },
        StorageChange::Update { old_version, new_version, after } => if old_version
            == new_version {
            Err(ColumnarError::Corrupt("update preserves version identity"))
        } else {
            match projected_row(after, positions) {
                Err(error) => Err(error),
                Ok(row) => Ok(
                    DeltaMutation {
                        old_version: Some(old_version),
                        new_version: Some(new_version),
                        after: Some(row),
                    },
                ),
            }
        },
        StorageChange::Delete { old_version } => Ok(
            DeltaMutation { old_version: Some(old_version), new_version: None, after: None },
        ),
    }
}

/// The row change of a change.
pub open spec fn projected_mutation(
    change: StorageChange<Seq<ScalarView>>,
    positions: Seq<int>,
    known: MetadataView,
) -> Result<DeltaMutation<Seq<ScalarView>>, ColumnarError> {
    match unchecked_mutation(change, positions) {
        Err(error) => Err(error),
        Ok(mutation) => match optional_key_error(
            mutation.old_version,
            known.source_storage_id,
            known.source_token.kind,
        ) {
            Some(error) => Err(error),
            None => match optional_key_error(
                mutation.new_version,
                known.source_storage_id,
                known.source_token.kind,
            ) {
                Some(error) => Err(error),
                None => Ok(mutation),
            },
        },
    }
}

fn check_optional_key(
    key: Option<StorageVersionKey>,
    storage_id: StorageId,
    kind: SnapshotKind,
) -> (valid: Result<(), ColumnarError>)
    ensures
        match optional_key_error(key, storage_id, kind) {
            Some(error) => valid == Err::<(), ColumnarError>(error),
            None => valid is Ok,
        },
{
    match key {
        Some(known) => version::validate_version_key(known, storage_id, kind),
        None => Ok(()),
    }
}

fn project_mutation(
    change: &StorageChange<Vec<ScalarValue>>,
    positions: &[usize],
    metadata: &ColumnarProjectionMetadata,
) -> (projected: Result<ProjectedDeltaMutation, ColumnarError>)
    ensures
        match projected_mutation(change_values(*change), places(positions@), metadata@) {
            Ok(mutation) => projected is Ok && overlay::mutation_view(projected->Ok_0) == mutation,
            Err(error) => projected == Err::<ProjectedDeltaMutation, ColumnarError>(error),
        },
{
    let mutation: ProjectedDeltaMutation = match change {
        StorageChange::Insert { new_version, after } => DeltaMutation {
            old_version: None,
            new_version: Some(*new_version),
            after: Some(project_after(after.as_slice(), positions)?),
        },
        StorageChange::Update { old_version, new_version, after } => {
            if *old_version == *new_version {
                return Err(ColumnarError::Corrupt("update preserves version identity"));
            }
            DeltaMutation {
                old_version: Some(*old_version),
                new_version: Some(*new_version),
                after: Some(project_after(after.as_slice(), positions)?),
            }
        },
        StorageChange::Delete { old_version } => DeltaMutation {
            old_version: Some(*old_version),
            new_version: None,
            after: None,
        },
    };
    let storage_id: StorageId = metadata.source_storage_id;
    let kind: SnapshotKind = metadata.source_token.kind;
    check_optional_key(mutation.old_version, storage_id, kind)?;
    check_optional_key(mutation.new_version, storage_id, kind)?;
    Ok(mutation)
}

/// The row changes of the first `n` changes.
pub open spec fn projected_changes(
    changes: Seq<StorageChange<Seq<ScalarView>>>,
    positions: Seq<int>,
    known: MetadataView,
    n: int,
) -> Result<Seq<DeltaMutation<Seq<ScalarView>>>, ColumnarError>
    decreases n,
{
    if n <= 0 {
        Ok(Seq::empty())
    } else {
        match projected_changes(changes, positions, known, n - 1) {
            Err(error) => Err(error),
            Ok(before) => match projected_mutation(changes[n - 1], positions, known) {
                Err(error) => Err(error),
                Ok(mutation) => Ok(before.push(mutation)),
            },
        }
    }
}

proof fn lemma_changes_prefix(
    changes: Seq<StorageChange<Seq<ScalarView>>>,
    positions: Seq<int>,
    known: MetadataView,
    n: int,
    m: int,
)
    requires
        n <= m,
        projected_changes(changes, positions, known, n) is Err,
    ensures
        projected_changes(changes, positions, known, m) == projected_changes(
            changes,
            positions,
            known,
            n,
        ),
    decreases m - n,
{
    if n < m {
        lemma_changes_prefix(changes, positions, known, n, m - 1);
    }
}

/// Whether a batch continues a projection at a frontier.
pub open spec fn batch_continues(
    batch: RowBatchView,
    known: MetadataView,
    expected: StorageDataVersion,
) -> bool {
    &&& batch.table_id == known.table_id
    &&& batch.storage_id == known.source_storage_id
    &&& batch.schema_fingerprint == known.schema_fingerprint
    &&& batch.before == expected
    &&& batch.after.0 > batch.before.0
}

/// The row changes of the first `n` batches, and where they end.
pub open spec fn projected_batches(
    batches: Seq<RowBatchView>,
    positions: Seq<int>,
    known: MetadataView,
    n: int,
) -> Result<(Seq<DeltaMutation<Seq<ScalarView>>>, StorageDataVersion), ColumnarError>
    decreases n,
{
    if n <= 0 {
        Ok((Seq::empty(), known.incremental->0.applied_frontier))
    } else {
        match projected_batches(batches, positions, known, n - 1) {
            Err(error) => Err(error),
            Ok((before, expected)) => {
                let batch = batches[n - 1];
                if !batch_continues(batch, known, expected) {
                    Err(ColumnarError::IdentityMismatch("change batch context or frontier"))
                } else {
                    match projected_changes(
                        batch.mutations,
                        positions,
                        known,
                        batch.mutations.len() as int,
                    ) {
                        Err(error) => Err(error),
                        Ok(changes) => Ok((before + changes, batch.after)),
                    }
                }
            },
        }
    }
}

/// The row changes of batches for a projection of a table.
pub open spec fn projection_of(
    table: Seq<ColumnDef>,
    known: MetadataView,
    batches: Seq<RowBatchView>,
) -> Result<Seq<DeltaMutation<Seq<ScalarView>>>, ColumnarError> {
    if known.incremental is None {
        Err(ColumnarError::InvalidInput("snapshot projection cannot consume changes"))
    } else {
        match positions_error(table, known.columns, known.columns.len() as int) {
            Some(error) => Err(error),
            None => match projected_batches(
                batches,
                positions_of(table, known.columns),
                known,
                batches.len() as int,
            ) {
                Err(error) => Err(error),
                Ok((changes, _)) => Ok(changes),
            },
        }
    }
}

proof fn lemma_batches_prefix(
    batches: Seq<RowBatchView>,
    positions: Seq<int>,
    known: MetadataView,
    n: int,
    m: int,
)
    requires
        n <= m,
        projected_batches(batches, positions, known, n) is Err,
    ensures
        projected_batches(batches, positions, known, m) == projected_batches(
            batches,
            positions,
            known,
            n,
        ),
    decreases m - n,
{
    if n < m {
        lemma_batches_prefix(batches, positions, known, n, m - 1);
    }
}

fn project_batch(
    projected: &mut Vec<ProjectedDeltaMutation>,
    batch: &RowBatch,
    positions: &[usize],
    metadata: &ColumnarProjectionMetadata,
) -> (done: Result<(), ColumnarError>)
    ensures
        match projected_changes(
            batch@.mutations,
            places(positions@),
            metadata@,
            batch@.mutations.len() as int,
        ) {
            Ok(changes) => done is Ok && overlay::mutations_view(final(projected)@)
                == overlay::mutations_view(old(projected)@) + changes,
            Err(error) => done == Err::<(), ColumnarError>(error),
        },
{
    let ghost start = overlay::mutations_view(projected@);
    let ghost changes = batch@.mutations;
    let ghost wanted = places(positions@);
    assert(start =~= start + Seq::<DeltaMutation<Seq<ScalarView>>>::empty());
    let mut i: usize = 0;
    while i < batch.mutations.len()
        invariant
            i <= batch.mutations@.len(),
            changes == batch@.mutations,
            wanted == places(positions@),
            start == overlay::mutations_view(old(projected)@),
            projected_changes(changes, wanted, metadata@, i as int) is Ok,
            overlay::mutations_view(projected@) == start + projected_changes(
                changes,
                wanted,
                metadata@,
                i as int,
            )->Ok_0,
        decreases batch.mutations@.len() - i,
    {
        proof {
            if projected_changes(changes, wanted, metadata@, i + 1) is Err {
                lemma_changes_prefix(changes, wanted, metadata@, i + 1, changes.len() as int);
            }
        }
        let ghost before = projected_changes(changes, wanted, metadata@, i as int)->Ok_0;
        let ghost shown = overlay::mutations_view(projected@);
        assert(changes[i as int] == change_values(batch.mutations@[i as int]));
        let mutation: ProjectedDeltaMutation = project_mutation(
            &batch.mutations[i],
            positions,
            metadata,
        )?;
        let ghost last = overlay::mutation_view(mutation);
        projected.push(mutation);
        i = i + 1;
        assert(overlay::mutations_view(projected@) =~= shown.push(last));
        assert(shown.push(last) =~= start + before.push(last));
    }
    Ok(())
}

/// The row changes of batches for a projection of a table.
pub fn project_change_batches(
    table: &TableDef,
    metadata: &ColumnarProjectionMetadata,
    batches: &[RowBatch],
) -> (projected: Result<Vec<ProjectedDeltaMutation>, ColumnarError>)
    ensures
        match projection_of(table.columns@, metadata@, batches_view(batches@)) {
            Ok(changes) => projected is Ok && overlay::mutations_view(projected->Ok_0@) == changes,
            Err(error) => projected == Err::<Vec<ProjectedDeltaMutation>, ColumnarError>(error),
        },
{
    let mut expected: StorageDataVersion = match &metadata.incremental {
        Some(incremental) => incremental.applied_frontier,
        None => {
            return Err(ColumnarError::InvalidInput("snapshot projection cannot consume changes"));
        },
    };
    let positions: Vec<usize> = find_positions(
        table.columns.as_slice(),
        metadata.columns.as_slice(),
    )?;
    let ghost wanted = places(positions@);
    let ghost known = batches_view(batches@);
    let mut projected: Vec<ProjectedDeltaMutation> = Vec::new();
    assert(overlay::mutations_view(projected@) =~= Seq::empty());
    let mut i: usize = 0;
    while i < batches.len()
        invariant
            i <= batches@.len(),
            metadata@.incremental is Some,
            positions_error(
                table.columns@,
                metadata.columns@,
                metadata.columns@.len() as int,
            ) is None,
            wanted == places(positions@),
            wanted == positions_of(table.columns@, metadata.columns@),
            known == batches_view(batches@),
            projected_batches(known, wanted, metadata@, i as int) == Ok::<_, ColumnarError>(
                (overlay::mutations_view(projected@), expected),
            ),
        decreases batches@.len() - i,
    {
        proof {
            if projected_batches(known, wanted, metadata@, i + 1) is Err {
                lemma_batches_prefix(known, wanted, metadata@, i + 1, known.len() as int);
            }
        }
        let batch: &RowBatch = &batches[i];
        assert(known[i as int] == batch@);
        if batch.table_id != metadata.table_id || batch.storage_id != metadata.source_storage_id
            || !batch.schema_fingerprint.same_as(&metadata.schema_fingerprint) || batch.before
            != expected || batch.after.0 <= batch.before.0 {
            return Err(ColumnarError::IdentityMismatch("change batch context or frontier"));
        }
        expected = batch.after;
        project_batch(&mut projected, batch, positions.as_slice(), metadata)?;
        i = i + 1;
    }
    Ok(projected)
}

/// The row changes that batches give each change one of the projection's
/// storage.
pub proof fn law_projected_versions_are_of_the_storage(
    changes: Seq<StorageChange<Seq<ScalarView>>>,
    positions: Seq<int>,
    known: MetadataView,
    n: int,
    i: int,
)
    requires
        projected_changes(changes, positions, known, n) is Ok,
        0 <= i < n <= changes.len(),
    ensures
        projected_changes(changes, positions, known, n)->Ok_0.len() == n,
        ({
            let mutation = projected_changes(changes, positions, known, n)->Ok_0[i];
            &&& optional_key_error(
                mutation.old_version,
                known.source_storage_id,
                known.source_token.kind,
            ) is None
            &&& optional_key_error(
                mutation.new_version,
                known.source_storage_id,
                known.source_token.kind,
            ) is None
            &&& mutation.after is Some <==> mutation.new_version is Some
        }),
    decreases n,
{
    if n > 1 {
        law_projected_versions_are_of_the_storage(
            changes,
            positions,
            known,
            n - 1,
            if i < n - 1 {
                i
            } else {
                0
            },
        );
    } else {
        assert(projected_changes(changes, positions, known, 0)->Ok_0.len() == 0);
    }
}

} // verus!
