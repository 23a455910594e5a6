//! Change batches and the row versions that they speak of.
use crate::bytes;
use crate::ids::{
    DatabaseTxnId, LsmCommitSeq, LsmRowId, RowId, SchemaFingerprint, StorageDataVersion, StorageId,
    TableId, TxnId,
};
use vstd::prelude::*;

verus! {

/// The engine that stores a table's rows.
#[derive(Debug, Clone, Copy, PartialEq, Eq, Structural)]
pub enum ChangeStorageKind {
    Heap,
    Lsm,
}

/// Identity of one committed physical row version within its owning storage.
/// It is not a logical row identity and does not survive layout migration.
#[derive(Debug, Clone, Copy, PartialEq, Eq, Hash, Structural)]
#[allow(inconsistent_fields)]
pub enum StorageVersionKey {
    Heap { storage_id: StorageId, row_id: RowId },
    Lsm { storage_id: StorageId, row_id: LsmRowId, version: LsmCommitSeq },
}

/// The storage that owns the row version.
pub open spec fn owner(key: StorageVersionKey) -> StorageId {
    match key {
        StorageVersionKey::Heap { storage_id, .. } => storage_id,
        StorageVersionKey::Lsm { storage_id, .. } => storage_id,
    }
}

impl StorageVersionKey {
    /// The storage that owns the row version.
    pub fn storage_id(self) -> (storage_id: StorageId)
        ensures
            storage_id == owner(self),
    {
        match self {
            StorageVersionKey::Heap { storage_id, .. } => storage_id,
            StorageVersionKey::Lsm { storage_id, .. } => storage_id,
        }
    }
}

/// One change of one row. `R` is the row image after the change.
#[derive(Debug, PartialEq, Eq)]
pub enum StorageChange<R> {
    Insert { new_version: StorageVersionKey, after: R },
    Update { old_version: StorageVersionKey, new_version: StorageVersionKey, after: R },
    Delete { old_version: StorageVersionKey },
}

/// A change whose row image is the bytes of the canonical row encoding.
pub type StoredChange = StorageChange<Vec<u8>>;

/// What a stored change says.
pub open spec fn change_view(change: StoredChange) -> StorageChange<Seq<u8>> {
    match change {
        StorageChange::Insert { new_version, after } =>
            StorageChange::Insert { new_version, after: after@ },
        StorageChange::Update { old_version, new_version, after } =>
            StorageChange::Update { old_version, new_version, after: after@ },
        StorageChange::Delete { old_version } => StorageChange::Delete { old_version },
    }
}

/// What a list of stored changes says.
pub open spec fn changes_view(changes: Seq<StoredChange>) -> Seq<StorageChange<Seq<u8>>> {
    changes.map_values(|change: StoredChange| change_view(change))
}

/// The changes of one transaction, between two adjacent frontiers.
#[derive(PartialEq, Eq)]
pub struct ChangeBatch {
    pub sequence: u64,
    pub physical_txn_id: TxnId,
    pub database_txn_id: Option<DatabaseTxnId>,
    pub table_id: TableId,
    pub storage_id: StorageId,
    pub schema_fingerprint: SchemaFingerprint,
    pub before: StorageDataVersion,
    pub after: StorageDataVersion,
    pub mutations: Vec<StoredChange>,
}

/// What a batch says.
pub struct BatchView {
    pub sequence: u64,
    pub physical_txn_id: TxnId,
    pub database_txn_id: Option<DatabaseTxnId>,
    pub table_id: TableId,
    pub storage_id: StorageId,
    pub schema_fingerprint: SchemaFingerprint,
    pub before: StorageDataVersion,
    pub after: StorageDataVersion,
    pub mutations: Seq<StorageChange<Seq<u8>>>,
}

impl View for ChangeBatch {
    type V = BatchView;

    open spec fn view(&self) -> BatchView {
        BatchView {
            sequence: self.sequence,
            physical_txn_id: self.physical_txn_id,
            database_txn_id: self.database_txn_id,
            table_id: self.table_id,
            storage_id: self.storage_id,
            schema_fingerprint: self.schema_fingerprint,
            before: self.before,
            after: self.after,
            mutations: changes_view(self.mutations@),
        }
    }
}

/// What a list of batches says.
pub open spec fn batches_view(batches: Seq<ChangeBatch>) -> Seq<BatchView> {
    batches.map_values(|batch: ChangeBatch| batch@)
}

/// The payload-free description of a batch.
#[derive(Debug, Clone, Copy, PartialEq, Eq, Structural)]
pub struct ChangeBatchInspection {
    pub sequence: u64,
    pub physical_txn_id: TxnId,
    pub database_txn_id: Option<DatabaseTxnId>,
    pub before: StorageDataVersion,
    pub after: StorageDataVersion,
    pub mutation_count: u64,
}

/// A copy of a stored change.
pub fn copy_change(change: &StoredChange) -> (copy: StoredChange)
    ensures
        change_view(copy) == change_view(*change),
{
    match change {
        StorageChange::Insert { new_version, after } => StorageChange::Insert {
            new_version: *new_version,
            after: bytes::copy_bytes(after.as_slice()),
        },
        StorageChange::Update { old_version, new_version, after } => StorageChange::Update {
            old_version: *old_version,
            new_version: *new_version,
            after: bytes::copy_bytes(after.as_slice()),
        },
        StorageChange::Delete { old_version } => StorageChange::Delete { old_version: *old_version },
    }
}

/// A copy of a list of stored changes.
pub fn copy_changes(changes: &[StoredChange]) -> (copy: Vec<StoredChange>)
    ensures
        changes_view(copy@) == changes_view(changes@),
{
    let mut copy: Vec<StoredChange> = Vec::new();
    let mut i: usize = 0;
    while i < changes.len()
        invariant
            i <= changes@.len(),
            copy@.len() == i,
            forall|k: int| 0 <= k < i ==> change_view(copy@[k]) == change_view(changes@[k]),
        decreases changes@.len() - i,
    {
        copy.push(copy_change(&changes[i]));
        i = i + 1;
    }
    assert(changes_view(copy@) =~= changes_view(changes@));
    copy
}

impl ChangeBatch {
    /// The payload-free description of the batch.
    pub fn inspection(&self) -> (inspection: ChangeBatchInspection)
        ensures
            inspection == (ChangeBatchInspection {
                sequence: self.sequence,
                physical_txn_id: self.physical_txn_id,
                database_txn_id: self.database_txn_id,
                before: self.before,
                after: self.after,
                mutation_count: self.mutations@.len() as u64,
            }),
    {
        ChangeBatchInspection {
            sequence: self.sequence,
            physical_txn_id: self.physical_txn_id,
            database_txn_id: self.database_txn_id,
            before: self.before,
            after: self.after,
            mutation_count: self.mutations.len() as u64,
        }
    }

    /// A copy of the batch.
    pub fn copy(&self) -> (copy: ChangeBatch)
        ensures
            copy@ == self@,
    {
        ChangeBatch {
            sequence: self.sequence,
            physical_txn_id: self.physical_txn_id,
            database_txn_id: self.database_txn_id,
            table_id: self.table_id,
            storage_id: self.storage_id,
            schema_fingerprint: self.schema_fingerprint,
            before: self.before,
            after: self.after,
            mutations: copy_changes(self.mutations.as_slice()),
        }
    }
}

} // verus!
