//! Identities that the storage engine hands around as plain numbers.
use vstd::prelude::*;

verus! {

/// A page of the database file.
#[derive(Debug, Clone, Copy, PartialEq, Eq, PartialOrd, Ord, Hash, Structural)]
pub struct PageId(pub u64);

/// One incarnation of a reusable page.
#[derive(Debug, Clone, Copy, PartialEq, Eq, PartialOrd, Ord, Hash, Structural)]
pub struct PageGeneration(pub u64);

/// A page together with the incarnation that is meant.
#[derive(Debug, Clone, Copy, PartialEq, Eq, Hash, Structural)]
pub struct PageRef {
    pub page_id: PageId,
    pub generation: PageGeneration,
}

/// A secondary index.
#[derive(Debug, Clone, Copy, PartialEq, Eq, PartialOrd, Ord, Hash, Structural)]
pub struct IndexId(pub u64);

/// A position in the write-ahead log.
#[derive(Debug, Clone, Copy, PartialEq, Eq, PartialOrd, Ord, Hash, Structural)]
pub struct Lsn(pub u64);

/// A physical heap row.
#[derive(Debug, Clone, Copy, PartialEq, Eq, Hash, Structural)]
pub struct RowId {
    pub page: PageId,
    pub slot: u16,
    pub generation: u32,
}

/// A table's storage.
#[derive(Debug, Clone, Copy, PartialEq, Eq, PartialOrd, Ord, Hash, Structural)]
pub struct StorageId(pub u64);

/// A table.
#[derive(Debug, Clone, Copy, PartialEq, Eq, PartialOrd, Ord, Hash, Structural)]
pub struct TableId(pub u64);

/// A column of a table.
#[derive(Debug, Clone, Copy, PartialEq, Eq, PartialOrd, Ord, Hash, Structural)]
pub struct ColumnId(pub u32);

/// A transaction of one storage.
#[derive(Debug, Clone, Copy, PartialEq, Eq, PartialOrd, Ord, Hash, Structural)]
pub struct TxnId(pub u64);

/// A transaction of the whole database.
#[derive(Debug, Clone, Copy, PartialEq, Eq, PartialOrd, Ord, Hash, Structural)]
pub struct DatabaseTxnId(pub u64);

/// A row of a log-structured storage.
#[derive(Debug, Clone, Copy, PartialEq, Eq, PartialOrd, Ord, Hash, Structural)]
pub struct LsmRowId(pub u64);

/// The commit order of a log-structured storage.
#[derive(Debug, Clone, Copy, PartialEq, Eq, PartialOrd, Ord, Hash, Structural)]
pub struct LsmCommitSeq(pub u64);

/// A frontier in the history of one storage's data.
#[derive(Debug, Clone, Copy, PartialEq, Eq, PartialOrd, Ord, Hash, Structural)]
pub struct StorageDataVersion(pub u64);

/// One incarnation of a change stream.
#[derive(Debug, Clone, Copy, PartialEq, Eq, PartialOrd, Ord, Hash, Structural)]
pub struct ChangeStreamGeneration(pub u64);

/// A columnar projection.
#[derive(Debug, Clone, Copy, PartialEq, Eq, PartialOrd, Ord, Hash, Structural)]
pub struct ColumnarProjectionId(pub u64);

/// One published generation of a columnar projection.
#[derive(Debug, Clone, Copy, PartialEq, Eq, PartialOrd, Ord, Hash, Structural)]
pub struct ColumnarGeneration(pub u64);

/// An immutable segment of a columnar projection.
#[derive(Debug, Clone, Copy, PartialEq, Eq, PartialOrd, Ord, Hash, Structural)]
pub struct ColumnarSegmentId(pub u64);

/// The digest of a table definition.
#[derive(Debug, Clone, Copy, PartialEq, Eq, Hash)]
pub struct SchemaFingerprint {
    pub bytes: [u8; 32],
}

impl SchemaFingerprint {
    /// The fingerprint with these bytes.
    pub fn from_bytes(bytes: [u8; 32]) -> (fingerprint: Self)
        ensures
            fingerprint.bytes == bytes,
    {
        SchemaFingerprint { bytes }
    }

    /// The fingerprint's bytes.
    pub fn as_bytes(&self) -> (bytes: &[u8; 32])
        ensures
            *bytes == self.bytes,
    {
        &self.bytes
    }

    /// Whether both digests are the same.
    pub fn same_as(&self, other: &SchemaFingerprint) -> (same: bool)
        ensures
            same == (*self == *other),
    {
        let mut i: usize = 0;
        while i < 32
            invariant
                i <= 32,
                forall|k: int| 0 <= k < i ==> self.bytes@[k] == other.bytes@[k],
            decreases 32 - i,
        {
            if self.bytes[i] != other.bytes[i] {
                return false;
            }
            i = i + 1;
        }
        assert(self.bytes@ =~= other.bytes@);
        assert(self.bytes =~= other.bytes);
        true
    }

    /// The fingerprint whose 32 bytes stand in `bytes` from `at`.
    pub fn read(bytes: &[u8], at: usize) -> (fingerprint: Self)
        requires
            at + 32 <= bytes@.len(),
        ensures
            fingerprint.bytes@ == bytes@.subrange(at as int, at + 32),
    {
        let mut digest: [u8; 32] = [0u8; 32];
        let mut i: usize = 0;
        while i < 32
            invariant
                i <= 32,
                at + 32 <= bytes@.len(),
                bytes@.len() == bytes.len(),
                forall|k: int| 0 <= k < i ==> digest@[k] == bytes@[at + k],
            decreases 32 - i,
        {
            digest[i] = bytes[at + i];
            i = i + 1;
        }
        assert(digest@ =~= bytes@.subrange(at as int, at + 32));
        SchemaFingerprint { bytes: digest }
    }
}

/// The fingerprint that holds the 32 bytes `s`.
pub open spec fn fingerprint_of(s: Seq<u8>) -> SchemaFingerprint {
    choose|fingerprint: SchemaFingerprint| #[trigger] fingerprint.bytes@ == s
}

/// A fingerprint is determined by its bytes.
pub proof fn lemma_fingerprint_of(fingerprint: SchemaFingerprint)
    ensures
        fingerprint_of(fingerprint.bytes@) == fingerprint,
{
    let other = fingerprint_of(fingerprint.bytes@);
    assert(other.bytes@ == fingerprint.bytes@);
    assert(other.bytes =~= fingerprint.bytes);
}

} // verus!
