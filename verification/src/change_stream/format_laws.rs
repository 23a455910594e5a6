//! How a log looks, byte by byte.
use super::log;
use super::log::Header;
use super::record;
use super::types::{BatchView, ChangeStorageKind, StorageChange, StorageVersionKey};
use crate::bytes;
use crate::checksum;
use crate::ids::{LsmCommitSeq, TxnId};
use vstd::prelude::*;

verus! {

broadcast use crate::bytes::group_le_len;

/// The bytes of a number count ones, then multiples of two hundred and fifty six, and
/// so on.
pub proof fn law_bytes_of_numbers(x: u16, y: u32, z: u64)
    ensures
        bytes::u16_le(x).len() == 2,
        x == bytes::u16_le(x)[0] + 0x100 * bytes::u16_le(x)[1],
        bytes::u32_le(y).len() == 4,
        y == bytes::u32_le(y)[0] + 0x100 * bytes::u32_le(y)[1] + 0x1_0000 * bytes::u32_le(y)[2]
            + 0x100_0000 * bytes::u32_le(y)[3],
        bytes::u64_le(z).len() == 8,
        bytes::u64_le(z).take(4) == bytes::u32_le((z % 0x1_0000_0000) as u32),
        bytes::u64_le(z).skip(4) == bytes::u32_le((z / 0x1_0000_0000) as u32),
{
    reveal(bytes::u16_le);
    reveal(bytes::u32_le);
    reveal(bytes::u64_le);
    let low = bytes::u32_le((z % 0x1_0000_0000) as u32);
    let high = bytes::u32_le((z / 0x1_0000_0000) as u32);
    assert(bytes::u64_le(z).take(4) =~= low);
    assert(bytes::u64_le(z).skip(4) =~= high);
}

/// An entry of a log is the length of its payload, the payload, and its check value.
pub proof fn law_entry_bytes(payload: Seq<u8>)
    requires
        payload.len() <= u32::MAX,
    ensures
        ({
            let entry = record::framed(payload);
            let n = payload.len() as int;
            &&& entry.len() == n + 8
            &&& entry.take(4) == bytes::u32_le(payload.len() as u32)
            &&& entry.subrange(4, n + 4) == payload
            &&& entry.skip(n + 4) == bytes::u32_le(checksum::crc32c_of(payload))
        }),
{
    let entry = record::framed(payload);
    let n = payload.len() as int;
    assert(entry.take(4) =~= bytes::u32_le(payload.len() as u32));
    assert(entry.subrange(4, n + 4) =~= payload);
    assert(entry.skip(n + 4) =~= bytes::u32_le(checksum::crc32c_of(payload)));
}

/// A finalize marker is a two, seven zeros, the transaction, and its commit number,
/// or zero where it has none: an entry of thirty-two bytes.
pub proof fn law_marker_bytes(txn_id: TxnId, commit: Option<LsmCommitSeq>)
    ensures
        ({
            let payload = record::finalize_payload(txn_id, commit);
            let marker = record::finalize_bytes(txn_id, commit);
            &&& marker == record::framed(payload)
            &&& marker.len() == 32
            &&& payload.len() == 24
            &&& payload[0] == 2
            &&& forall|i: int| 1 <= i < 8 ==> payload[i] == 0
            &&& payload.subrange(8, 16) == bytes::u64_le(txn_id.0)
            &&& payload.subrange(16, 24) == bytes::u64_le(
                match commit {
                    Some(number) => number.0,
                    None => 0,
                },
            )
        }),
{
    let payload = record::finalize_payload(txn_id, commit);
    assert(payload.subrange(8, 16) =~= bytes::u64_le(txn_id.0));
    assert(payload.subrange(16, 24) =~= bytes::u64_le(record::commit_number(commit)));
}

/// A row version of a heap is a one, its page, its slot and its generation; one of a
/// log tree is a two, its row and its commit number.
pub proof fn law_version_bytes(key: StorageVersionKey)
    ensures
        record::key_bytes(key) == match key {
            StorageVersionKey::Heap { row_id, .. } => seq![1u8] + bytes::u64_le(row_id.page.0)
                + bytes::u16_le(row_id.slot) + bytes::u32_le(row_id.generation),
            StorageVersionKey::Lsm { row_id, version, .. } => seq![2u8] + bytes::u64_le(row_id.0)
                + bytes::u64_le(version.0),
        },
{
}

/// An insert is a one, its version and its row, which comes behind its length; an
/// update is a two, both versions and its row; a deletion is a three and its version.
/// The bytes of changes come one after the other.
pub proof fn law_change_bytes(
    changes: Seq<StorageChange<Seq<u8>>>,
    change: StorageChange<Seq<u8>>,
)
    ensures
        record::mutation_bytes(change) == match change {
            StorageChange::Insert { new_version, after } => seq![1u8] + record::key_bytes(
                new_version,
            ) + (bytes::u32_le(after.len() as u32) + after),
            StorageChange::Update { old_version, new_version, after } => seq![2u8]
                + record::key_bytes(old_version) + record::key_bytes(new_version) + (bytes::u32_le(
                after.len() as u32,
            ) + after),
            StorageChange::Delete { old_version } => seq![3u8] + record::key_bytes(old_version),
        },
        record::mutations_bytes(Seq::empty()) == Seq::<u8>::empty(),
        record::mutations_bytes(changes.push(change)) == record::mutations_bytes(changes)
            + record::mutation_bytes(change),
{
    assert(changes.push(change).drop_last() =~= changes);
    assert(changes.push(change).last() == change);
}

/// A record is a one, seven zeros, its sequence, its two transactions, its table, its
/// storage, the digest of the schema, where it starts and ends, how many changes it
/// has, four zeros, and its changes.
pub proof fn law_record_bytes(batch: BatchView)
    requires
        batch.schema_fingerprint.bytes@.len() == 32,
    ensures
        ({
            let payload = record::record_payload(batch);
            &&& payload[0] == 1
            &&& forall|i: int| 1 <= i < 8 ==> payload[i] == 0
            &&& payload.subrange(8, 16) == bytes::u64_le(batch.sequence)
            &&& payload.subrange(16, 24) == bytes::u64_le(batch.physical_txn_id.0)
            &&& payload.subrange(24, 32) == bytes::u64_le(
                match batch.database_txn_id {
                    Some(number) => number.0,
                    None => 0,
                },
            )
            &&& payload.subrange(32, 40) == bytes::u64_le(batch.table_id.0)
            &&& payload.subrange(40, 48) == bytes::u64_le(batch.storage_id.0)
            &&& payload.subrange(48, 80) == batch.schema_fingerprint.bytes@
            &&& payload.subrange(80, 88) == bytes::u64_le(batch.before.0)
            &&& payload.subrange(88, 96) == bytes::u64_le(batch.after.0)
            &&& payload.subrange(96, 100) == bytes::u32_le(batch.mutations.len() as u32)
            &&& payload.subrange(100, 104) == bytes::u32_le(0)
            &&& payload.skip(104) == record::mutations_bytes(batch.mutations)
        }),
{
    let payload = record::record_payload(batch);
    assert(payload.subrange(8, 16) =~= bytes::u64_le(batch.sequence));
    assert(payload.subrange(16, 24) =~= bytes::u64_le(batch.physical_txn_id.0));
    assert(payload.subrange(24, 32) =~= bytes::u64_le(
        record::database_number(batch.database_txn_id),
    ));
    assert(payload.subrange(32, 40) =~= bytes::u64_le(batch.table_id.0));
    assert(payload.subrange(40, 48) =~= bytes::u64_le(batch.storage_id.0));
    assert(payload.subrange(48, 80) =~= batch.schema_fingerprint.bytes@);
    assert(payload.subrange(80, 88) =~= bytes::u64_le(batch.before.0));
    assert(payload.subrange(88, 96) =~= bytes::u64_le(batch.after.0));
    assert(payload.subrange(96, 100) =~= bytes::u32_le(batch.mutations.len() as u32));
    assert(payload.subrange(100, 104) =~= bytes::u32_le(0));
    assert(payload.skip(104) =~= record::mutations_bytes(batch.mutations));
}

/// The head of a log is the letters NBCL, its version, whether the stream is active,
/// the kind of the storage, the storage, the table, the digest of the schema, the
/// generation and the origin; then, but in the first version, the earliest and the
/// committed frontier and the next sequence; then four zeros and a check value.
pub proof fn law_head_bytes(header: Header)
    requires
        header.fingerprint.bytes@.len() == 32,
    ensures
        ({
            let head = log::header_bytes(header);
            let n = head.len() as int;
            &&& n == if header.version == 1 {
                80
            } else {
                104int
            }
            &&& head.take(4) == seq![78u8, 66u8, 67u8, 76u8]
            &&& head.subrange(4, 6) == bytes::u16_le(header.version)
            &&& head[6] == if header.active {
                1u8
            } else {
                0u8
            }
            &&& head[7] == match header.kind {
                ChangeStorageKind::Heap => 1u8,
                ChangeStorageKind::Lsm => 2u8,
            }
            &&& head.subrange(8, 16) == bytes::u64_le(header.storage_id.0)
            &&& head.subrange(16, 24) == bytes::u64_le(header.table_id.0)
            &&& head.subrange(24, 56) == header.fingerprint.bytes@
            &&& head.subrange(56, 64) == bytes::u64_le(header.generation.0)
            &&& head.subrange(64, 72) == bytes::u64_le(header.origin.0)
            &&& header.version != 1 ==> {
                &&& head.subrange(72, 80) == bytes::u64_le(header.earliest.0)
                &&& head.subrange(80, 88) == bytes::u64_le(header.current.0)
                &&& head.subrange(88, 96) == bytes::u64_le(header.next_sequence)
            }
            &&& forall|i: int| n - 8 <= i < n - 4 ==> head[i] == 0
            &&& head.skip(n - 4) == bytes::u32_le(checksum::crc32c_of(head.take(n - 4)))
        }),
{
    let head = log::header_bytes(header);
    let n = head.len() as int;
    let body = log::header_body(header);
    assert(head.take(4) =~= seq![78u8, 66u8, 67u8, 76u8]);
    assert(head.subrange(4, 6) =~= bytes::u16_le(header.version));
    assert(head.subrange(8, 16) =~= bytes::u64_le(header.storage_id.0));
    assert(head.subrange(16, 24) =~= bytes::u64_le(header.table_id.0));
    assert(head.subrange(24, 56) =~= header.fingerprint.bytes@);
    assert(head.subrange(56, 64) =~= bytes::u64_le(header.generation.0));
    assert(head.subrange(64, 72) =~= bytes::u64_le(header.origin.0));
    if header.version != 1 {
        assert(head.subrange(72, 80) =~= bytes::u64_le(header.earliest.0));
        assert(head.subrange(80, 88) =~= bytes::u64_le(header.current.0));
        assert(head.subrange(88, 96) =~= bytes::u64_le(header.next_sequence));
    }
    assert(head.take(n - 4) =~= body);
    assert(head.skip(n - 4) =~= bytes::u32_le(checksum::crc32c_of(body)));
}

} // verus!
