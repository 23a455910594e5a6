//! What is read back of written records is what was written.
use super::error::ChangeStreamError;
use super::log;
use super::log::Header;
use super::record;
use super::types;
use super::types::{BatchView, ChangeStorageKind, StorageChange, StorageVersionKey};
use crate::bytes;
use crate::ids;
use crate::ids::{LsmCommitSeq, StorageId, TxnId};
use vstd::prelude::*;

verus! {

broadcast use crate::bytes::group_le_len;

/// A row version is read back wherever its bytes stand.
pub proof fn law_key_round_trip(s: Seq<u8>, at: int, key: StorageVersionKey)
    requires
        record::key_error(key, types::owner(key)) is None,
        0 <= at,
        at + record::key_bytes(key).len() <= s.len() <= usize::MAX,
        s.subrange(at, at + record::key_bytes(key).len()) == record::key_bytes(key),
    ensures
        record::key_at(s, at, types::owner(key)) == Ok::<
            (StorageVersionKey, int),
            ChangeStreamError,
        >((key, at + record::key_bytes(key).len())),
{
    match key {
        StorageVersionKey::Heap { row_id, .. } => {
            let p1 = seq![log::HEAP_TAG];
            let p2 = p1 + bytes::u64_le(row_id.page.0);
            let p3 = p2 + bytes::u16_le(row_id.slot);
            bytes::lemma_split_at(s, at, p3, bytes::u32_le(row_id.generation));
            bytes::lemma_split_at(s, at, p2, bytes::u16_le(row_id.slot));
            bytes::lemma_split_at(s, at, p1, bytes::u64_le(row_id.page.0));
            assert(s.subrange(at, at + 1)[0] == s[at]);
            bytes::lemma_u64_at(s, at + 1, row_id.page.0);
            bytes::lemma_u16_at(s, at + 9, row_id.slot);
            bytes::lemma_u32_at(s, at + 11, row_id.generation);
        },
        StorageVersionKey::Lsm { row_id, version, .. } => {
            let p1 = seq![log::LSM_TAG];
            let p2 = p1 + bytes::u64_le(row_id.0);
            bytes::lemma_split_at(s, at, p2, bytes::u64_le(version.0));
            bytes::lemma_split_at(s, at, p1, bytes::u64_le(row_id.0));
            assert(s.subrange(at, at + 1)[0] == s[at]);
            bytes::lemma_u64_at(s, at + 1, row_id.0);
            bytes::lemma_u64_at(s, at + 9, version.0);
        },
    }
}

proof fn lemma_after_round_trip(s: Seq<u8>, at: int, row: Seq<u8>, refused: Set<Seq<u8>>)
    requires
        record::row_error(row) is None,
        !refused.contains(row),
        0 <= at,
        at + record::after_bytes(row).len() <= s.len() <= usize::MAX,
        s.subrange(at, at + record::after_bytes(row).len()) == record::after_bytes(row),
    ensures
        record::after_at(s, at, refused) == Ok::<(Seq<u8>, int), ChangeStreamError>(
            (row, at + record::after_bytes(row).len()),
        ),
{
    bytes::lemma_split_at(s, at, bytes::u32_le(row.len() as u32), row);
    bytes::lemma_u32_at(s, at, row.len() as u32);
}

/// Whether none of the refused row images stands in the change.
pub open spec fn row_taken(change: StorageChange<Seq<u8>>, refused: Set<Seq<u8>>) -> bool {
    match change {
        StorageChange::Insert { after, .. } => !refused.contains(after),
        StorageChange::Update { after, .. } => !refused.contains(after),
        StorageChange::Delete { .. } => true,
    }
}

/// Whether none of the refused row images stands in the changes.
pub open spec fn rows_taken(
    changes: Seq<StorageChange<Seq<u8>>>,
    refused: Set<Seq<u8>>,
) -> bool {
    forall|i: int| 0 <= i < changes.len() ==> row_taken(#[trigger] changes[i], refused)
}

/// A change is read back wherever its bytes stand, unless its row image is
/// refused.
pub proof fn law_mutation_round_trip(
    s: Seq<u8>,
    at: int,
    change: StorageChange<Seq<u8>>,
    storage_id: StorageId,
    refused: Set<Seq<u8>>,
)
    requires
        record::mutation_error(change, storage_id) is None,
        row_taken(change, refused),
        0 <= at,
        at + record::mutation_bytes(change).len() <= s.len() <= usize::MAX,
        s.subrange(at, at + record::mutation_bytes(change).len()) == record::mutation_bytes(change),
    ensures
        record::mutation_at(s, at, storage_id, refused) == Ok::<
            (StorageChange<Seq<u8>>, int),
            ChangeStreamError,
        >((change, at + record::mutation_bytes(change).len())),
{
    match change {
        StorageChange::Insert { new_version, after } => {
            let p1 = seq![log::INSERT_TAG];
            let p2 = p1 + record::key_bytes(new_version);
            bytes::lemma_split_at(s, at, p2, record::after_bytes(after));
            bytes::lemma_split_at(s, at, p1, record::key_bytes(new_version));
            assert(s.subrange(at, at + 1)[0] == s[at]);
            law_key_round_trip(s, at + 1, new_version);
            lemma_after_round_trip(s, at + p2.len(), after, refused);
        },
        StorageChange::Update { old_version, new_version, after } => {
            let p1 = seq![log::UPDATE_TAG];
            let p2 = p1 + record::key_bytes(old_version);
            let p3 = p2 + record::key_bytes(new_version);
            bytes::lemma_split_at(s, at, p3, record::after_bytes(after));
            bytes::lemma_split_at(s, at, p2, record::key_bytes(new_version));
            bytes::lemma_split_at(s, at, p1, record::key_bytes(old_version));
            assert(s.subrange(at, at + 1)[0] == s[at]);
            law_key_round_trip(s, at + 1, old_version);
            law_key_round_trip(s, at + p2.len(), new_version);
            lemma_after_round_trip(s, at + p3.len(), after, refused);
        },
        StorageChange::Delete { old_version } => {
            let p1 = seq![log::DELETE_TAG];
            bytes::lemma_split_at(s, at, p1, record::key_bytes(old_version));
            assert(s.subrange(at, at + 1)[0] == s[at]);
            law_key_round_trip(s, at + 1, old_version);
        },
    }
}

/// Whether every change may stand in a batch of this storage.
pub open spec fn changes_fit(
    changes: Seq<StorageChange<Seq<u8>>>,
    storage_id: StorageId,
    kind: ChangeStorageKind,
) -> bool {
    forall|i: int|
        0 <= i < changes.len() ==> record::mutation_error(#[trigger] changes[i], storage_id) is None
            && record::pending_error(changes[i], kind) is None
}

proof fn lemma_mutations_round_trip(
    s: Seq<u8>,
    at: int,
    changes: Seq<StorageChange<Seq<u8>>>,
    storage_id: StorageId,
    kind: ChangeStorageKind,
    refused: Set<Seq<u8>>,
)
    requires
        changes_fit(changes, storage_id, kind),
        rows_taken(changes, refused),
        0 <= at,
        at + record::mutations_bytes(changes).len() <= s.len() <= usize::MAX,
        s.subrange(at, at + record::mutations_bytes(changes).len()) == record::mutations_bytes(
            changes,
        ),
    ensures
        record::mutations_at(s, at, changes.len(), storage_id, kind, refused) == Ok::<
            (Seq<StorageChange<Seq<u8>>>, int),
            ChangeStreamError,
        >((changes, at + record::mutations_bytes(changes).len())),
    decreases changes.len(),
{
    if changes.len() > 0 {
        let earlier = changes.drop_last();
        let front = record::mutations_bytes(earlier);
        let back = record::mutation_bytes(changes.last());
        bytes::lemma_split_at(s, at, front, back);
        lemma_mutations_round_trip(s, at, earlier, storage_id, kind, refused);
        law_mutation_round_trip(s, at + front.len(), changes.last(), storage_id, refused);
        assert(earlier.push(changes.last()) =~= changes);
    } else {
        assert(changes =~= Seq::empty());
    }
}

proof fn lemma_no_mutation_error(
    changes: Seq<StorageChange<Seq<u8>>>,
    storage_id: StorageId,
    i: int,
)
    requires
        record::mutations_error(changes, storage_id) is None,
        0 <= i < changes.len(),
    ensures
        record::mutation_error(changes[i], storage_id) is None,
    decreases changes.len(),
{
    if i < changes.len() - 1 {
        lemma_no_mutation_error(changes.drop_last(), storage_id, i);
    }
}

/// A batch that belongs into the log with this header: it has an identity, its
/// context is the log's, and its changes suit the log's storage engine.
pub open spec fn batch_belongs(batch: BatchView, header: Header) -> bool {
    &&& batch.sequence != 0
    &&& batch.physical_txn_id.0 != 0
    &&& batch.database_txn_id matches Some(id) ==> id.0 != 0
    &&& batch.table_id == header.table_id
    &&& batch.storage_id == header.storage_id
    &&& batch.schema_fingerprint == header.fingerprint
    &&& forall|i: int|
        0 <= i < batch.mutations.len() ==> record::pending_error(
            #[trigger] batch.mutations[i],
            header.kind,
        ) is None
}

/// Reading back a written batch gives that batch, unless a row image in it is
/// refused.
pub proof fn law_record_round_trip(batch: BatchView, header: Header, refused: Set<Seq<u8>>)
    requires
        record::record_error(batch) is None,
        batch_belongs(batch, header),
        rows_taken(batch.mutations, refused),
    ensures
        record::record_of(record::record_payload(batch), header, refused) == Ok::<
            BatchView,
            ChangeStreamError,
        >(batch),
{
    let s = record::record_payload(batch);
    lemma_record_pieces(batch, s);
    ids::lemma_fingerprint_of(batch.schema_fingerprint);
    assert forall|i: int| 0 <= i < batch.mutations.len() implies record::mutation_error(
        #[trigger] batch.mutations[i],
        batch.storage_id,
    ) is None by {
        lemma_no_mutation_error(batch.mutations, batch.storage_id, i);
    }
    lemma_mutations_round_trip(s, 104, batch.mutations, batch.storage_id, header.kind, refused);
}

/// A change with a refused row image is not read.
proof fn lemma_refused_mutation(
    s: Seq<u8>,
    at: int,
    change: StorageChange<Seq<u8>>,
    storage_id: StorageId,
    refused: Set<Seq<u8>>,
)
    requires
        record::mutation_error(change, storage_id) is None,
        !row_taken(change, refused),
        0 <= at,
        at + record::mutation_bytes(change).len() <= s.len() <= usize::MAX,
        s.subrange(at, at + record::mutation_bytes(change).len()) == record::mutation_bytes(change),
    ensures
        record::mutation_at(s, at, storage_id, refused) == Err::<
            (StorageChange<Seq<u8>>, int),
            ChangeStreamError,
        >(ChangeStreamError::InvalidRecord("invalid canonical row payload")),
{
    let none = Set::<Seq<u8>>::empty();
    law_mutation_round_trip(s, at, change, storage_id, none);
    match change {
        StorageChange::Insert { new_version, after } => {
            assert(record::after_at(s, at + 1 + record::key_bytes(new_version).len(), none)
                == Ok::<(Seq<u8>, int), ChangeStreamError>(
                (after, at + record::mutation_bytes(change).len()),
            ));
        },
        StorageChange::Update { old_version, new_version, after } => {},
        StorageChange::Delete { .. } => {},
    }
}

proof fn lemma_refused_mutations(
    s: Seq<u8>,
    at: int,
    changes: Seq<StorageChange<Seq<u8>>>,
    storage_id: StorageId,
    kind: ChangeStorageKind,
    refused: Set<Seq<u8>>,
)
    requires
        changes_fit(changes, storage_id, kind),
        !rows_taken(changes, refused),
        0 <= at,
        at + record::mutations_bytes(changes).len() <= s.len() <= usize::MAX,
        s.subrange(at, at + record::mutations_bytes(changes).len()) == record::mutations_bytes(
            changes,
        ),
    ensures
        record::mutations_at(s, at, changes.len(), storage_id, kind, refused) == Err::<
            (Seq<StorageChange<Seq<u8>>>, int),
            ChangeStreamError,
        >(ChangeStreamError::InvalidRecord("invalid canonical row payload")),
    decreases changes.len(),
{
    let earlier = changes.drop_last();
    let front = record::mutations_bytes(earlier);
    let back = record::mutation_bytes(changes.last());
    bytes::lemma_split_at(s, at, front, back);
    if rows_taken(earlier, refused) {
        lemma_mutations_round_trip(s, at, earlier, storage_id, kind, refused);
        let i = choose|i: int|
            0 <= i < changes.len() && !row_taken(#[trigger] changes[i], refused);
        if i < changes.len() - 1 {
            assert(row_taken(earlier[i], refused));
        }
        lemma_refused_mutation(s, at + front.len(), changes.last(), storage_id, refused);
    } else {
        lemma_refused_mutations(s, at, earlier, storage_id, kind, refused);
    }
}

/// A batch in which a refused row image stands is not read back.
pub proof fn law_refused_row_is_not_read(batch: BatchView, header: Header, refused: Set<Seq<u8>>)
    requires
        record::record_error(batch) is None,
        batch_belongs(batch, header),
        !rows_taken(batch.mutations, refused),
    ensures
        record::record_of(record::record_payload(batch), header, refused) == Err::<
            BatchView,
            ChangeStreamError,
        >(ChangeStreamError::InvalidRecord("invalid canonical row payload")),
{
    let s = record::record_payload(batch);
    lemma_record_pieces(batch, s);
    ids::lemma_fingerprint_of(batch.schema_fingerprint);
    assert forall|i: int| 0 <= i < batch.mutations.len() implies record::mutation_error(
        #[trigger] batch.mutations[i],
        batch.storage_id,
    ) is None by {
        lemma_no_mutation_error(batch.mutations, batch.storage_id, i);
    }
    lemma_refused_mutations(s, 104, batch.mutations, batch.storage_id, header.kind, refused);
}

/// Where the parts of a record stand.
#[verifier::rlimit(40)]
pub proof fn lemma_record_pieces(batch: BatchView, s: Seq<u8>)
    requires
        record::record_error(batch) is None,
        s == record::record_payload(batch),
    ensures
        s.len() == 104 + record::mutations_bytes(batch.mutations).len(),
        s[0] == log::PREPARED_TAG,
        s.subrange(1, 8) == bytes::zeros(7),
        bytes::u64_at(s, 8) == batch.sequence,
        bytes::u64_at(s, 16) == batch.physical_txn_id.0,
        bytes::u64_at(s, 24) == record::database_number(batch.database_txn_id),
        bytes::u64_at(s, 32) == batch.table_id.0,
        bytes::u64_at(s, 40) == batch.storage_id.0,
        s.subrange(48, 80) == batch.schema_fingerprint.bytes@,
        bytes::u64_at(s, 80) == batch.before.0,
        bytes::u64_at(s, 88) == batch.after.0,
        bytes::u32_at(s, 96) == batch.mutations.len(),
        s.subrange(100, 104) == bytes::zeros(4),
        s.subrange(104, s.len() as int) == record::mutations_bytes(batch.mutations),
{
    let database = record::database_number(batch.database_txn_id);
    let count = batch.mutations.len() as u32;
    let p1 = seq![log::PREPARED_TAG];
    let p2 = p1 + bytes::zeros(7);
    let p3 = p2 + bytes::u64_le(batch.sequence);
    let p4 = p3 + bytes::u64_le(batch.physical_txn_id.0);
    let p5 = p4 + bytes::u64_le(database);
    let p6 = p5 + bytes::u64_le(batch.table_id.0);
    let p7 = p6 + bytes::u64_le(batch.storage_id.0);
    let p8 = p7 + batch.schema_fingerprint.bytes@;
    let p9 = p8 + bytes::u64_le(batch.before.0);
    let p10 = p9 + bytes::u64_le(batch.after.0);
    let p11 = p10 + bytes::u32_le(count);
    let fixed = p11 + bytes::u32_le(0);
    assert(fixed == record::record_fixed(batch));
    assert(s.subrange(0, s.len() as int) =~= s);
    bytes::lemma_split(s, fixed, record::mutations_bytes(batch.mutations));
    bytes::lemma_split(s, p11, bytes::u32_le(0));
    bytes::lemma_split(s, p10, bytes::u32_le(count));
    bytes::lemma_split(s, p9, bytes::u64_le(batch.after.0));
    bytes::lemma_split(s, p8, bytes::u64_le(batch.before.0));
    bytes::lemma_split(s, p7, batch.schema_fingerprint.bytes@);
    bytes::lemma_split(s, p6, bytes::u64_le(batch.storage_id.0));
    bytes::lemma_split(s, p5, bytes::u64_le(batch.table_id.0));
    bytes::lemma_split(s, p4, bytes::u64_le(database));
    bytes::lemma_split(s, p3, bytes::u64_le(batch.physical_txn_id.0));
    bytes::lemma_split(s, p2, bytes::u64_le(batch.sequence));
    bytes::lemma_split(s, p1, bytes::zeros(7));
    assert(s.subrange(0, 1)[0] == s[0]);
    assert(bytes::u32_le(0) =~= bytes::zeros(4)) by {
        reveal(bytes::u32_le);
    }
    bytes::lemma_u64_at(s, 8, batch.sequence);
    bytes::lemma_u64_at(s, 16, batch.physical_txn_id.0);
    bytes::lemma_u64_at(s, 24, database);
    bytes::lemma_u64_at(s, 32, batch.table_id.0);
    bytes::lemma_u64_at(s, 40, batch.storage_id.0);
    bytes::lemma_u64_at(s, 80, batch.before.0);
    bytes::lemma_u64_at(s, 88, batch.after.0);
    bytes::lemma_u32_at(s, 96, count);
}

/// Reading back a written finalize marker gives its transaction and commit.
pub proof fn law_finalize_round_trip(txn_id: TxnId, commit: Option<LsmCommitSeq>)
    requires
        txn_id.0 != 0,
        commit != Some(LsmCommitSeq(0)),
    ensures
        record::finalize_of(record::finalize_payload(txn_id, commit)) == Ok::<
            (TxnId, Option<LsmCommitSeq>),
            ChangeStreamError,
        >((txn_id, commit)),
{
    let s = record::finalize_payload(txn_id, commit);
    let number = record::commit_number(commit);
    let p1 = seq![log::FINALIZE_TAG];
    let p2 = p1 + bytes::zeros(7);
    let p3 = p2 + bytes::u64_le(txn_id.0);
    assert(s.subrange(0, s.len() as int) =~= s);
    bytes::lemma_split(s, p3, bytes::u64_le(number));
    bytes::lemma_split(s, p2, bytes::u64_le(txn_id.0));
    bytes::lemma_split(s, p1, bytes::zeros(7));
    assert(s.subrange(0, 1)[0] == s[0]);
    bytes::lemma_u64_at(s, 8, txn_id.0);
    bytes::lemma_u64_at(s, 16, number);
}

/// A batch that was read takes as many bytes as the payload it was read from.
pub proof fn law_read_record_length(s: Seq<u8>, header: Header, refused: Set<Seq<u8>>)
    ensures
        record::record_of(
            s,
            header,
            refused,
        ) matches Ok(batch) ==> record::record_payload(batch).len()
            == s.len() && record::record_size(batch) == s.len() + 8,
{
    match record::record_of(s, header, refused) {
        Err(_) => {},
        Ok(batch) => {
            lemma_read_changes_length(
                s,
                log::RECORD_FIXED as int,
                bytes::u32_at(s, 96) as nat,
                batch.storage_id,
                header.kind,
                refused,
            );
            lemma_fixed_length(batch);
        },
    }
}

proof fn lemma_fixed_length(batch: BatchView)
    ensures
        record::record_fixed(batch).len() == log::RECORD_FIXED,
{
}

proof fn lemma_read_changes_length(
    s: Seq<u8>,
    at: int,
    n: nat,
    storage_id: StorageId,
    kind: ChangeStorageKind,
    refused: Set<Seq<u8>>,
)
    requires
        0 <= at,
    ensures
        record::mutations_at(
            s,
            at,
            n,
            storage_id,
            kind,
            refused,
        ) matches Ok((changes, end)) ==> end == at
            + record::mutations_bytes(changes).len(),
    decreases n,
{
    if n > 0 {
        lemma_read_changes_length(s, at, (n - 1) as nat, storage_id, kind, refused);
        match record::mutations_at(s, at, n, storage_id, kind, refused) {
            Err(_) => {},
            Ok((changes, _)) => {
                let earlier = record::mutations_at(
                    s,
                    at,
                    (n - 1) as nat,
                    storage_id,
                    kind,
                    refused,
                )->Ok_0.0;
                assert(changes.drop_last() =~= earlier);
            },
        }
    }
}

/// Filling in commit numbers does not change the size of a record.
pub proof fn law_resolving_keeps_record_size(batch: BatchView, commit: Option<LsmCommitSeq>)
    ensures
        record::record_size(
            BatchView { mutations: record::resolved_changes(batch.mutations, commit), ..batch },
        ) == record::record_size(batch),
{
    lemma_resolved_length(batch.mutations, commit);
    lemma_fixed_length(batch);
    lemma_fixed_length(
        BatchView { mutations: record::resolved_changes(batch.mutations, commit), ..batch },
    );
}

proof fn lemma_resolved_length(
    changes: Seq<StorageChange<Seq<u8>>>,
    commit: Option<LsmCommitSeq>,
)
    ensures
        record::mutations_bytes(record::resolved_changes(changes, commit)).len()
            == record::mutations_bytes(changes).len(),
    decreases changes.len(),
{
    if changes.len() > 0 && commit is Some {
        lemma_resolved_length(changes.drop_last(), commit);
        let resolved = record::resolved_changes(changes, commit);
        assert(resolved.drop_last() =~= record::resolved_changes(changes.drop_last(), commit));
        assert(resolved.last() == record::resolved_change(changes.last(), commit->0));
    }
}

} // verus!
