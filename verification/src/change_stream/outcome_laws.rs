//! What recovery makes of records, by the outcomes of their transactions:
//! committed ones are the history, unresolved ones are the reservations, and
//! aborted ones are neither.
use super::load::{AuthoritativeOutcome, RecordView};
use super::log::Header;
use super::record;
use super::recover;
use super::stream;
use super::stream::{BatchFileBytes, StreamView, MARKER_BYTES};
use super::types::{BatchView, ChangeStorageKind, StorageChange, StorageVersionKey};
use crate::ids::{LsmCommitSeq, StorageDataVersion, TxnId};
use vstd::prelude::*;

verus! {

/// Whether a row version is the one before the commit, with the commit number
/// where it had none.
pub open spec fn settled_key(
    before: StorageVersionKey,
    commit: Option<LsmCommitSeq>,
    after: StorageVersionKey,
) -> bool {
    match before {
        StorageVersionKey::Heap { .. } => after == before,
        StorageVersionKey::Lsm { storage_id, row_id, version } => {
            after == StorageVersionKey::Lsm {
                storage_id,
                row_id,
                version: if version.0 == 0 && commit is Some {
                    commit->0
                } else {
                    version
                },
            }
        },
    }
}

/// Whether a change is the one before the commit, with the commit number in the
/// version that it creates.
pub open spec fn settled_change(
    before: StorageChange<Seq<u8>>,
    commit: Option<LsmCommitSeq>,
    after: StorageChange<Seq<u8>>,
) -> bool {
    match before {
        StorageChange::Insert { new_version, after: row } => {
            &&& after is Insert
            &&& settled_key(new_version, commit, after->Insert_new_version)
            &&& after->Insert_after == row
        },
        StorageChange::Update { old_version, new_version, after: row } => {
            &&& after is Update
            &&& after->Update_old_version == old_version
            &&& settled_key(new_version, commit, after->Update_new_version)
            &&& after->Update_after == row
        },
        StorageChange::Delete { old_version } => after == before,
    }
}

/// Whether a batch is that of a record, as its transaction committed it.
pub open spec fn settled(entry: RecordView, batch: BatchView) -> bool {
    &&& entry.outcome is Committed
    &&& batch == BatchView { mutations: batch.mutations, ..entry.batch }
    &&& batch.mutations.len() == entry.batch.mutations.len()
    &&& forall|c: int|
        0 <= c < batch.mutations.len() ==> settled_change(
            entry.batch.mutations[c],
            entry.outcome->Committed_0,
            #[trigger] batch.mutations[c],
        )
}

/// Whether a batch and its place in the log are those of a record: the place
/// has room for the finalize marker too.
pub open spec fn told_by(entry: RecordView, batch: BatchView, size: BatchFileBytes) -> bool {
    &&& settled(entry, batch)
    &&& size.change_bytes == entry.prepared_file_bytes
    &&& size.retained_file_bytes == entry.retained_file_bytes + if entry.finalized {
        0
    } else {
        MARKER_BYTES as int
    }
}

/// Whether batches are those of the records at `homes`: these are the committed
/// ones among the first `n`, each once, in the order of their sequence.
pub open spec fn history_at(
    records: Seq<RecordView>,
    n: int,
    batches: Seq<BatchView>,
    sizes: Seq<BatchFileBytes>,
    homes: Seq<int>,
) -> bool {
    &&& homes.len() == batches.len()
    &&& sizes.len() == batches.len()
    &&& homes.no_duplicates()
    &&& forall|i: int| #[trigger]
        homes.contains(i) <==> 0 <= i < n && records[i].outcome is Committed
    &&& forall|j: int|
        0 <= j < batches.len() ==> told_by(records[homes[j]], #[trigger] batches[j], sizes[j])
    &&& forall|j: int, k: int|
        0 <= j < k < batches.len() ==> (#[trigger] batches[j]).sequence <= (
        #[trigger] batches[k]).sequence
}

/// Whether batches are those of the committed records among the first `n`, each
/// once, in the order of their sequence.
pub open spec fn history_told(
    records: Seq<RecordView>,
    n: int,
    batches: Seq<BatchView>,
    sizes: Seq<BatchFileBytes>,
) -> bool {
    exists|homes: Seq<int>| history_at(records, n, batches, sizes, homes)
}

/// Whether reservations are the records at `homes`: these are the unresolved ones
/// among the first `n`, each once, in the order of sequence and transaction.
pub open spec fn reservations_at(
    records: Seq<RecordView>,
    n: int,
    unresolved: Seq<RecordView>,
    homes: Seq<int>,
) -> bool {
    &&& homes.len() == unresolved.len()
    &&& homes.no_duplicates()
    &&& forall|i: int| #[trigger]
        homes.contains(i) <==> 0 <= i < n && records[i].outcome is Unresolved
    &&& forall|j: int| 0 <= j < unresolved.len() ==> #[trigger] unresolved[j] == records[homes[j]]
    &&& forall|j: int, k: int|
        0 <= j < k < unresolved.len() ==> {
            let left = (#[trigger] unresolved[j]).batch;
            let right = (#[trigger] unresolved[k]).batch;
            left.sequence < right.sequence || (left.sequence == right.sequence
                && left.physical_txn_id.0 < right.physical_txn_id.0)
        }
}

/// Whether reservations are the unresolved records among the first `n`, each
/// once, in order.
pub open spec fn reservations_told(
    records: Seq<RecordView>,
    n: int,
    unresolved: Seq<RecordView>,
) -> bool {
    exists|homes: Seq<int>| reservations_at(records, n, unresolved, homes)
}

/// Whether a record's transaction committed and its finalize marker is missing.
pub open spec fn lacks_marker() -> spec_fn(RecordView) -> bool {
    |entry: RecordView| entry.outcome is Committed && !entry.finalized
}

/// The finalize marker of a record whose transaction committed.
pub open spec fn marker() -> spec_fn(RecordView) -> Seq<u8> {
    |entry: RecordView|
        record::finalize_bytes(entry.batch.physical_txn_id, entry.outcome->Committed_0)
}

/// Whether commit numbers are those of the committed records among the first `n`.
pub open spec fn commits_told(
    records: Seq<RecordView>,
    n: int,
    commits: Map<u64, Option<LsmCommitSeq>>,
) -> bool {
    &&& forall|i: int|
        0 <= i < n && (#[trigger] records[i]).outcome is Committed ==> {
            let id = records[i].batch.physical_txn_id.0;
            commits.dom().contains(id) && commits[id] == records[i].outcome->Committed_0
        }
    &&& forall|id: u64| #[trigger]
        commits.dom().contains(id) ==> exists|i: int|
            0 <= i < n && (#[trigger] records[i]).outcome is Committed
                && records[i].batch.physical_txn_id.0 == id
}

/// The batch of a committed record, with its commit number filled in, is settled.
pub proof fn lemma_settled(entry: RecordView)
    requires
        entry.outcome is Committed,
    ensures
        settled(
            entry,
            (BatchView {
                mutations: record::resolved_changes(
                    entry.batch.mutations,
                    entry.outcome->Committed_0,
                ),
                ..entry.batch
            }),
        ),
{
    let before = entry.batch.mutations;
    let commit = entry.outcome->Committed_0;
    let after = record::resolved_changes(before, commit);
    assert forall|c: int| 0 <= c < after.len() implies settled_change(
        before[c],
        commit,
        #[trigger] after[c],
    ) by {
        if let Some(number) = commit {
            assert(after[c] == record::resolved_change(before[c], number));
        }
    }
}

proof fn lemma_home_added(homes: Seq<int>, slot: int, added: int, n: int)
    requires
        0 <= slot <= homes.len(),
        homes.no_duplicates(),
        added == n - 1,
        forall|i: int| #[trigger] homes.contains(i) ==> 0 <= i < n - 1,
    ensures
        homes.insert(slot, added).no_duplicates(),
        forall|i: int| #[trigger]
            homes.insert(slot, added).contains(i) <==> homes.contains(i) || i == added,
{
    let all = homes.insert(slot, added);
    assert forall|j: int| 0 <= j < homes.len() implies (#[trigger] homes[j]) != added by {
        assert(homes.contains(homes[j]));
    }
    assert forall|i: int| #[trigger] all.contains(i) <==> homes.contains(i) || i == added by {
        if all.contains(i) {
            let j = choose|j: int| 0 <= j < all.len() && all[j] == i;
            if j < slot {
                assert(homes[j] == i);
            } else if j > slot {
                assert(homes[j - 1] == i);
            }
        }
        if homes.contains(i) {
            let k = choose|k: int| 0 <= k < homes.len() && homes[k] == i;
            if k < slot {
                assert(all[k] == i);
            } else {
                assert(all[k + 1] == i);
            }
        }
        if i == added {
            assert(all[slot] == i);
        }
    }
    assert forall|j: int, k: int| 0 <= j < all.len() && 0 <= k < all.len() && j != k implies all[j]
        != all[k] by {
        let a = if j < slot {
            j
        } else {
            j - 1
        };
        let b = if k < slot {
            k
        } else {
            k - 1
        };
        if j != slot && k != slot {
            assert(homes[a] != homes[b]);
        } else if j != slot {
            assert(homes[a] != added);
        } else {
            assert(homes[b] != added);
        }
    }
}

proof fn lemma_history_grows(
    records: Seq<RecordView>,
    n: int,
    batches: Seq<BatchView>,
    sizes: Seq<BatchFileBytes>,
    batch: BatchView,
    size: BatchFileBytes,
)
    requires
        0 < n <= records.len(),
        history_told(records, n - 1, batches, sizes),
        told_by(records[n - 1], batch, size),
    ensures
        ({
            let slot = recover::batch_slot(batches, batch.sequence);
            history_told(records, n, batches.insert(slot, batch), sizes.insert(slot, size))
        }),
{
    let slot = recover::batch_slot(batches, batch.sequence);
    recover::lemma_batch_slot(batches, batch.sequence);
    let all = batches.insert(slot, batch);
    let places = sizes.insert(slot, size);
    let m = n - 1;
    let homes = choose|homes: Seq<int>| history_at(records, m, batches, sizes, homes);
    let found = homes.insert(slot, n - 1);
    lemma_home_added(homes, slot, n - 1, n);
    assert forall|j: int| 0 <= j < all.len() implies told_by(
        records[found[j]],
        #[trigger] all[j],
        places[j],
    ) by {
        if j < slot {
            assert(told_by(records[homes[j]], batches[j], sizes[j]));
        } else if j > slot {
            assert(told_by(records[homes[j - 1]], batches[j - 1], sizes[j - 1]));
        }
    }
    assert forall|j: int, k: int| 0 <= j < k < all.len() implies (#[trigger] all[j]).sequence <= (
    #[trigger] all[k]).sequence by {
        if j < slot && k > slot {
            assert(batches[j].sequence <= batches[k - 1].sequence);
        } else if j < slot && k < slot {
            assert(batches[j].sequence <= batches[k].sequence);
        } else if j > slot {
            assert(batches[j - 1].sequence <= batches[k - 1].sequence);
        } else if j == slot && k - 1 > slot {
            assert(batches[slot].sequence <= batches[k - 1].sequence);
        }
    }
    assert(history_at(records, n, all, places, found));
}

proof fn lemma_reservations_grow(records: Seq<RecordView>, n: int, unresolved: Seq<RecordView>)
    requires
        0 < n <= records.len(),
        reservations_told(records, n - 1, unresolved),
        records[n - 1].outcome is Unresolved,
        !recover::seen(records, n - 1, records[n - 1].batch.physical_txn_id),
    ensures
        ({
            let entry = records[n - 1];
            let slot = recover::reservation_slot(unresolved, entry);
            reservations_told(records, n, unresolved.insert(slot, entry))
        }),
{
    let entry = records[n - 1];
    let slot = recover::reservation_slot(unresolved, entry);
    recover::lemma_reservation_slot(unresolved, entry);
    let all = unresolved.insert(slot, entry);
    let m = n - 1;
    let homes = choose|homes: Seq<int>| reservations_at(records, m, unresolved, homes);
    let found = homes.insert(slot, n - 1);
    lemma_home_added(homes, slot, n - 1, n);
    assert forall|j: int| 0 <= j < unresolved.len() implies (
    #[trigger] unresolved[j]).batch.physical_txn_id != entry.batch.physical_txn_id by {
        assert(homes.contains(homes[j]));
        assert(unresolved[j] == records[homes[j]]);
    }
    assert forall|j: int| 0 <= j < all.len() implies #[trigger] all[j] == records[found[j]] by {
        if j < slot {
            assert(unresolved[j] == records[homes[j]]);
        } else if j > slot {
            assert(unresolved[j - 1] == records[homes[j - 1]]);
        }
    }
    assert forall|j: int, k: int| 0 <= j < k < all.len() implies {
        let left = (#[trigger] all[j]).batch;
        let right = (#[trigger] all[k]).batch;
        left.sequence < right.sequence || (left.sequence == right.sequence
            && left.physical_txn_id.0 < right.physical_txn_id.0)
    } by {
        if j < slot && k > slot {
            assert(stream::ordered_before(unresolved[j], unresolved[k - 1]));
        } else if j < slot && k < slot {
            assert(stream::ordered_before(unresolved[j], unresolved[k]));
        } else if j > slot {
            assert(stream::ordered_before(unresolved[j - 1], unresolved[k - 1]));
        } else if j == slot && k - 1 > slot {
            assert(stream::ordered_before(unresolved[slot], unresolved[k - 1]));
            assert(!stream::ordered_before(unresolved[slot], entry));
        } else if j == slot {
            assert(!stream::ordered_before(unresolved[slot], entry));
            assert(unresolved[slot].batch.physical_txn_id != entry.batch.physical_txn_id);
        } else {
            assert(stream::ordered_before(unresolved[j], entry));
        }
    }
    assert(reservations_at(records, n, all, found));
}

proof fn lemma_history_kept(
    records: Seq<RecordView>,
    n: int,
    batches: Seq<BatchView>,
    sizes: Seq<BatchFileBytes>,
)
    requires
        0 < n <= records.len(),
        history_told(records, n - 1, batches, sizes),
        !(records[n - 1].outcome is Committed),
    ensures
        history_told(records, n, batches, sizes),
{
    let m = n - 1;
    let homes = choose|homes: Seq<int>| history_at(records, m, batches, sizes, homes);
    assert(history_at(records, n, batches, sizes, homes));
}

proof fn lemma_reservations_kept(records: Seq<RecordView>, n: int, unresolved: Seq<RecordView>)
    requires
        0 < n <= records.len(),
        reservations_told(records, n - 1, unresolved),
        !(records[n - 1].outcome is Unresolved),
    ensures
        reservations_told(records, n, unresolved),
{
    let m = n - 1;
    let homes = choose|homes: Seq<int>| reservations_at(records, m, unresolved, homes);
    assert(reservations_at(records, n, unresolved, homes));
}

proof fn lemma_commits_grow(
    records: Seq<RecordView>,
    n: int,
    commits: Map<u64, Option<LsmCommitSeq>>,
)
    requires
        0 < n <= records.len(),
        commits_told(records, n - 1, commits),
        !recover::seen(records, n - 1, records[n - 1].batch.physical_txn_id),
    ensures
        records[n - 1].outcome is Committed ==> commits_told(
            records,
            n,
            commits.insert(
                records[n - 1].batch.physical_txn_id.0,
                records[n - 1].outcome->Committed_0,
            ),
        ),
        !(records[n - 1].outcome is Committed) ==> commits_told(records, n, commits),
{
    let entry = records[n - 1];
    if entry.outcome is Committed {
        let all = commits.insert(entry.batch.physical_txn_id.0, entry.outcome->Committed_0);
        assert forall|i: int| 0 <= i < n && (#[trigger] records[i]).outcome is Committed implies {
            let id = records[i].batch.physical_txn_id.0;
            all.dom().contains(id) && all[id] == records[i].outcome->Committed_0
        } by {
            if i < n - 1 {
                assert(records[i].batch.physical_txn_id != entry.batch.physical_txn_id);
            }
        }
        assert forall|id: u64| #[trigger] all.dom().contains(id) implies exists|i: int|
            0 <= i < n && (#[trigger] records[i]).outcome is Committed
                && records[i].batch.physical_txn_id.0 == id by {
            if id == entry.batch.physical_txn_id.0 {
                assert(records[n - 1].outcome is Committed);
            } else {
                assert(commits.dom().contains(id));
            }
        }
    }
}

proof fn lemma_markers_grow(records: Seq<RecordView>, n: int)
    requires
        0 < n <= records.len(),
    ensures
        ({
            let before = records.take(n - 1).filter(lacks_marker()).map_values(marker());
            let all = records.take(n).filter(lacks_marker()).map_values(marker());
            all == if lacks_marker()(records[n - 1]) {
                before.push(marker()(records[n - 1]))
            } else {
                before
            }
        }),
{
    reveal(Seq::filter);
    let front = records.take(n);
    assert(front.drop_last() =~= records.take(n - 1));
    let before = records.take(n - 1).filter(lacks_marker());
    let all = front.filter(lacks_marker());
    assert(front.last() == records[n - 1]);
    if lacks_marker()(records[n - 1]) {
        assert(all == before.push(records[n - 1]));
        assert(all.map_values(marker()) =~= before.map_values(marker()).push(
            marker()(records[n - 1]),
        ));
    }
}

proof fn lemma_scan_counts(records: Seq<RecordView>, header: Header, file_bytes: u64, n: int)
    requires
        0 <= n <= records.len(),
        recover::scanned(records, header, file_bytes, n).error is None,
    ensures
        ({
            let scan = recover::scanned(records, header, file_bytes, n);
            &&& scan.v.header == header
            &&& scan.v.pending_finalize_checkpoints == Map::<u64, TxnId>::empty()
            &&& scan.v.file_bytes == file_bytes + MARKER_BYTES * scan.repairs.len()
            &&& scan.repairs == records.take(n).filter(lacks_marker()).map_values(marker())
        }),
    decreases n,
{
    if n == 0 {
        reveal(Seq::filter);
        assert(records.take(0).filter(lacks_marker()).map_values(marker()) =~= Seq::empty());
    } else {
        lemma_scan_counts(records, header, file_bytes, n - 1);
        lemma_markers_grow(records, n);
    }
}

proof fn lemma_scan_sequences(records: Seq<RecordView>, header: Header, file_bytes: u64, n: int)
    requires
        0 <= n <= records.len(),
        recover::scanned(records, header, file_bytes, n).error is None,
    ensures
        ({
            let most = recover::scanned(records, header, file_bytes, n).max_sequence;
            &&& forall|i: int| 0 <= i < n ==> (#[trigger] records[i]).batch.sequence <= most
            &&& most > 0 ==> exists|i: int|
                0 <= i < n && (#[trigger] records[i]).batch.sequence == most
        }),
    decreases n,
{
    if n > 0 {
        lemma_scan_sequences(records, header, file_bytes, n - 1);
        assert(records[n - 1].batch.sequence <= recover::scanned(
            records,
            header,
            file_bytes,
            n,
        ).max_sequence);
    }
}

proof fn lemma_scan_history(records: Seq<RecordView>, header: Header, file_bytes: u64, n: int)
    requires
        0 <= n <= records.len(),
        recover::records_sized(records),
        recover::scanned(records, header, file_bytes, n).error is None,
    ensures
        ({
            let v = recover::scanned(records, header, file_bytes, n).v;
            history_told(records, n, v.batches, v.batch_file_bytes)
        }),
    decreases n,
{
    if n == 0 {
        assert(history_at(records, 0, Seq::empty(), Seq::empty(), Seq::empty()));
    } else {
        let earlier = recover::scanned(records, header, file_bytes, n - 1);
        let entry = records[n - 1];
        lemma_scan_history(records, header, file_bytes, n - 1);
        if let AuthoritativeOutcome::Committed(commit) = entry.outcome {
            let batch = BatchView {
                mutations: record::resolved_changes(entry.batch.mutations, commit),
                ..entry.batch
            };
            let size = BatchFileBytes {
                change_bytes: entry.prepared_file_bytes,
                retained_file_bytes: if entry.finalized {
                    entry.retained_file_bytes
                } else {
                    (entry.retained_file_bytes + MARKER_BYTES) as u64
                },
            };
            lemma_settled(entry);
            assert(recover::sizes_loaded(records[n - 1]));
            assert(told_by(entry, batch, size));
            lemma_history_grows(
                records,
                n,
                earlier.v.batches,
                earlier.v.batch_file_bytes,
                batch,
                size,
            );
        } else {
            lemma_history_kept(records, n, earlier.v.batches, earlier.v.batch_file_bytes);
        }
    }
}

proof fn lemma_scan_reservations(
    records: Seq<RecordView>,
    header: Header,
    file_bytes: u64,
    n: int,
)
    requires
        0 <= n <= records.len(),
        recover::scanned(records, header, file_bytes, n).error is None,
    ensures
        reservations_told(
            records,
            n,
            recover::scanned(records, header, file_bytes, n).v.unresolved,
        ),
    decreases n,
{
    if n == 0 {
        assert(reservations_at(records, 0, Seq::empty(), Seq::empty()));
    } else {
        let earlier = recover::scanned(records, header, file_bytes, n - 1);
        lemma_scan_reservations(records, header, file_bytes, n - 1);
        if records[n - 1].outcome is Unresolved {
            lemma_reservations_grow(records, n, earlier.v.unresolved);
        } else {
            lemma_reservations_kept(records, n, earlier.v.unresolved);
        }
    }
}

proof fn lemma_scan_commits(records: Seq<RecordView>, header: Header, file_bytes: u64, n: int)
    requires
        0 <= n <= records.len(),
        recover::scanned(records, header, file_bytes, n).error is None,
    ensures
        commits_told(
            records,
            n,
            recover::scanned(records, header, file_bytes, n).v.finalize_versions,
        ),
    decreases n,
{
    if n > 0 {
        let earlier = recover::scanned(records, header, file_bytes, n - 1);
        lemma_scan_commits(records, header, file_bytes, n - 1);
        lemma_commits_grow(records, n, earlier.v.finalize_versions);
    }
}

/// Whatever mix of outcomes the records of a log have: the batches of the
/// recovered stream are those of the committed records, each once, in the order
/// of their sequence; its reservations are the unresolved records, each once;
/// an aborted record adds to neither. It knows the commit number of each
/// committed transaction and of no other. A finalize marker is asked for exactly
/// where a committed record has none, in the order of the records. Nothing waits
/// for a synchronization, and the next sequence is behind that of every record.
pub proof fn law_recovery_goes_by_outcomes(
    records: Seq<RecordView>,
    header: Header,
    file_bytes: u64,
)
    requires
        recover::records_sized(records),
    ensures
        ({
            let n = records.len() as int;
            let scan = recover::scanned(records, header, file_bytes, n);
            let missing = records.filter(lacks_marker());
            recover::recovered(scan) matches Ok(v) ==> {
                &&& v.header == header
                &&& history_told(records, n, v.batches, v.batch_file_bytes)
                &&& reservations_told(records, n, v.unresolved)
                &&& commits_told(records, n, v.finalize_versions)
                &&& scan.repairs == missing.map_values(marker())
                &&& v.file_bytes == file_bytes + MARKER_BYTES * missing.len()
                &&& v.pending_finalize_checkpoints == Map::<u64, TxnId>::empty()
                &&& v.finalize_checkpointed_through == if v.batches.len() == 0 {
                    header.current
                } else {
                    v.batches.last().after
                }
                &&& v.next_sequence >= header.next_sequence
                &&& forall|i: int|
                    0 <= i < n ==> (#[trigger] records[i]).batch.sequence < v.next_sequence
                &&& v.next_sequence > header.next_sequence && v.next_sequence > 1 ==> exists|i: int|
                    0 <= i < n && (#[trigger] records[i]).batch.sequence == v.next_sequence - 1
            }
        }),
{
    let n = records.len() as int;
    let scan = recover::scanned(records, header, file_bytes, n);
    if recover::recovered(scan) is Ok {
        lemma_scan_counts(records, header, file_bytes, n);
        lemma_scan_sequences(records, header, file_bytes, n);
        lemma_scan_history(records, header, file_bytes, n);
        lemma_scan_reservations(records, header, file_bytes, n);
        lemma_scan_commits(records, header, file_bytes, n);
        assert(records.take(n) =~= records);
    }
}

// ---------------------------------------------------------------------------
// When recovery succeeds
// ---------------------------------------------------------------------------
/// Whether a version suits a storage, and has its commit number.
pub open spec fn final_key(key: StorageVersionKey, kind: ChangeStorageKind) -> bool {
    match key {
        StorageVersionKey::Heap { .. } => kind == ChangeStorageKind::Heap,
        StorageVersionKey::Lsm { version, .. } => kind == ChangeStorageKind::Lsm && version.0 != 0,
    }
}

/// Whether every version of a change suits a storage, and has its commit number.
pub open spec fn final_change(change: StorageChange<Seq<u8>>, kind: ChangeStorageKind) -> bool {
    match change {
        StorageChange::Insert { new_version, .. } => final_key(new_version, kind),
        StorageChange::Update { old_version, new_version, .. } => final_key(old_version, kind)
            && final_key(new_version, kind),
        StorageChange::Delete { old_version } => final_key(old_version, kind),
    }
}

/// Whether a record can be recovered: where its transaction committed, there is
/// a commit number for a storage that needs one, all its versions are final, and
/// a transaction without a marker has an identity.
pub open spec fn acceptable(entry: RecordView, kind: ChangeStorageKind) -> bool {
    entry.outcome is Committed ==> {
        &&& kind == ChangeStorageKind::Lsm ==> entry.outcome->Committed_0 is Some
        &&& forall|batch: BatchView, c: int|
            settled(entry, batch) && 0 <= c < batch.mutations.len() ==> final_change(
                #[trigger] batch.mutations[c],
                kind,
            )
        &&& !entry.finalized ==> entry.batch.physical_txn_id.0 != 0
    }
}

proof fn lemma_final_changes(changes: Seq<StorageChange<Seq<u8>>>, kind: ChangeStorageKind)
    ensures
        record::committed_errors(changes, kind) is None <==> forall|c: int|
            0 <= c < changes.len() ==> final_change(#[trigger] changes[c], kind),
    decreases changes.len(),
{
    if changes.len() > 0 {
        let front = changes.drop_last();
        lemma_final_changes(front, kind);
        assert forall|c: int| 0 <= c < front.len() implies #[trigger] front[c] == changes[c] by {}
        if forall|c: int| 0 <= c < front.len() ==> final_change(#[trigger] front[c], kind) {
            assert forall|c: int| 0 <= c < changes.len() - 1 implies final_change(
                #[trigger] changes[c],
                kind,
            ) by {
                assert(front[c] == changes[c]);
            }
        } else {
            let c = choose|c: int| 0 <= c < front.len() && !final_change(#[trigger] front[c], kind);
            assert(!final_change(changes[c], kind));
        }
        assert(changes.last() == changes[changes.len() - 1]);
    }
}

proof fn lemma_settled_unique(entry: RecordView, left: BatchView, right: BatchView)
    requires
        settled(entry, left),
        settled(entry, right),
    ensures
        left == right,
{
    assert forall|c: int| 0 <= c < left.mutations.len() implies left.mutations[c]
        == right.mutations[c] by {
        let before = entry.batch.mutations[c];
        let commit = entry.outcome->Committed_0;
        assert(settled_change(before, commit, left.mutations[c]));
        assert(settled_change(before, commit, right.mutations[c]));
    }
    assert(left.mutations =~= right.mutations);
}

/// The versions of a committed record are final exactly where its settled changes
/// pass the check.
pub proof fn lemma_final_versions(entry: RecordView, kind: ChangeStorageKind)
    requires
        entry.outcome is Committed,
    ensures
        record::committed_errors(
            record::resolved_changes(entry.batch.mutations, entry.outcome->Committed_0),
            kind,
        ) is None <==> forall|batch: BatchView, c: int|
            settled(entry, batch) && 0 <= c < batch.mutations.len() ==> final_change(
                #[trigger] batch.mutations[c],
                kind,
            ),
{
    let batch = BatchView {
        mutations: record::resolved_changes(entry.batch.mutations, entry.outcome->Committed_0),
        ..entry.batch
    };
    lemma_settled(entry);
    lemma_final_changes(batch.mutations, kind);
    if forall|c: int|
        0 <= c < batch.mutations.len() ==> final_change(#[trigger] batch.mutations[c], kind) {
        assert forall|other: BatchView, c: int|
            settled(entry, other) && 0 <= c < other.mutations.len() implies final_change(
            #[trigger] other.mutations[c],
            kind,
        ) by {
            lemma_settled_unique(entry, batch, other);
        }
    } else {
        let c = choose|c: int|
            0 <= c < batch.mutations.len() && !final_change(#[trigger] batch.mutations[c], kind);
        assert(settled(entry, batch) && !final_change(batch.mutations[c], kind));
    }
}

proof fn lemma_acceptable(entry: RecordView, kind: ChangeStorageKind)
    requires
        entry.outcome is Committed,
    ensures
        acceptable(entry, kind) <==> {
            let commit = entry.outcome->Committed_0;
            &&& !(kind == ChangeStorageKind::Lsm && commit is None)
            &&& record::committed_errors(
                record::resolved_changes(entry.batch.mutations, commit),
                kind,
            ) is None
            &&& entry.finalized || entry.batch.physical_txn_id.0 != 0
        },
{
    lemma_final_versions(entry, kind);
}

/// Whether the first `n` records can be recovered: each can, no two are of one
/// transaction, and the log has room for the markers that are missing.
pub open spec fn all_acceptable(
    records: Seq<RecordView>,
    header: Header,
    file_bytes: u64,
    n: int,
) -> bool {
    &&& forall|i: int| 0 <= i < n ==> acceptable(#[trigger] records[i], header.kind)
    &&& forall|i: int, j: int|
        0 <= i < j < n ==> (#[trigger] records[i]).batch.physical_txn_id != (
        #[trigger] records[j]).batch.physical_txn_id
    &&& file_bytes + MARKER_BYTES * records.take(n).filter(lacks_marker()).len() <= u64::MAX
}

proof fn lemma_scan_accepts(records: Seq<RecordView>, header: Header, file_bytes: u64, n: int)
    requires
        0 <= n <= records.len(),
        recover::records_sized(records),
    ensures
        recover::scanned(records, header, file_bytes, n).error is None <==> all_acceptable(
            records,
            header,
            file_bytes,
            n,
        ),
    decreases n,
{
    if n == 0 {
        reveal(Seq::filter);
        assert(records.take(0).filter(lacks_marker()).len() == 0);
    } else {
        let entry = records[n - 1];
        let earlier = recover::scanned(records, header, file_bytes, n - 1);
        lemma_scan_accepts(records, header, file_bytes, n - 1);
        lemma_markers_grow(records, n);
        let before = records.take(n - 1).filter(lacks_marker());
        let all = records.take(n).filter(lacks_marker());
        assert(before.map_values(marker()).len() == before.len());
        assert(all.map_values(marker()).len() == all.len());
        if earlier.error is None {
            lemma_scan_counts(records, header, file_bytes, n - 1);
            if entry.outcome is Committed {
                lemma_acceptable(entry, header.kind);
            }
            if recover::seen(records, n - 1, entry.batch.physical_txn_id) {
                let i = choose|i: int|
                    0 <= i < n - 1 && (#[trigger] records[i]).batch.physical_txn_id
                        == entry.batch.physical_txn_id;
                assert(records[i].batch.physical_txn_id == records[n - 1].batch.physical_txn_id);
            } else {
                assert forall|i: int, j: int| 0 <= i < j < n implies (
                #[trigger] records[i]).batch.physical_txn_id != (
                #[trigger] records[j]).batch.physical_txn_id by {}
            }
        }
    }
}

/// Whether a batch starts where the one before it ended, the first at a baseline,
/// and advances by one.
pub open spec fn linked(batches: Seq<BatchView>, baseline: StorageDataVersion, j: int) -> bool {
    &&& batches[j].before == if j == 0 {
        baseline
    } else {
        batches[j - 1].after
    }
    &&& batches[j].after.0 == batches[j].before.0 + 1
}

proof fn lemma_chain(batches: Seq<BatchView>, baseline: StorageDataVersion, n: int)
    requires
        0 <= n <= batches.len(),
    ensures
        recover::chain_error(batches, baseline, n) is None <==> forall|j: int|
            0 <= j < n ==> #[trigger] linked(batches, baseline, j),
    decreases n,
{
    if n > 0 {
        lemma_chain(batches, baseline, n - 1);
        if recover::chain_error(batches, baseline, n) is None {
            assert(linked(batches, baseline, n - 1));
        } else if recover::chain_error(batches, baseline, n - 1) is None {
            assert(!linked(batches, baseline, n - 1));
        }
    }
}

/// A log is recovered exactly where its records can be: each can by itself, no
/// two are of one transaction, the missing markers fit, the committed batches in
/// the order of their sequence follow each other from the earliest frontier one
/// version at a time, they reach the frontier that the header tells, and there
/// is a sequence left.
pub proof fn law_sound_log_is_recovered(
    records: Seq<RecordView>,
    header: Header,
    file_bytes: u64,
)
    requires
        recover::records_sized(records),
    ensures
        ({
            let n = records.len() as int;
            let scan = recover::scanned(records, header, file_bytes, n);
            let batches = scan.v.batches;
            &&& recover::recovered(scan) is Ok <==> {
                &&& all_acceptable(records, header, file_bytes, n)
                &&& forall|j: int|
                    0 <= j < batches.len() ==> #[trigger] linked(batches, header.earliest, j)
                &&& batches.len() == 0 ==> header.earliest == header.current
                &&& batches.len() > 0 ==> header.current.0 <= batches.last().after.0
                &&& forall|i: int|
                    0 <= i < n ==> (#[trigger] records[i]).batch.sequence < u64::MAX
            }
            &&& all_acceptable(records, header, file_bytes, n) ==> history_told(
                records,
                n,
                batches,
                scan.v.batch_file_bytes,
            )
        }),
{
    let n = records.len() as int;
    let scan = recover::scanned(records, header, file_bytes, n);
    lemma_scan_accepts(records, header, file_bytes, n);
    if scan.error is None {
        lemma_scan_counts(records, header, file_bytes, n);
        lemma_scan_sequences(records, header, file_bytes, n);
        lemma_scan_history(records, header, file_bytes, n);
        lemma_chain(scan.v.batches, header.earliest, scan.v.batches.len() as int);
    }
}

/// Aborted records leave no trace: a log is recovered into the same stream with
/// them as without the last of them, but for the next sequence.
pub proof fn law_aborted_record_leaves_no_trace(
    records: Seq<RecordView>,
    header: Header,
    file_bytes: u64,
)
    requires
        records.len() > 0,
        records.last().outcome is Aborted,
        recover::recovered(
            recover::scanned(records, header, file_bytes, records.len() as int),
        ) is Ok,
    ensures
        ({
            let n = records.len() as int;
            let with = recover::scanned(records, header, file_bytes, n);
            let without = recover::scanned(records, header, file_bytes, n - 1);
            let v = recover::recovered(with)->Ok_0;
            let w = recover::recovered(without)->Ok_0;
            &&& recover::recovered(without) is Ok
            &&& with.repairs == without.repairs
            &&& v == StreamView { next_sequence: v.next_sequence, ..w }
        }),
{
}

} // verus!
