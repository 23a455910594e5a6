//! Reopening a log gives back the committed history that it holds.
use super::error::ChangeStreamError;
use super::history;
use super::load;
use super::load::{LogView, RecordView};
use super::log;
use super::log::Header;
use super::log_laws;
use super::reclaim;
use super::record;
use super::record_laws;
use super::recover;
use super::stream;
use super::stream::StreamView;
use super::types::{BatchView, ChangeStorageKind};
use crate::bytes;
use crate::ids::{LsmCommitSeq, StorageDataVersion};
use vstd::prelude::*;

verus! {

broadcast use crate::bytes::group_le_len;

/// Whether batches may be read back as committed ones: they are ordered by
/// sequence, each transaction has one, and each suits the storage engine.
pub open spec fn batches_committed(
    batches: Seq<BatchView>,
    versions: Map<u64, Option<LsmCommitSeq>>,
    kind: ChangeStorageKind,
) -> bool {
    &&& forall|i: int, j: int|
        0 <= i < j < batches.len() ==> (#[trigger] batches[i]).sequence < (
        #[trigger] batches[j]).sequence && batches[i].physical_txn_id != batches[j].physical_txn_id
    &&& forall|i: int|
        0 <= i < batches.len() ==> {
            let batch = #[trigger] batches[i];
            &&& versions.contains_key(batch.physical_txn_id.0)
            &&& versions[batch.physical_txn_id.0] != Some(LsmCommitSeq(0))
            &&& kind == ChangeStorageKind::Lsm ==> versions[batch.physical_txn_id.0] is Some
            &&& record::committed_errors(batch.mutations, kind) is None
        }
}

/// The record of a batch with its finalize marker.
pub open spec fn committed_record(
    batch: BatchView,
    versions: Map<u64, Option<LsmCommitSeq>>,
) -> RecordView {
    let size = record::framed(record::record_payload(batch)).len() as u64;
    load::finalized_record(
        load::loaded_record(batch, size),
        versions[batch.physical_txn_id.0],
        32,
    )
}

/// The records of the first `n` batches with their finalize markers.
pub open spec fn committed_records(
    batches: Seq<BatchView>,
    versions: Map<u64, Option<LsmCommitSeq>>,
    n: int,
) -> Seq<RecordView> {
    Seq::new(n as nat, |i: int| committed_record(batches[i], versions))
}

/// A log that was written whole, batch by batch with its finalize marker, is
/// read back as it was written.
pub proof fn law_written_log_is_read_back(
    header: Header,
    batches: Seq<BatchView>,
    versions: Map<u64, Option<LsmCommitSeq>>,
    n: int,
    recover: bool,
    refused: Set<Seq<u8>>,
)
    requires
        log::header_valid(header),
        header.active,
        batches_committed(batches, versions, header.kind),
        forall|i: int|
            0 <= i < batches.len() ==> record_laws::batch_belongs(#[trigger] batches[i], header)
                && record_laws::rows_taken(batches[i].mutations, refused),
        0 <= n <= batches.len(),
        reclaim::entries_bytes(batches, versions, n) is Ok,
    ensures
        ({
            let s = log::header_bytes(header) + reclaim::entries_bytes(batches, versions, n)->Ok_0;
            load::log_of(s, recover, refused) == Ok::<LogView, ChangeStreamError>(
                LogView {
                    header,
                    records: committed_records(batches, versions, n),
                    file_bytes: s.len() as int,
                },
            )
        }),
    decreases n,
{
    let front = log::header_bytes(header);
    if n == 0 {
        log_laws::law_fresh_log(header, recover, refused);
        log::lemma_header_pieces(header, front);
        assert(front + Seq::<u8>::empty() =~= front);
        assert(committed_records(batches, versions, 0) =~= Seq::empty());
    } else {
        law_written_log_is_read_back(header, batches, versions, n - 1, recover, refused);
        let earlier = reclaim::entries_bytes(batches, versions, n - 1)->Ok_0;
        let batch = batches[n - 1];
        let commit = versions[batch.physical_txn_id.0];
        let s0 = front + earlier;
        let b1 = record::framed(record::record_payload(batch));
        let b2 = record::finalize_bytes(batch.physical_txn_id, commit);
        let s1 = s0 + b1;
        let s2 = s1 + b2;
        assert(s2 =~= front + (earlier + b1 + b2));
        assert(log_laws::whole_log(s0, recover, refused));
        log_laws::law_appended_batch_is_read_back(s0, batch, recover, refused);
        let records0 = committed_records(batches, versions, n - 1);
        let records1 = records0.push(load::loaded_record(batch, b1.len() as u64));
        assert forall|i: int| 0 <= i < n - 1 implies (
        #[trigger] records1[i]).batch.physical_txn_id != batch.physical_txn_id by {
            assert(records1[i].batch == batches[i]);
            assert(batches[i].physical_txn_id != batches[n - 1].physical_txn_id);
        }
        load::lemma_record_position_is(records1, batch.physical_txn_id, n - 1);
        log_laws::law_appended_marker_is_read_back(
            s1,
            batch.physical_txn_id,
            commit,
            recover,
            refused,
        );
        assert(records1.update(n - 1, load::finalized_record(records1[n - 1], commit, 32))
            =~= committed_records(batches, versions, n));
    }
}

proof fn lemma_resolved_already(
    changes: Seq<super::types::StorageChange<Seq<u8>>>,
    kind: ChangeStorageKind,
    commit: Option<LsmCommitSeq>,
)
    requires
        record::committed_errors(changes, kind) is None,
    ensures
        record::resolved_changes(changes, commit) == changes,
{
    match commit {
        None => {},
        Some(number) => {
            assert forall|i: int| 0 <= i < changes.len() implies record::resolved_change(
                #[trigger] changes[i],
                number,
            ) == changes[i] by {
                lemma_no_committed_error(changes, kind, i);
            }
            assert(record::resolved_changes(changes, commit) =~= changes);
        },
    }
}

proof fn lemma_no_committed_error(
    changes: Seq<super::types::StorageChange<Seq<u8>>>,
    kind: ChangeStorageKind,
    i: int,
)
    requires
        record::committed_errors(changes, kind) is None,
        0 <= i < changes.len(),
    ensures
        record::committed_error(changes[i], kind) is None,
    decreases changes.len(),
{
    if i < changes.len() - 1 {
        lemma_no_committed_error(changes.drop_last(), kind, i);
    }
}

proof fn lemma_slot_is_the_end(batches: Seq<BatchView>, sequence: u64)
    requires
        forall|i: int| 0 <= i < batches.len() ==> (#[trigger] batches[i]).sequence <= sequence,
    ensures
        recover::batch_slot(batches, sequence) == batches.len(),
    decreases batches.len(),
{
    if batches.len() > 0 {
        let earlier = batches.drop_last();
        assert forall|i: int| 0 <= i < earlier.len() implies (#[trigger] earlier[i]).sequence
            <= sequence by {
            assert(batches[i].sequence <= sequence);
        }
        lemma_slot_is_the_end(earlier, sequence);
        assert(batches[batches.len() - 1].sequence <= sequence);
    }
}

/// Scanning finalized records puts their batches into the history, in order,
/// and needs no repair.
proof fn lemma_scan_committed_records(
    header: Header,
    file_bytes: u64,
    batches: Seq<BatchView>,
    versions: Map<u64, Option<LsmCommitSeq>>,
    n: int,
)
    requires
        batches_committed(batches, versions, header.kind),
        0 <= n <= batches.len(),
    ensures
        ({
            let all = committed_records(batches, versions, batches.len() as int);
            let scan = recover::scanned(all, header, file_bytes, n);
            &&& scan.error is None
            &&& scan.v.header == header
            &&& scan.v.file_bytes == file_bytes
            &&& scan.v.batches == batches.take(n)
            &&& scan.v.unresolved == Seq::<RecordView>::empty()
            &&& scan.repairs == Seq::<Seq<u8>>::empty()
            &&& scan.max_sequence == if n == 0 {
                0
            } else {
                batches[n - 1].sequence
            }
        }),
    decreases n,
{
    let all = committed_records(batches, versions, batches.len() as int);
    if n == 0 {
        assert(batches.take(0) =~= Seq::empty());
    } else {
        lemma_scan_committed_records(header, file_bytes, batches, versions, n - 1);
        let earlier = recover::scanned(all, header, file_bytes, n - 1);
        let batch = batches[n - 1];
        let commit = versions[batch.physical_txn_id.0];
        assert(all[n - 1].batch == batch);
        if n > 1 {
            assert(batches[n - 2].sequence < batches[n - 1].sequence);
        }
        assert(!recover::seen(all, n - 1, batch.physical_txn_id)) by {
            if recover::seen(all, n - 1, batch.physical_txn_id) {
                let i = choose|i: int|
                    0 <= i < n - 1 && (#[trigger] all[i]).batch.physical_txn_id
                        == batch.physical_txn_id;
                assert(all[i].batch == batches[i]);
                assert(batches[i].physical_txn_id != batches[n - 1].physical_txn_id);
            }
        }
        lemma_resolved_already(batch.mutations, header.kind, commit);
        assert forall|i: int| 0 <= i < n - 1 implies (#[trigger] batches.take(n - 1)[i]).sequence
            <= batch.sequence by {
            assert(batches[i].sequence < batches[n - 1].sequence);
        }
        lemma_slot_is_the_end(batches.take(n - 1), batch.sequence);
        assert(batches.take(n - 1).insert(n - 1, batch) =~= batches.take(n));
    }
}

/// Reopening a log of committed batches gives back exactly these batches, if
/// they are a chain from the log's earliest frontier to at least its current
/// one.
pub proof fn law_reopened_log_has_its_batches(
    header: Header,
    file_bytes: u64,
    batches: Seq<BatchView>,
    versions: Map<u64, Option<LsmCommitSeq>>,
)
    requires
        batches_committed(batches, versions, header.kind),
        recover::chain_error(batches, header.earliest, batches.len() as int) is None,
        batches.len() == 0 ==> header.earliest == header.current,
        header.current.0 <= stream::current_of(header, batches).0,
        batches.len() > 0 ==> batches.last().sequence < u64::MAX,
    ensures
        ({
            let records = committed_records(batches, versions, batches.len() as int);
            let scan = recover::scanned(records, header, file_bytes, batches.len() as int);
            &&& recover::recovered(scan) is Ok
            &&& recover::recovered(scan)->Ok_0.batches == batches
            &&& recover::recovered(scan)->Ok_0.header == header
            &&& recover::recovered(scan)->Ok_0.file_bytes == file_bytes
            &&& recover::recovered(scan)->Ok_0.unresolved.len() == 0
            &&& scan.repairs.len() == 0
        }),
{
    lemma_scan_committed_records(header, file_bytes, batches, versions, batches.len() as int);
    assert(batches.take(batches.len() as int) =~= batches);
}

/// After a reclamation the rewritten log, opened again, gives back the history
/// that the running stream kept.
pub proof fn law_reclaimed_log_reopens(
    v: StreamView,
    frontier: StorageDataVersion,
    recover: bool,
    refused: Set<Seq<u8>>,
)
    requires
        stream::stream_kept(v),
        history::advancing(v.batches),
        v.header.origin.0 <= v.header.earliest.0,
        v.header.storage_id.0 != 0,
        v.header.table_id.0 != 0,
        v.header.generation.0 != 0,
        v.next_sequence != 0,
        reclaim::gc_refused(v, Map::empty(), frontier) is None,
        reclaim::reclaimed_log(v, frontier) is Ok,
        batches_committed(v.batches, v.finalize_versions, v.header.kind),
        forall|i: int|
            0 <= i < v.batches.len() ==> record_laws::batch_belongs(
                #[trigger] v.batches[i],
                v.header,
            ) && record_laws::rows_taken(v.batches[i].mutations, refused)
                && v.batches[i].sequence < v.next_sequence,
    ensures
        ({
            let s = reclaim::reclaimed_log(v, frontier)->Ok_0;
            let kept = reclaim::reclaimed(v, frontier, s.len() as u64);
            let opened = load::log_of(s, recover, refused);
            let again = recover::recovered(
                recover::scanned(
                    opened->Ok_0.records,
                    opened->Ok_0.header,
                    s.len() as u64,
                    opened->Ok_0.records.len() as int,
                ),
            );
            &&& opened is Ok
            &&& opened->Ok_0.header == kept.header
            &&& opened->Ok_0.file_bytes == s.len()
            &&& again is Ok
            &&& again->Ok_0.batches == kept.batches
            &&& again->Ok_0.header == kept.header
            &&& again->Ok_0.next_sequence == kept.next_sequence
        }),
{
    let first = reclaim::first_behind(v.batches, frontier);
    reclaim::lemma_first_behind(v.batches, frontier);
    reclaim::law_gc_keeps_the_stream(v, frontier, 0);
    let header = reclaim::reclaimed_header(v, frontier);
    let kept = v.batches.subrange(first, v.batches.len() as int);
    let versions = v.finalize_versions;
    let n = kept.len() as int;
    assert forall|i: int| 0 <= i < kept.len() implies #[trigger] kept[i] == v.batches[first
        + i] by {}
    assert(batches_committed(kept, versions, header.kind)) by {
        assert forall|i: int, j: int| 0 <= i < j < kept.len() implies (
        #[trigger] kept[i]).sequence < (#[trigger] kept[j]).sequence && kept[i].physical_txn_id
            != kept[j].physical_txn_id by {
            assert(v.batches[first + i].sequence < v.batches[first + j].sequence);
        }
    }
    assert forall|i: int| 0 <= i < kept.len() implies record_laws::batch_belongs(
        #[trigger] kept[i],
        header,
    ) && record_laws::rows_taken(kept[i].mutations, refused) by {
        assert(record_laws::batch_belongs(v.batches[first + i], v.header));
    }
    lemma_current_not_below(v, frontier);
    law_written_log_is_read_back(header, kept, versions, n, recover, refused);
    assert(recover::chain_error(kept, header.earliest, n) is None) by {
        lemma_chain_holds(kept, header.earliest, n);
    }
    if n > 0 {
        assert(v.batches[v.batches.len() - 1].sequence < v.next_sequence);
        assert(kept.last() == v.batches[v.batches.len() - 1]);
    }
    let s = reclaim::reclaimed_log(v, frontier)->Ok_0;
    law_reopened_log_has_its_batches(header, s.len() as u64, kept, versions);
    lemma_scan_committed_records(header, s.len() as u64, kept, versions, n);
}

proof fn lemma_current_not_below(v: StreamView, frontier: StorageDataVersion)
    requires
        stream::stream_kept(v),
        history::advancing(v.batches),
        v.header.origin.0 <= v.header.earliest.0,
        reclaim::gc_refused(v, Map::empty(), frontier) is None,
    ensures
        v.header.origin.0 <= frontier.0 <= stream::current_of(v.header, v.batches).0,
{
}

proof fn lemma_chain_holds(batches: Seq<BatchView>, baseline: StorageDataVersion, n: int)
    requires
        stream::contiguous(batches, baseline),
        forall|i: int|
            0 <= i < batches.len() ==> (#[trigger] batches[i]).after.0 == batches[i].before.0 + 1,
        0 <= n <= batches.len(),
    ensures
        recover::chain_error(batches, baseline, n) is None,
    decreases n,
{
    if n > 0 {
        lemma_chain_holds(batches, baseline, n - 1);
        assert(batches[n - 1].before == stream::frontier_before(batches, baseline, n - 1));
        assert(batches[n - 1].after.0 == batches[n - 1].before.0 + 1);
    }
}

} // verus!
