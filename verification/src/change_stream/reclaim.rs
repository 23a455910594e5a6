//! Giving up the oldest history of an enabled stream.
use super::error::ChangeStreamError;
use super::history;
use super::log;
use super::log::{Header, CHANGE_LOG_FORMAT_VERSION, V2_HEADER_SIZE};
use super::pins;
use super::pins::{Pins, RetentionPinRegistry};
use super::record;
use super::stream;
use super::stream::{
    BatchFileBytes, ChangeStreamCursor, EnabledStream, StreamView, MARKER_BYTES,
};
use super::types::BatchView;
use crate::bytes;
use crate::ids::{ChangeStreamGeneration, LsmCommitSeq, StorageDataVersion, StorageId};
use vstd::prelude::*;

verus! {

broadcast use {
    crate::bytes::group_le_len,
    vstd::std_specs::btree::group_btree_axioms,
    vstd::laws_cmp::group_laws_cmp,
};

/// What a reclamation did.
#[derive(Debug, Clone, Copy, PartialEq, Eq, Structural)]
pub struct ChangeStreamGcStorageReport {
    pub storage_id: StorageId,
    pub generation: ChangeStreamGeneration,
    pub previous_earliest_frontier: StorageDataVersion,
    pub new_earliest_frontier: StorageDataVersion,
    pub current_frontier: StorageDataVersion,
    pub batches_removed: u64,
    pub mutations_removed: u64,
    pub bytes_before: u64,
    pub bytes_after: u64,
    pub bytes_reclaimed: u64,
}

/// The first batch that ends behind a frontier, or else the end of the
/// history.
pub open spec fn first_behind(batches: Seq<BatchView>, frontier: StorageDataVersion) -> int
    decreases batches.len(),
{
    if batches.len() == 0 {
        0
    } else {
        let earlier = first_behind(batches.drop_last(), frontier);
        if earlier < batches.len() - 1 || batches.last().after.0 > frontier.0 {
            earlier
        } else {
            batches.len() as int
        }
    }
}

/// Everything in front of the first batch behind a frontier ends at or before
/// it.
pub proof fn lemma_first_behind(batches: Seq<BatchView>, frontier: StorageDataVersion)
    ensures
        ({
            let first = first_behind(batches, frontier);
            &&& 0 <= first <= batches.len()
            &&& first < batches.len() ==> batches[first].after.0 > frontier.0
            &&& forall|i: int| 0 <= i < first ==> (#[trigger] batches[i]).after.0 <= frontier.0
        }),
    decreases batches.len(),
{
    if batches.len() > 0 {
        let earlier = batches.drop_last();
        lemma_first_behind(earlier, frontier);
        assert forall|i: int| 0 <= i < earlier.len() implies #[trigger] batches[i] == earlier[i] by {}
    }
}

/// How many changes the batches hold.
pub open spec fn mutation_total(batches: Seq<BatchView>) -> int
    decreases batches.len(),
{
    if batches.len() == 0 {
        0
    } else {
        mutation_total(batches.drop_last()) + batches.last().mutations.len()
    }
}

/// How many bytes of a rewritten log the batches take.
pub open spec fn retained_total(sizes: Seq<BatchFileBytes>) -> int
    decreases sizes.len(),
{
    if sizes.len() == 0 {
        0
    } else {
        retained_total(sizes.drop_last()) + sizes.last().retained_file_bytes
    }
}

/// Why the history cannot be given up to a frontier.
pub open spec fn gc_refused(
    v: StreamView,
    registered: Pins,
    frontier: StorageDataVersion,
) -> Option<ChangeStreamError> {
    let current = stream::current_of(v.header, v.batches);
    let first = first_behind(v.batches, frontier);
    let lowest = pins::lowest_pin(registered, v.header.storage_id, v.header.generation);
    if v.unresolved.len() != 0 {
        Some(ChangeStreamError::Busy)
    } else if v.pending_finalize_checkpoints.len() != 0 {
        Some(ChangeStreamError::FinalizeCheckpointPending)
    } else if lowest matches Some(pinned) && frontier.0 > pinned.0 {
        Some(ChangeStreamError::RetentionPinned { requested: frontier, pinned: lowest->0 })
    } else if frontier.0 < v.header.earliest.0 || frontier.0 > current.0 {
        Some(ChangeStreamError::HistoryUnavailable)
    } else if first < v.batches.len() && v.batches[first].before != frontier {
        Some(ChangeStreamError::HistoryUnavailable)
    } else if first == v.batches.len() && frontier != current {
        Some(ChangeStreamError::HistoryUnavailable)
    } else {
        None
    }
}

/// Whether the history already starts at the frontier, in the current format.
pub open spec fn gc_is_done(v: StreamView, frontier: StorageDataVersion) -> bool {
    frontier == v.header.earliest && v.header.version == CHANGE_LOG_FORMAT_VERSION
}

/// The header of the log after the reclamation.
pub open spec fn reclaimed_header(v: StreamView, frontier: StorageDataVersion) -> Header {
    Header {
        version: CHANGE_LOG_FORMAT_VERSION,
        active: true,
        earliest: frontier,
        current: stream::current_of(v.header, v.batches),
        next_sequence: v.next_sequence,
        ..v.header
    }
}

/// The log entries of the first `n` batches, each with its finalize marker; or
/// why they cannot be written.
pub open spec fn entries_bytes(
    batches: Seq<BatchView>,
    versions: Map<u64, Option<LsmCommitSeq>>,
    n: int,
) -> Result<Seq<u8>, ChangeStreamError>
    decreases n,
{
    if n <= 0 {
        Ok(Seq::empty())
    } else {
        let batch = batches[n - 1];
        let txn_id = batch.physical_txn_id;
        match entries_bytes(batches, versions, n - 1) {
            Err(error) => Err(error),
            Ok(earlier) => if let Some(error) = record::record_error(batch) {
                Err(error)
            } else if !versions.contains_key(txn_id.0) {
                Err(ChangeStreamError::InvalidRecord("committed batch has no finalize identity"))
            } else if txn_id.0 == 0 {
                Err(ChangeStreamError::InvalidRecord("zero transaction identity"))
            } else {
                Ok(
                    earlier + record::framed(record::record_payload(batch))
                        + record::finalize_bytes(txn_id, versions[txn_id.0]),
                )
            },
        }
    }
}

/// The log after the reclamation, or why it cannot be written.
pub open spec fn reclaimed_log(v: StreamView, frontier: StorageDataVersion) -> Result<
    Seq<u8>,
    ChangeStreamError,
> {
    let first = first_behind(v.batches, frontier);
    let retained = v.batches.subrange(first, v.batches.len() as int);
    match entries_bytes(retained, v.finalize_versions, retained.len() as int) {
        Err(error) => Err(error),
        Ok(entries) => Ok(log::header_bytes(reclaimed_header(v, frontier)) + entries),
    }
}

/// The commit numbers without those of the first `n` batches.
pub open spec fn versions_without(
    versions: Map<u64, Option<LsmCommitSeq>>,
    batches: Seq<BatchView>,
    n: int,
) -> Map<u64, Option<LsmCommitSeq>>
    decreases n,
{
    if n <= 0 {
        versions
    } else {
        versions_without(versions, batches, n - 1).remove(batches[n - 1].physical_txn_id.0)
    }
}

/// The stream after the reclamation, with a log of `size` bytes.
pub open spec fn reclaimed(v: StreamView, frontier: StorageDataVersion, size: u64) -> StreamView {
    let first = first_behind(v.batches, frontier);
    StreamView {
        header: reclaimed_header(v, frontier),
        file_bytes: size,
        batches: v.batches.subrange(first, v.batches.len() as int),
        batch_file_bytes: v.batch_file_bytes.subrange(first, v.batch_file_bytes.len() as int),
        finalize_versions: versions_without(v.finalize_versions, v.batches, first),
        finalize_checkpointed_through: stream::current_of(v.header, v.batches),
        ..v
    }
}

/// The report on a reclamation that left a log of `size` bytes.
pub open spec fn gc_report(
    v: StreamView,
    frontier: StorageDataVersion,
    size: u64,
) -> ChangeStreamGcStorageReport {
    let first = first_behind(v.batches, frontier);
    ChangeStreamGcStorageReport {
        storage_id: v.header.storage_id,
        generation: v.header.generation,
        previous_earliest_frontier: v.header.earliest,
        new_earliest_frontier: frontier,
        current_frontier: stream::current_of(v.header, v.batches),
        batches_removed: first as u64,
        mutations_removed: mutation_total(v.batches.take(first)) as u64,
        bytes_before: v.file_bytes,
        bytes_after: size,
        bytes_reclaimed: if v.file_bytes > size {
            (v.file_bytes - size) as u64
        } else {
            0
        },
    }
}

/// The report where there was nothing to give up.
pub open spec fn gc_report_unchanged(v: StreamView) -> ChangeStreamGcStorageReport {
    ChangeStreamGcStorageReport {
        storage_id: v.header.storage_id,
        generation: v.header.generation,
        previous_earliest_frontier: v.header.earliest,
        new_earliest_frontier: v.header.earliest,
        current_frontier: stream::current_of(v.header, v.batches),
        batches_removed: 0,
        mutations_removed: 0,
        bytes_before: v.file_bytes,
        bytes_after: v.file_bytes,
        bytes_reclaimed: 0,
    }
}

/// What is to be done to give up history.
pub enum GcPlan {
    /// There is nothing to give up.
    Unchanged(ChangeStreamGcStorageReport),
    /// The log is to be replaced by `contents`, and the guard by `guard`.
    Rewrite { contents: Vec<u8>, guard: Vec<u8> },
}

impl EnabledStream {
    fn find_first_behind(&self, frontier: StorageDataVersion) -> (first: usize)
        ensures
            first == first_behind(self@.batches, frontier),
            first <= self.batches@.len(),
    {
        let mut i: usize = 0;
        proof {
            lemma_first_behind(self@.batches, frontier);
        }
        while i < self.batches.len()
            invariant
                i <= first_behind(self@.batches, frontier),
                first_behind(self@.batches, frontier) <= self.batches@.len(),
                first_behind(self@.batches, frontier) < self.batches@.len()
                    ==> self@.batches[first_behind(self@.batches, frontier)].after.0 > frontier.0,
                forall|k: int|
                    0 <= k < first_behind(self@.batches, frontier) ==> (
                    #[trigger] self@.batches[k]).after.0 <= frontier.0,
            ensures
                i == first_behind(self@.batches, frontier),
            decreases self.batches@.len() - i,
        {
            assert(self@.batches[i as int] == self.batches@[i as int]@);
            if self.batches[i].after.0 > frontier.0 {
                break;
            }
            i = i + 1;
        }
        i
    }

    fn header_after(&self, frontier: StorageDataVersion) -> (header: Header)
        ensures
            header == reclaimed_header(self@, frontier),
    {
        Header {
            version: CHANGE_LOG_FORMAT_VERSION,
            active: true,
            kind: self.header.kind,
            storage_id: self.header.storage_id,
            table_id: self.header.table_id,
            fingerprint: self.header.fingerprint,
            generation: self.header.generation,
            origin: self.header.origin,
            earliest: frontier,
            current: self.effective_current(),
            next_sequence: self.next_sequence,
        }
    }

    /// The entries of the batches from `first` on.
    fn encode_retained(&self, first: usize) -> (entries: Result<Vec<u8>, ChangeStreamError>)
        requires
            first <= self.batches@.len(),
        ensures
            ({
                let retained = self@.batches.subrange(first as int, self@.batches.len() as int);
                match entries_bytes(retained, self@.finalize_versions, retained.len() as int) {
                    Err(error) => entries == Err::<Vec<u8>, ChangeStreamError>(error),
                    Ok(value) => entries is Ok && entries->Ok_0@ == value,
                }
            }),
    {
        let ghost retained = self@.batches.subrange(first as int, self@.batches.len() as int);
        let ghost versions = self@.finalize_versions;
        let mut output: Vec<u8> = Vec::new();
        let mut i: usize = first;
        assert(output@ =~= Seq::empty());
        while i < self.batches.len()
            invariant
                first <= i <= self.batches@.len(),
                retained == self@.batches.subrange(first as int, self@.batches.len() as int),
                versions == self@.finalize_versions,
                entries_bytes(retained, versions, i - first) == Ok::<Seq<u8>, ChangeStreamError>(
                    output@,
                ),
            decreases self.batches@.len() - i,
        {
            let batch = &self.batches[i];
            proof {
                assert(retained[i - first] == batch@);
                if entries_bytes(retained, versions, i - first + 1) is Err {
                    lemma_entries_error(
                        retained,
                        versions,
                        i - first + 1,
                        retained.len() as int,
                    );
                }
            }
            let prepared: Vec<u8> = record::encode_record(batch)?;
            let commit: Option<LsmCommitSeq> = match self.finalize_versions.get(
                &batch.physical_txn_id.0,
            ) {
                None => {
                    return Err(
                        ChangeStreamError::InvalidRecord(
                            "committed batch has no finalize identity",
                        ),
                    );
                },
                Some(commit) => *commit,
            };
            let marker: Vec<u8> = record::encode_finalize(batch.physical_txn_id, commit)?;
            bytes::push_bytes(&mut output, prepared.as_slice());
            bytes::push_bytes(&mut output, marker.as_slice());
            i = i + 1;
        }
        Ok(output)
    }

    /// Decides how to give up the history up to a frontier.
    pub fn plan_gc(&self, registry: &RetentionPinRegistry, frontier: StorageDataVersion) -> (plan:
        Result<GcPlan, ChangeStreamError>)
        requires
            self.wf(),
        ensures
            match gc_refused(self@, registry.pins@, frontier) {
                Some(error) => plan == Err::<GcPlan, ChangeStreamError>(error),
                None => if gc_is_done(self@, frontier) {
                    plan == Ok::<GcPlan, ChangeStreamError>(
                        GcPlan::Unchanged(gc_report_unchanged(self@)),
                    )
                } else {
                    match reclaimed_log(self@, frontier) {
                        Err(error) => plan == Err::<GcPlan, ChangeStreamError>(error),
                        Ok(contents) => {
                            &&& plan is Ok
                            &&& plan->Ok_0 is Rewrite
                            &&& plan->Ok_0->contents@ == contents
                            &&& plan->Ok_0->guard@ == log::header_bytes(
                                reclaimed_header(self@, frontier),
                            )
                        },
                    }
                },
            },
    {
        if self.unresolved.len() != 0 {
            return Err(ChangeStreamError::Busy);
        }
        if self.pending_finalize_checkpoints.len() != 0 {
            return Err(ChangeStreamError::FinalizeCheckpointPending);
        }
        if let Some(pinned) = registry.lowest(self.header.storage_id, self.header.generation) {
            if frontier.0 > pinned.0 {
                return Err(ChangeStreamError::RetentionPinned { requested: frontier, pinned });
            }
        }
        let current = self.effective_current();
        if frontier.0 < self.header.earliest.0 || frontier.0 > current.0 {
            return Err(ChangeStreamError::HistoryUnavailable);
        }
        let first: usize = self.find_first_behind(frontier);
        if first < self.batches.len() {
            assert(self@.batches[first as int] == self.batches@[first as int]@);
            if self.batches[first].before != frontier {
                return Err(ChangeStreamError::HistoryUnavailable);
            }
        } else if frontier != current {
            return Err(ChangeStreamError::HistoryUnavailable);
        }
        if frontier == self.header.earliest && self.header.version == CHANGE_LOG_FORMAT_VERSION {
            return Ok(
                GcPlan::Unchanged(
                    ChangeStreamGcStorageReport {
                        storage_id: self.header.storage_id,
                        generation: self.header.generation,
                        previous_earliest_frontier: self.header.earliest,
                        new_earliest_frontier: self.header.earliest,
                        current_frontier: current,
                        batches_removed: 0,
                        mutations_removed: 0,
                        bytes_before: self.file_bytes,
                        bytes_after: self.file_bytes,
                        bytes_reclaimed: 0,
                    },
                ),
            );
        }
        let guard: Vec<u8> = log::encode_header(&self.header_after(frontier));
        let entries: Vec<u8> = self.encode_retained(first)?;
        let mut contents: Vec<u8> = bytes::copy_bytes(guard.as_slice());
        bytes::push_bytes(&mut contents, entries.as_slice());
        Ok(GcPlan::Rewrite { contents, guard })
    }

    pub fn count_mutations(&self, n: usize) -> (total: u64)
        requires
            n <= self.batches@.len(),
            mutation_total(self@.batches.take(n as int)) <= u64::MAX,
        ensures
            total == mutation_total(self@.batches.take(n as int)),
    {
        let mut total: u64 = 0;
        let mut i: usize = 0;
        assert(self@.batches.take(0) =~= Seq::empty());
        while i < n
            invariant
                i <= n <= self.batches@.len(),
                mutation_total(self@.batches.take(n as int)) <= u64::MAX,
                total == mutation_total(self@.batches.take(i as int)),
            decreases n - i,
        {
            proof {
                let batches = self@.batches;
                assert(batches.take(i + 1).drop_last() =~= batches.take(i as int));
                assert(batches.take(i + 1).last() == self.batches@[i as int]@);
                lemma_mutation_total_monotone(batches, i + 1, n as int);
            }
            total = total + self.batches[i].mutations.len() as u64;
            i = i + 1;
        }
        total
    }

    fn forget_versions(&mut self, n: usize)
        requires
            n <= old(self).batches@.len(),
        ensures
            final(self)@ == (StreamView {
                finalize_versions: versions_without(
                    old(self)@.finalize_versions,
                    old(self)@.batches,
                    n as int,
                ),
                ..old(self)@
            }),
            final(self).batches@ == old(self).batches@,
    {
        let mut i: usize = 0;
        while i < n
            invariant
                i <= n <= self.batches@.len(),
                self.batches@ == old(self).batches@,
                self@ == (StreamView {
                    finalize_versions: versions_without(
                        old(self)@.finalize_versions,
                        old(self)@.batches,
                        i as int,
                    ),
                    ..old(self)@
                }),
            decreases n - i,
        {
            assert(self@.batches[i as int] == self.batches@[i as int]@);
            let txn_id: u64 = self.batches[i].physical_txn_id.0;
            self.finalize_versions.remove(&txn_id);
            i = i + 1;
        }
    }

    /// Takes note that the log was replaced by one of `size` bytes.
    pub fn complete_gc(&mut self, frontier: StorageDataVersion, size: u64) -> (report:
        ChangeStreamGcStorageReport)
        requires
            old(self).wf(),
            gc_refused(old(self)@, Map::empty(), frontier) is None,
            reclaimed_log(old(self)@, frontier) matches Ok(contents) && size == contents.len(),
            mutation_total(
                old(self)@.batches.take(first_behind(old(self)@.batches, frontier)),
            ) <= u64::MAX,
        ensures
            final(self).wf(),
            final(self)@ == reclaimed(old(self)@, frontier, size),
            report == gc_report(old(self)@, frontier, size),
            report.bytes_after == V2_HEADER_SIZE + retained_total(
                reclaimed(old(self)@, frontier, size).batch_file_bytes,
            ),
    {
        let ghost v = self@;
        let current = self.effective_current();
        let first: usize = self.find_first_behind(frontier);
        let mutations_removed: u64 = self.count_mutations(first);
        let replacement = self.header_after(frontier);
        let previous_earliest_frontier = self.header.earliest;
        let bytes_before: u64 = self.file_bytes;
        self.forget_versions(first);
        assert(v.batches.len() == self.batches@.len());
        let retained = self.batches.split_off(first);
        let sizes = self.batch_file_bytes.split_off(first);
        self.batches = retained;
        self.batch_file_bytes = sizes;
        self.header = replacement;
        self.file_bytes = size;
        self.finalize_checkpointed_through = current;
        proof {
            assert(self@.batches =~= v.batches.subrange(first as int, v.batches.len() as int));
            assert(self@.batch_file_bytes =~= v.batch_file_bytes.subrange(
                first as int,
                v.batch_file_bytes.len() as int,
            ));
            law_gc_keeps_the_stream(v, frontier, size);
            law_rewritten_log_size(v, frontier);
        }
        ChangeStreamGcStorageReport {
            storage_id: self.header.storage_id,
            generation: self.header.generation,
            previous_earliest_frontier,
            new_earliest_frontier: frontier,
            current_frontier: current,
            batches_removed: first as u64,
            mutations_removed,
            bytes_before,
            bytes_after: size,
            bytes_reclaimed: bytes_before.saturating_sub(size),
        }
    }
}

proof fn lemma_mutation_total_monotone(batches: Seq<BatchView>, n: int, m: int)
    requires
        0 <= n <= m <= batches.len(),
    ensures
        mutation_total(batches.take(n)) <= mutation_total(batches.take(m)),
    decreases m,
{
    if n < m {
        lemma_mutation_total_monotone(batches, n, m - 1);
        assert(batches.take(m).drop_last() =~= batches.take(m - 1));
    }
}

proof fn lemma_entries_error(
    batches: Seq<BatchView>,
    versions: Map<u64, Option<LsmCommitSeq>>,
    n: int,
    m: int,
)
    requires
        0 <= n <= m,
        entries_bytes(batches, versions, n) is Err,
    ensures
        entries_bytes(batches, versions, m) is Err,
        entries_bytes(batches, versions, m)->Err_0 == entries_bytes(batches, versions, n)->Err_0,
    decreases m,
{
    if n < m {
        lemma_entries_error(batches, versions, n, m - 1);
    }
}

// ---------------------------------------------------------------------------
// Laws
// ---------------------------------------------------------------------------
/// A reclamation keeps the stream: its history is gap-free from the new
/// earliest frontier on, and its committed frontier stays.
pub proof fn law_gc_keeps_the_stream(v: StreamView, frontier: StorageDataVersion, size: u64)
    requires
        stream::stream_kept(v),
        gc_refused(v, Map::empty(), frontier) is None,
    ensures
        stream::stream_kept(reclaimed(v, frontier, size)),
        stream::current_of(
            reclaimed(v, frontier, size).header,
            reclaimed(v, frontier, size).batches,
        ) == stream::current_of(v.header, v.batches),
{
    lemma_first_behind(v.batches, frontier);
    let first = first_behind(v.batches, frontier);
    let w = reclaimed(v, frontier, size);
    assert forall|i: int| 0 <= i < w.batches.len() implies w.batches[i].before
        == #[trigger] stream::frontier_before(w.batches, frontier, i) by {
        assert(w.batches[i] == v.batches[first + i]);
        assert(v.batches[first + i].before == stream::frontier_before(
            v.batches,
            v.header.earliest,
            first + i,
        ));
        if i > 0 {
            assert(w.batches[i - 1] == v.batches[first + i - 1]);
        }
    }
    assert forall|i: int| 0 <= i < w.batches.len() implies (
    #[trigger] w.batch_file_bytes[i]).change_bytes == record::record_size(w.batches[i])
        && w.batch_file_bytes[i].retained_file_bytes == w.batch_file_bytes[i].change_bytes
        + MARKER_BYTES by {
        assert(w.batches[i] == v.batches[first + i]);
        assert(w.batch_file_bytes[i] == v.batch_file_bytes[first + i]);
    }
    if w.batches.len() > 0 {
        assert(w.batches.last() == v.batches.last());
    }
}

/// A rewritten log takes the bytes of its header and those that the batches it
/// keeps were counted with.
pub proof fn law_rewritten_log_size(v: StreamView, frontier: StorageDataVersion)
    requires
        stream::stream_kept(v),
        reclaimed_log(v, frontier) is Ok,
    ensures
        reclaimed_log(v, frontier)->Ok_0.len() == V2_HEADER_SIZE + retained_total(
            v.batch_file_bytes.subrange(
                first_behind(v.batches, frontier),
                v.batch_file_bytes.len() as int,
            ),
        ),
{
    lemma_first_behind(v.batches, frontier);
    let first = first_behind(v.batches, frontier);
    let batches = v.batches.subrange(first, v.batches.len() as int);
    let sizes = v.batch_file_bytes.subrange(first, v.batch_file_bytes.len() as int);
    assert forall|i: int| 0 <= i < batches.len() implies (#[trigger] sizes[i]).change_bytes
        == record::record_size(batches[i]) && sizes[i].retained_file_bytes == sizes[i].change_bytes
        + MARKER_BYTES by {
        assert(sizes[i] == v.batch_file_bytes[first + i]);
        assert(batches[i] == v.batches[first + i]);
    }
    lemma_entries_size(batches, sizes, v.finalize_versions, batches.len() as int);
    assert(sizes.take(batches.len() as int) =~= sizes);
    log::lemma_header_length(reclaimed_header(v, frontier));
}

proof fn lemma_entries_size(
    batches: Seq<BatchView>,
    sizes: Seq<BatchFileBytes>,
    versions: Map<u64, Option<LsmCommitSeq>>,
    n: int,
)
    requires
        stream::batch_sizes_kept(batches, sizes),
        0 <= n <= batches.len(),
        entries_bytes(batches, versions, n) is Ok,
    ensures
        entries_bytes(batches, versions, n)->Ok_0.len() == retained_total(sizes.take(n)),
    decreases n,
{
    if n > 0 {
        lemma_entries_size(batches, sizes, versions, n - 1);
        assert(sizes.take(n).drop_last() =~= sizes.take(n - 1));
        assert(sizes[n - 1].change_bytes == record::record_size(batches[n - 1]));
        assert(record::finalize_payload(
            batches[n - 1].physical_txn_id,
            versions[batches[n - 1].physical_txn_id.0],
        ).len() == 24);
    }
}

/// What a reclamation leaves can be read as before.
pub proof fn law_gc_keeps_later_reads(
    v: StreamView,
    frontier: StorageDataVersion,
    size: u64,
    cursor: ChangeStreamCursor,
    max_batches: int,
    max_bytes: int,
)
    requires
        stream::stream_kept(v),
        history::advancing(v.batches),
        gc_refused(v, Map::empty(), frontier) is None,
        cursor.frontier.0 >= frontier.0,
    ensures
        history::read_result(reclaimed(v, frontier, size), cursor, max_batches, max_bytes)
            == history::read_result(v, cursor, max_batches, max_bytes),
{
    law_gc_keeps_the_stream(v, frontier, size);
    let w = reclaimed(v, frontier, size);
    let current = stream::current_of(v.header, v.batches);
    assert(history::cursor_error(w.header, w.batches, cursor) == history::cursor_error(
        v.header,
        v.batches,
        cursor,
    ));
    if history::cursor_error(v.header, v.batches, cursor) is None && cursor.frontier != current {
        lemma_gc_start(v, frontier, size, cursor);
        let first = first_behind(v.batches, frontier);
        let start = history::batch_starting_at(v.batches, cursor.frontier)->0;
        let n = history::readable(v.batch_file_bytes, start, max_batches, max_bytes);
        lemma_readable_shift(
            v.batch_file_bytes,
            w.batch_file_bytes,
            first,
            start - first,
            max_batches,
            max_bytes,
        );
        lemma_readable_bounds(v.batch_file_bytes, start, max_batches, max_bytes);
        assert(w.batches.subrange(start - first, start - first + n) =~= v.batches.subrange(
            start,
            start + n,
        ));
        if n > 0 {
            assert(w.batches[start - first + n - 1] == v.batches[start + n - 1]);
        }
    }
}

proof fn lemma_gc_start(
    v: StreamView,
    frontier: StorageDataVersion,
    size: u64,
    cursor: ChangeStreamCursor,
)
    requires
        stream::stream_kept(v),
        history::advancing(v.batches),
        gc_refused(v, Map::empty(), frontier) is None,
        cursor.frontier.0 >= frontier.0,
        history::cursor_error(v.header, v.batches, cursor) is None,
        cursor.frontier != stream::current_of(v.header, v.batches),
    ensures
        ({
            let first = first_behind(v.batches, frontier);
            let start = cursor.frontier.0 - v.header.earliest.0;
            &&& 0 <= first <= start < v.batches.len()
            &&& history::batch_starting_at(v.batches, cursor.frontier) == Some(start)
            &&& history::batch_starting_at(reclaimed(v, frontier, size).batches, cursor.frontier)
                == Some(start - first)
        }),
{
    law_gc_keeps_the_stream(v, frontier, size);
    lemma_first_behind(v.batches, frontier);
    let first = first_behind(v.batches, frontier);
    let w = reclaimed(v, frontier, size);
    assert forall|i: int| 0 <= i < w.batches.len() implies (#[trigger] w.batches[i]).after.0
        == w.batches[i].before.0 + 1 by {
        assert(w.batches[i] == v.batches[first + i]);
    }
    history::law_read_returns_the_rest(v, cursor);
    history::law_read_returns_the_rest(w, cursor);
    assert(w.batches[0] == v.batches[first]);
    history::lemma_frontier_at(v.batches, v.header.earliest, first);
}

proof fn lemma_readable_bounds(
    sizes: Seq<BatchFileBytes>,
    i: int,
    batches_left: int,
    bytes_left: int,
)
    requires
        0 <= i <= sizes.len(),
    ensures
        0 <= history::readable(sizes, i, batches_left, bytes_left),
        i + history::readable(sizes, i, batches_left, bytes_left) <= sizes.len(),
    decreases sizes.len() - i,
{
    if i < sizes.len() && batches_left > 0 && sizes[i].change_bytes <= bytes_left {
        lemma_readable_bounds(sizes, i + 1, batches_left - 1, bytes_left - sizes[i].change_bytes);
    }
}

proof fn lemma_readable_shift(
    sizes: Seq<BatchFileBytes>,
    shifted: Seq<BatchFileBytes>,
    first: int,
    i: int,
    batches_left: int,
    bytes_left: int,
)
    requires
        0 <= first <= sizes.len(),
        shifted == sizes.subrange(first, sizes.len() as int),
        0 <= i <= shifted.len(),
    ensures
        history::readable(shifted, i, batches_left, bytes_left) == history::readable(
            sizes,
            first + i,
            batches_left,
            bytes_left,
        ),
    decreases shifted.len() - i,
{
    if i < shifted.len() && batches_left > 0 && shifted[i].change_bytes <= bytes_left {
        lemma_readable_shift(
            sizes,
            shifted,
            first,
            i + 1,
            batches_left - 1,
            bytes_left - shifted[i].change_bytes,
        );
    }
}

/// A reclamation that is not refused leaves every pinned frontier readable.
pub proof fn law_gc_respects_pins(
    v: StreamView,
    registered: Pins,
    frontier: StorageDataVersion,
    size: u64,
    id: u64,
)
    requires
        gc_refused(v, registered, frontier) is None,
        registered.contains_key(id),
        pins::protects(registered[id], v.header.storage_id, v.header.generation),
    ensures
        reclaimed(v, frontier, size).header.earliest.0 <= registered[id].frontier.0,
{
    pins::lemma_lowest_pin(registered, v.header.storage_id, v.header.generation, id);
}

} // verus!
