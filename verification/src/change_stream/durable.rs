//! Making prepared batches durable, and counting synchronizations.
use super::error::ChangeStreamError;
use super::load;
use super::load::RecordView;
use super::stream;
use super::stream::{EnabledStream, PreparedChange, StreamView};
use crate::ids::{DatabaseTxnId, StorageDataVersion, TxnId};
use vstd::prelude::*;

verus! {

broadcast use {
    vstd::std_specs::btree::group_btree_axioms,
    vstd::laws_cmp::group_laws_cmp,
};

/// Why the log is synchronized.
#[derive(Debug, Clone, Copy, PartialEq, Eq, Structural)]
pub enum SyncReason {
    MemberPrepare,
    GroupPrepare,
    MemberFinalize,
    GroupFinalize,
    ExplicitFinalizeCheckpoint,
}

/// How often the log was synchronized, by reason.
#[derive(Debug, Clone, Copy, PartialEq, Eq, Structural)]
pub struct ChangeStreamSyncCounts {
    pub total: u64,
    pub member_prepare: u64,
    pub group_prepare: u64,
    pub member_finalize: u64,
    pub group_finalize: u64,
    pub pipelined_finalize_checkpoint: u64,
    pub combined_finalize_prepare: u64,
    pub explicit_finalize_checkpoint: u64,
    pub recovery_finalize: u64,
}

/// One more, unless there is no more.
pub open spec fn one_more(count: u64) -> u64 {
    if count == u64::MAX {
        count
    } else {
        (count + 1) as u64
    }
}

/// The counts after one more synchronization, with or without finalize
/// markers that waited for it.
pub open spec fn counted(
    counts: ChangeStreamSyncCounts,
    reason: SyncReason,
    checkpoints: bool,
) -> ChangeStreamSyncCounts {
    let prepare = reason == SyncReason::MemberPrepare || reason == SyncReason::GroupPrepare;
    ChangeStreamSyncCounts {
        total: one_more(counts.total),
        member_prepare: if reason == SyncReason::MemberPrepare {
            one_more(counts.member_prepare)
        } else {
            counts.member_prepare
        },
        group_prepare: if reason == SyncReason::GroupPrepare {
            one_more(counts.group_prepare)
        } else {
            counts.group_prepare
        },
        member_finalize: if reason == SyncReason::MemberFinalize {
            one_more(counts.member_finalize)
        } else {
            counts.member_finalize
        },
        group_finalize: if reason == SyncReason::GroupFinalize {
            one_more(counts.group_finalize)
        } else {
            counts.group_finalize
        },
        pipelined_finalize_checkpoint: if checkpoints {
            one_more(counts.pipelined_finalize_checkpoint)
        } else {
            counts.pipelined_finalize_checkpoint
        },
        combined_finalize_prepare: if checkpoints && prepare {
            one_more(counts.combined_finalize_prepare)
        } else {
            counts.combined_finalize_prepare
        },
        explicit_finalize_checkpoint: if reason == SyncReason::ExplicitFinalizeCheckpoint {
            one_more(counts.explicit_finalize_checkpoint)
        } else {
            counts.explicit_finalize_checkpoint
        },
        recovery_finalize: counts.recovery_finalize,
    }
}

impl ChangeStreamSyncCounts {
    /// No synchronization yet.
    pub fn none() -> (counts: ChangeStreamSyncCounts)
        ensures
            counts == no_syncs(),
    {
        ChangeStreamSyncCounts {
            total: 0,
            member_prepare: 0,
            group_prepare: 0,
            member_finalize: 0,
            group_finalize: 0,
            pipelined_finalize_checkpoint: 0,
            combined_finalize_prepare: 0,
            explicit_finalize_checkpoint: 0,
            recovery_finalize: 0,
        }
    }

    fn count(&mut self, reason: SyncReason, checkpoints: bool)
        ensures
            *final(self) == counted(*old(self), reason, checkpoints),
    {
        if checkpoints {
            self.pipelined_finalize_checkpoint = self.pipelined_finalize_checkpoint.saturating_add(
                1,
            );
            if reason == SyncReason::MemberPrepare || reason == SyncReason::GroupPrepare {
                self.combined_finalize_prepare = self.combined_finalize_prepare.saturating_add(1);
            }
        }
        self.total = self.total.saturating_add(1);
        match reason {
            SyncReason::MemberPrepare => {
                self.member_prepare = self.member_prepare.saturating_add(1);
            },
            SyncReason::GroupPrepare => {
                self.group_prepare = self.group_prepare.saturating_add(1);
            },
            SyncReason::MemberFinalize => {
                self.member_finalize = self.member_finalize.saturating_add(1);
            },
            SyncReason::GroupFinalize => {
                self.group_finalize = self.group_finalize.saturating_add(1);
            },
            SyncReason::ExplicitFinalizeCheckpoint => {
                self.explicit_finalize_checkpoint = self.explicit_finalize_checkpoint.saturating_add(
                    1,
                );
            },
        }
    }
}

/// No synchronization yet.
pub open spec fn no_syncs() -> ChangeStreamSyncCounts {
    ChangeStreamSyncCounts {
        total: 0,
        member_prepare: 0,
        group_prepare: 0,
        member_finalize: 0,
        group_finalize: 0,
        pipelined_finalize_checkpoint: 0,
        combined_finalize_prepare: 0,
        explicit_finalize_checkpoint: 0,
        recovery_finalize: 0,
    }
}

/// The stream after its log was synchronized: the finalize markers that waited
/// for it are durable.
pub open spec fn synced(v: StreamView) -> StreamView {
    if v.pending_finalize_checkpoints.len() == 0 {
        v
    } else {
        StreamView {
            finalize_checkpointed_through: stream::current_of(v.header, v.batches),
            pending_finalize_checkpoints: Map::empty(),
            ..v
        }
    }
}

/// A member of a batch that is to become durable.
pub type DurableCandidate = (TxnId, Option<DatabaseTxnId>, PreparedChange);

/// The reservation that a candidate speaks of: the one at its position, or
/// that of its transaction.
pub open spec fn candidate_record(
    v: StreamView,
    candidates: Seq<DurableCandidate>,
    exact: bool,
    i: int,
) -> Option<int> {
    if exact {
        Some(i)
    } else {
        load::record_position(v.unresolved, candidates[i].0)
    }
}

/// The bytes of the first `n` candidates' records.
pub open spec fn durable_bytes(
    v: StreamView,
    candidates: Seq<DurableCandidate>,
    exact: bool,
    n: int,
) -> int
    decreases n,
{
    if n <= 0 {
        0
    } else {
        durable_bytes(v, candidates, exact, n - 1) + v.unresolved[candidate_record(
            v,
            candidates,
            exact,
            n - 1,
        )->0].prepared_file_bytes
    }
}

/// Whether one of the first `n` candidates' records is not durable yet.
pub open spec fn durable_needed(
    v: StreamView,
    candidates: Seq<DurableCandidate>,
    exact: bool,
    n: int,
) -> bool
    decreases n,
{
    n > 0 && (durable_needed(v, candidates, exact, n - 1) || !v.unresolved[candidate_record(
        v,
        candidates,
        exact,
        n - 1,
    )->0].prepared_durable)
}

/// Why the candidate at `i` cannot become durable behind those in front of it.
pub open spec fn durable_error(
    v: StreamView,
    candidates: Seq<DurableCandidate>,
    exact: bool,
    i: int,
) -> Option<ChangeStreamError> {
    let (txn_id, database_txn_id, reservation) = candidates[i];
    match candidate_record(v, candidates, exact, i) {
        None => Some(ChangeStreamError::InvalidRecord("prepared transaction is missing")),
        Some(found) => {
            let batch = v.unresolved[found].batch;
            if batch.physical_txn_id != txn_id || batch.database_txn_id != database_txn_id
                || stream::identity_of(batch) != reservation {
                Some(
                    ChangeStreamError::InvalidRecord(
                        "prepared durability batch is not the exact change-order prefix",
                    ),
                )
            } else if i != 0 && candidates[i - 1].2.after != reservation.before {
                Some(
                    ChangeStreamError::ChangeGap {
                        expected: candidates[i - 1].2.after,
                        actual: reservation.before,
                    },
                )
            } else if durable_bytes(v, candidates, exact, i + 1) > u64::MAX {
                Some(ChangeStreamError::RecordTooLarge(u64::MAX))
            } else {
                None
            }
        },
    }
}

/// Why the first `n` candidates cannot become durable: the reason of the first
/// that cannot.
pub open spec fn durable_errors(
    v: StreamView,
    candidates: Seq<DurableCandidate>,
    exact: bool,
    n: int,
) -> Option<ChangeStreamError>
    decreases n,
{
    if n <= 0 {
        None
    } else if let Some(error) = durable_errors(v, candidates, exact, n - 1) {
        Some(error)
    } else {
        durable_error(v, candidates, exact, n - 1)
    }
}

/// Why the candidates cannot become durable.
pub open spec fn durable_refused(
    v: StreamView,
    candidates: Seq<DurableCandidate>,
    exact: bool,
) -> Option<ChangeStreamError> {
    if candidates.len() == 0 {
        Some(ChangeStreamError::InvalidRecord("prepared durability batch is empty"))
    } else if exact && v.unresolved.len() < candidates.len() {
        Some(
            ChangeStreamError::InvalidRecord(
                "prepared durability batch is not an unresolved prefix",
            ),
        )
    } else {
        durable_errors(v, candidates, exact, candidates.len() as int)
    }
}

/// What it takes to make a batch durable.
#[derive(Debug, Clone, Copy, PartialEq, Eq, Structural)]
pub struct DurablePlan {
    pub record_bytes: u64,
    pub needs_sync: bool,
}

/// What making a batch durable did.
#[derive(Debug, Clone, Copy, PartialEq, Eq, Structural)]
pub struct ChangePrepareBatchReport {
    pub changing_member_count: usize,
    pub records_staged: usize,
    pub record_bytes: u64,
    pub syncs: u64,
    pub first_sequence: u64,
    pub last_sequence: u64,
    pub before_frontier: StorageDataVersion,
    pub after_reserved_frontier: StorageDataVersion,
    pub prior_finalize_checkpoints_checkpointed: usize,
}

/// Whether a transaction is among the first `n` candidates.
pub open spec fn names(candidates: Seq<DurableCandidate>, n: int, txn_id: TxnId) -> bool {
    exists|i: int| 0 <= i < n && (#[trigger] candidates[i]).0 == txn_id
}

/// The records with those of the first `n` candidates durable.
pub open spec fn marked_durable(
    records: Seq<RecordView>,
    candidates: Seq<DurableCandidate>,
    n: int,
) -> Seq<RecordView> {
    records.map_values(
        |entry: RecordView|
            if names(candidates, n, entry.batch.physical_txn_id) {
                RecordView { prepared_durable: true, ..entry }
            } else {
                entry
            },
    )
}

/// The stream after a batch became durable.
pub open spec fn made_durable(
    v: StreamView,
    candidates: Seq<DurableCandidate>,
    plan: DurablePlan,
) -> StreamView {
    if plan.needs_sync {
        let after = synced(v);
        StreamView {
            unresolved: marked_durable(v.unresolved, candidates, candidates.len() as int),
            ..after
        }
    } else {
        v
    }
}

/// What making a batch durable did.
pub open spec fn durable_report(
    v: StreamView,
    candidates: Seq<DurableCandidate>,
    plan: DurablePlan,
) -> ChangePrepareBatchReport {
    ChangePrepareBatchReport {
        changing_member_count: candidates.len() as usize,
        records_staged: candidates.len() as usize,
        record_bytes: plan.record_bytes,
        syncs: if plan.needs_sync {
            1
        } else {
            0
        },
        first_sequence: candidates[0].2.sequence,
        last_sequence: candidates.last().2.sequence,
        before_frontier: candidates[0].2.before,
        after_reserved_frontier: candidates.last().2.after,
        prior_finalize_checkpoints_checkpointed: if plan.needs_sync {
            v.pending_finalize_checkpoints.len() as usize
        } else {
            0
        },
    }
}

proof fn lemma_durable_errors_prefix(
    v: StreamView,
    candidates: Seq<DurableCandidate>,
    exact: bool,
    n: int,
    m: int,
)
    requires
        0 <= n <= m,
        durable_errors(v, candidates, exact, n) is Some,
    ensures
        durable_errors(v, candidates, exact, m) == durable_errors(v, candidates, exact, n),
    decreases m,
{
    if n < m {
        lemma_durable_errors_prefix(v, candidates, exact, n, m - 1);
    }
}

impl EnabledStream {
    /// Takes note that the log was synchronized, and tells how many finalize
    /// markers had waited for it.
    pub fn complete_sync(&mut self, counts: &mut ChangeStreamSyncCounts, reason: SyncReason) -> (
    checkpointed: usize)
        requires
            old(self).wf(),
        ensures
            final(self).wf(),
            final(self)@ == synced(old(self)@),
            final(self).batches == old(self).batches,
            final(self).unresolved == old(self).unresolved,
            checkpointed == old(self)@.pending_finalize_checkpoints.len(),
            *final(counts) == counted(
                *old(counts),
                reason,
                old(self)@.pending_finalize_checkpoints.len() != 0,
            ),
    {
        let pending: usize = self.pending_finalize_checkpoints.len();
        if pending != 0 {
            self.finalize_checkpointed_through = self.effective_current();
            self.pending_finalize_checkpoints.clear();
        }
        counts.count(reason, pending != 0);
        pending
    }

    fn durable_position(&self, txn_id: TxnId, position: usize, exact: bool) -> (found: Option<usize>)
        requires
            exact ==> position < self.unresolved@.len(),
        ensures
            exact ==> found == Some(position),
            !exact ==> match load::record_position(self@.unresolved, txn_id) {
                Some(index) => found is Some && found->0 == index && index
                    < self.unresolved@.len(),
                None => found is None,
            },
    {
        if exact {
            Some(position)
        } else {
            load::find_record(&self.unresolved, txn_id)
        }
    }

    /// Checks the members of a batch that is to become durable, in order.
    pub fn plan_durable(&self, candidates: &[DurableCandidate], require_exact_prefix: bool) -> (plan:
        Result<DurablePlan, ChangeStreamError>)
        requires
            self.wf(),
        ensures
            match durable_refused(self@, candidates@, require_exact_prefix) {
                Some(error) => plan == Err::<DurablePlan, ChangeStreamError>(error),
                None => plan == Ok::<DurablePlan, ChangeStreamError>(
                    DurablePlan {
                        record_bytes: durable_bytes(
                            self@,
                            candidates@,
                            require_exact_prefix,
                            candidates@.len() as int,
                        ) as u64,
                        needs_sync: durable_needed(
                            self@,
                            candidates@,
                            require_exact_prefix,
                            candidates@.len() as int,
                        ),
                    },
                ),
            },
    {
        if candidates.len() == 0 {
            return Err(ChangeStreamError::InvalidRecord("prepared durability batch is empty"));
        }
        if require_exact_prefix && self.unresolved.len() < candidates.len() {
            return Err(
                ChangeStreamError::InvalidRecord(
                    "prepared durability batch is not an unresolved prefix",
                ),
            );
        }
        let ghost v = self@;
        let ghost all = candidates@;
        let mut record_bytes: u64 = 0;
        let mut needs_sync: bool = false;
        let mut i: usize = 0;
        while i < candidates.len()
            invariant
                i <= candidates@.len(),
                v == self@,
                all == candidates@,
                all.len() > 0,
                require_exact_prefix ==> all.len() <= v.unresolved.len(),
                durable_errors(v, all, require_exact_prefix, i as int) is None,
                record_bytes == durable_bytes(v, all, require_exact_prefix, i as int),
                needs_sync == durable_needed(v, all, require_exact_prefix, i as int),
            decreases candidates@.len() - i,
        {
            proof {
                if durable_errors(v, all, require_exact_prefix, i + 1) is Some {
                    lemma_durable_errors_prefix(
                        v,
                        all,
                        require_exact_prefix,
                        i + 1,
                        all.len() as int,
                    );
                }
            }
            let (txn_id, database_txn_id, reservation): DurableCandidate = candidates[i];
            let found: usize = match self.durable_position(txn_id, i, require_exact_prefix) {
                None => {
                    return Err(ChangeStreamError::InvalidRecord("prepared transaction is missing"));
                },
                Some(found) => found,
            };
            let entry = &self.unresolved[found];
            assert(v.unresolved[found as int] == entry@);
            if entry.batch.physical_txn_id != txn_id || entry.batch.database_txn_id
                != database_txn_id || stream::prepared_identity(&entry.batch) != reservation {
                return Err(
                    ChangeStreamError::InvalidRecord(
                        "prepared durability batch is not the exact change-order prefix",
                    ),
                );
            }
            if i != 0 && candidates[i - 1].2.after != reservation.before {
                return Err(
                    ChangeStreamError::ChangeGap {
                        expected: candidates[i - 1].2.after,
                        actual: reservation.before,
                    },
                );
            }
            match record_bytes.checked_add(entry.prepared_file_bytes) {
                None => {
                    return Err(ChangeStreamError::RecordTooLarge(u64::MAX));
                },
                Some(total) => {
                    record_bytes = total;
                },
            }
            needs_sync = needs_sync || !entry.prepared_durable;
            i = i + 1;
        }
        Ok(DurablePlan { record_bytes, needs_sync })
    }

    /// Takes note that a checked batch became durable: by a synchronization,
    /// where the plan asks for one.
    pub fn complete_durable(
        &mut self,
        counts: &mut ChangeStreamSyncCounts,
        candidates: &[DurableCandidate],
        plan: DurablePlan,
        reason: SyncReason,
    ) -> (report: ChangePrepareBatchReport)
        requires
            old(self).wf(),
            candidates@.len() > 0,
        ensures
            final(self).wf(),
            final(self)@ == made_durable(old(self)@, candidates@, plan),
            report == durable_report(old(self)@, candidates@, plan),
            *final(counts) == if plan.needs_sync {
                counted(*old(counts), reason, old(self)@.pending_finalize_checkpoints.len() != 0)
            } else {
                *old(counts)
            },
    {
        let mut checkpointed: usize = 0;
        if plan.needs_sync {
            checkpointed = self.complete_sync(counts, reason);
            self.mark_durable(candidates);
        }
        let last: usize = candidates.len() - 1;
        ChangePrepareBatchReport {
            changing_member_count: candidates.len(),
            records_staged: candidates.len(),
            record_bytes: plan.record_bytes,
            syncs: if plan.needs_sync {
                1
            } else {
                0
            },
            first_sequence: candidates[0].2.sequence,
            last_sequence: candidates[last].2.sequence,
            before_frontier: candidates[0].2.before,
            after_reserved_frontier: candidates[last].2.after,
            prior_finalize_checkpoints_checkpointed: checkpointed,
        }
    }

    fn mark_durable(&mut self, candidates: &[DurableCandidate])
        requires
            old(self).wf(),
        ensures
            final(self).wf(),
            final(self)@ == (StreamView {
                unresolved: marked_durable(
                    old(self)@.unresolved,
                    candidates@,
                    candidates@.len() as int,
                ),
                ..old(self)@
            }),
    {
        let ghost before = self@.unresolved;
        let mut i: usize = 0;
        while i < self.unresolved.len()
            invariant
                i <= self.unresolved@.len(),
                before == old(self)@.unresolved,
                before.len() == self.unresolved@.len(),
                self.header == old(self).header,
                self.file_bytes == old(self).file_bytes,
                self.batches == old(self).batches,
                self.batch_file_bytes == old(self).batch_file_bytes,
                self.finalize_versions == old(self).finalize_versions,
                self.pending_finalize_checkpoints == old(self).pending_finalize_checkpoints,
                self.finalize_checkpointed_through == old(self).finalize_checkpointed_through,
                self.next_sequence == old(self).next_sequence,
                forall|k: int|
                    0 <= k < i ==> #[trigger] self.unresolved@[k]@ == marked_durable(
                        before,
                        candidates@,
                        candidates@.len() as int,
                    )[k],
                forall|k: int| i <= k < before.len() ==> #[trigger] self.unresolved@[k]@ == before[k],
            decreases before.len() - i,
        {
            let ghost previous = self.unresolved@;
            let txn_id = self.unresolved[i].batch.physical_txn_id;
            assert(before[i as int].batch.physical_txn_id == txn_id) by {
                assert(self.unresolved@[i as int]@ == before[i as int]);
            }
            if named(candidates, txn_id) {
                self.unresolved[i].prepared_durable = true;
            }
            assert forall|k: int| 0 <= k < previous.len() && k != i implies #[trigger] self.unresolved@[k]
                == previous[k] by {}
            assert(self.unresolved@[i as int]@ == marked_durable(
                before,
                candidates@,
                candidates@.len() as int,
            )[i as int]) by {
                assert(previous[i as int]@ == before[i as int]);
            }
            i = i + 1;
        }
        assert(self@.unresolved =~= marked_durable(before, candidates@, candidates@.len() as int));
    }
}

fn named(candidates: &[DurableCandidate], txn_id: TxnId) -> (found: bool)
    ensures
        found == names(candidates@, candidates@.len() as int, txn_id),
{
    let mut i: usize = 0;
    while i < candidates.len()
        invariant
            i <= candidates@.len(),
            forall|k: int| 0 <= k < i ==> (#[trigger] candidates@[k]).0 != txn_id,
        decreases candidates@.len() - i,
    {
        if candidates[i].0 == txn_id {
            return true;
        }
        i = i + 1;
    }
    false
}

} // verus!
