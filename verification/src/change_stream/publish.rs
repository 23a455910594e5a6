//! The durable steps of a change-stream manager, and its inspections.
use super::durable;
use super::durable::{
    ChangePrepareBatchReport, ChangeStreamSyncCounts, DurableCandidate, DurablePlan, SyncReason,
};
use super::error::ChangeStreamError;
use super::finalize;
use super::finalize::{ChangeFinalizeBatchReport, FinalizeCandidate, FinalizePlan};
use super::frontiers;
use super::load;
use super::log::V2_HEADER_SIZE;
use super::manager::{
    ChangeBatchMaintenanceInspection, ChangeStreamInspection, ChangeStreamMaintenanceInspection,
    ChangeStreamManager, ChangeStreamStatus, StateView, StreamState,
};
use super::operations;
use super::pins;
use super::reclaim;
use super::reclaim::ChangeStreamGcStorageReport;
use super::recover;
use super::record;
use super::stream;
use super::stream::{EnabledStream, PreparedChange, StreamView};
use super::types::ChangeBatch;
use crate::ids::{SchemaFingerprint, StorageDataVersion, TableId};
use crate::text;
use vstd::prelude::*;

verus! {

broadcast use {
    vstd::std_specs::btree::group_btree_axioms,
    vstd::laws_cmp::group_laws_cmp,
};

/// Whether two managers differ at most in their state and their counts.
pub open spec fn same_but_counts(left: ChangeStreamManager, right: ChangeStreamManager) -> bool {
    &&& left.kind == right.kind
    &&& left.storage_id == right.storage_id
    &&& left.table_id == right.table_id
    &&& left.fingerprint == right.fingerprint
    &&& left.retention_pins == right.retention_pins
}

/// The stream of an enabled manager.
pub open spec fn stream_of(manager: ChangeStreamManager) -> StreamView {
    manager.state@->stream
}

/// Whether an inspection describes a manager as it is. `log_bytes` is the
/// length of its log file, which an enabled stream knows itself.
pub open spec fn inspected(
    manager: ChangeStreamManager,
    log_bytes: u64,
    inspection: ChangeStreamInspection,
) -> bool {
    &&& inspection.storage_id == manager.storage_id
    &&& inspection.table_id == manager.table_id
    &&& inspection.schema_fingerprint == manager.fingerprint
    &&& inspection.baseline_data_version == inspection.stream_origin_frontier
    &&& match manager.state {
        StreamState::Enabled { stream } => {
            &&& inspection.status == ChangeStreamStatus::Enabled
            &&& inspection.generation == Some(stream.header.generation)
            &&& inspection.stream_origin_frontier == Some(stream.header.origin)
            &&& inspection.current_data_version == stream::current_of(
                stream.header,
                stream@.batches,
            )
            &&& inspection.finalize_checkpointed_through == Some(
                stream.finalize_checkpointed_through,
            )
            &&& inspection.pending_finalize_checkpoint_count
                == stream@.pending_finalize_checkpoints.len()
            &&& inspection.earliest_available_frontier == Some(stream.header.earliest)
            &&& inspection.committed_batch_count == stream@.batches.len()
            &&& inspection.committed_mutation_count == reclaim::mutation_total(stream@.batches)
            &&& inspection.file_bytes == stream.file_bytes
            &&& inspection.prepared_unresolved_count == stream@.unresolved.len()
            &&& inspection.last_error is None
        },
        state => {
            &&& inspection.status == match state {
                StreamState::Disabled { .. } => ChangeStreamStatus::Disabled,
                _ => ChangeStreamStatus::Unavailable,
            }
            &&& inspection.generation == match state {
                StreamState::Disabled { generation } => Some(generation),
                StreamState::Unavailable { generation, .. } => generation,
                _ => None,
            }
            &&& inspection.stream_origin_frontier is None
            &&& inspection.current_data_version == StorageDataVersion(0)
            &&& inspection.finalize_checkpointed_through is None
            &&& inspection.pending_finalize_checkpoint_count == 0
            &&& inspection.earliest_available_frontier is None
            &&& inspection.committed_batch_count == 0
            &&& inspection.committed_mutation_count == 0
            &&& inspection.file_bytes == log_bytes
            &&& inspection.prepared_unresolved_count == 0
            &&& inspection.last_error == match state {
                StreamState::Unavailable { reason, .. } => Some(reason),
                _ => None,
            }
        },
    }
}

impl ChangeStreamManager {
    /// Takes note that the batch of a plan was appended in `size` bytes.
    pub fn complete_prepare(&mut self, batch: ChangeBatch, size: u64) -> (reservation: PreparedChange)
        requires
            old(self).wf(),
            old(self).state is Enabled,
            load::record_position(
                stream_of(*old(self)).unresolved,
                batch@.physical_txn_id,
            ) is None,
            batch@.sequence == stream_of(*old(self)).next_sequence,
            stream_of(*old(self)).next_sequence < u64::MAX,
            stream_of(*old(self)).file_bytes + size <= u64::MAX,
            size == record::record_size(batch@),
            size <= 0x800_0000,
        ensures
            final(self).wf(),
            operations::same_but_state(*final(self), *old(self)),
            final(self).state@ == (StateView::Enabled {
                stream: stream::prepared(stream_of(*old(self)), batch@, size),
            }),
            reservation == stream::identity_of(batch@),
            frontiers::in_place(*old(self)) ==> frontiers::in_place(*final(self)),
            frontiers::reserved_in_step(*old(self)) && batch@.after.0 == batch@.before.0 + 1
                ==> frontiers::reserved_in_step(*final(self)),
    {
        match &mut self.state {
            StreamState::Enabled { stream } => stream.complete_prepare(batch, size),
            _ => stream::prepared_identity(&batch),
        }
    }

    /// Checks the members of a batch that is to become durable, in order.
    pub fn plan_durable(&self, candidates: &[DurableCandidate], require_exact_prefix: bool) -> (plan:
        Result<DurablePlan, ChangeStreamError>)
        requires
            self.wf(),
        ensures
            match self.state@ {
                _ if candidates@.len() == 0 => plan == Err::<DurablePlan, ChangeStreamError>(
                    ChangeStreamError::InvalidRecord("prepared durability batch is empty"),
                ),
                StateView::Enabled { stream } => match durable::durable_refused(
                    stream,
                    candidates@,
                    require_exact_prefix,
                ) {
                    Some(error) => plan == Err::<DurablePlan, ChangeStreamError>(error),
                    None => plan == Ok::<DurablePlan, ChangeStreamError>(
                        DurablePlan {
                            record_bytes: durable::durable_bytes(
                                stream,
                                candidates@,
                                require_exact_prefix,
                                candidates@.len() as int,
                            ) as u64,
                            needs_sync: durable::durable_needed(
                                stream,
                                candidates@,
                                require_exact_prefix,
                                candidates@.len() as int,
                            ),
                        },
                    ),
                },
                _ => plan is Err && plan->Err_0 is Unavailable && plan->Err_0->Unavailable_0@
                    == "enabled stream disappeared before prepared durability"@,
            },
    {
        if candidates.len() == 0 {
            return Err(ChangeStreamError::InvalidRecord("prepared durability batch is empty"));
        }
        match &self.state {
            StreamState::Enabled { stream } => stream.plan_durable(
                candidates,
                require_exact_prefix,
            ),
            _ => Err(
                ChangeStreamError::Unavailable(
                    text::text_of("enabled stream disappeared before prepared durability"),
                ),
            ),
        }
    }

    /// Takes note that a checked batch became durable: by a synchronization,
    /// where the plan asks for one.
    pub fn complete_durable(
        &mut self,
        candidates: &[DurableCandidate],
        plan: DurablePlan,
        reason: SyncReason,
    ) -> (report: ChangePrepareBatchReport)
        requires
            old(self).wf(),
            old(self).state is Enabled,
            candidates@.len() > 0,
        ensures
            final(self).wf(),
            same_but_counts(*final(self), *old(self)),
            final(self).state@ == (StateView::Enabled {
                stream: durable::made_durable(stream_of(*old(self)), candidates@, plan),
            }),
            report == durable::durable_report(stream_of(*old(self)), candidates@, plan),
            final(self).sync_counts == if plan.needs_sync {
                durable::counted(
                    old(self).sync_counts,
                    reason,
                    stream_of(*old(self)).pending_finalize_checkpoints.len() != 0,
                )
            } else {
                old(self).sync_counts
            },
            frontiers::in_place(*old(self)) ==> frontiers::in_place(*final(self)),
            frontiers::reserved_in_step(*old(self)) ==> frontiers::reserved_in_step(*final(self)),
    {
        proof {
            if frontiers::in_place(*self) {
                frontiers::law_durability_keeps_the_frontiers(stream_of(*self), candidates@, plan);
            }
            if frontiers::reserved_in_step(*self) {
                frontiers::lemma_durability_keeps_reservations(
                    stream_of(*self),
                    candidates@,
                    plan,
                );
            }
        }
        let mut counts: ChangeStreamSyncCounts = self.sync_counts;
        let report = match &mut self.state {
            StreamState::Enabled { stream } => stream.complete_durable(
                &mut counts,
                candidates,
                plan,
                reason,
            ),
            _ => ChangePrepareBatchReport {
                changing_member_count: 0,
                records_staged: 0,
                record_bytes: 0,
                syncs: 0,
                first_sequence: 0,
                last_sequence: 0,
                before_frontier: StorageDataVersion(0),
                after_reserved_frontier: StorageDataVersion(0),
                prior_finalize_checkpoints_checkpointed: 0,
            },
        };
        self.sync_counts = counts;
        report
    }

    /// Decides how to publish a batch.
    pub fn plan_finalize(&self, candidates: &[FinalizeCandidate], sync_immediately: bool) -> (plan:
        Result<FinalizePlan, ChangeStreamError>)
        requires
            self.wf(),
        ensures
            match self.state@ {
                _ if candidates@.len() == 0 => plan == Err::<FinalizePlan, ChangeStreamError>(
                    ChangeStreamError::InvalidRecord("finalize durability batch is empty"),
                ),
                StateView::Enabled { stream } => if finalize::all_published(stream, candidates@) {
                    plan == Ok::<FinalizePlan, ChangeStreamError>(
                        FinalizePlan::Published(finalize::published_report(stream, candidates@)),
                    )
                } else {
                    match finalize::finalize_refused(stream, candidates@, sync_immediately) {
                        Some(error) => plan == Err::<FinalizePlan, ChangeStreamError>(error),
                        None => {
                            &&& plan is Ok
                            &&& plan->Ok_0 is Append
                            &&& finalize::markers_view(plan->Ok_0->markers@)
                                == finalize::markers_needed(
                                stream,
                                candidates@,
                                candidates@.len() as int,
                            )
                        },
                    }
                },
                _ => plan is Err && plan->Err_0 is Unavailable && plan->Err_0->Unavailable_0@
                    == "enabled stream disappeared before publication"@,
            },
    {
        if candidates.len() == 0 {
            return Err(ChangeStreamError::InvalidRecord("finalize durability batch is empty"));
        }
        match &self.state {
            StreamState::Enabled { stream } => stream.plan_finalize(candidates, sync_immediately),
            _ => Err(
                ChangeStreamError::Unavailable(
                    text::text_of("enabled stream disappeared before publication"),
                ),
            ),
        }
    }

    /// Takes note that the markers of a checked batch were appended and, where
    /// that is asked for, synchronized; and publishes the batch.
    pub fn complete_finalize(
        &mut self,
        candidates: &[FinalizeCandidate],
        sync_immediately: bool,
        reason: SyncReason,
    ) -> (published: Result<ChangeFinalizeBatchReport, ChangeStreamError>)
        requires
            old(self).wf(),
            old(self).state is Enabled,
            finalize::finalize_ready(stream_of(*old(self)), candidates@, sync_immediately),
        ensures
            final(self).wf(),
            same_but_counts(*final(self), *old(self)),
            final(self).sync_counts == if sync_immediately {
                durable::counted(
                    old(self).sync_counts,
                    reason,
                    stream_of(*old(self)).pending_finalize_checkpoints.len() != 0,
                )
            } else {
                old(self).sync_counts
            },
            final(self).state is Enabled,
            match finalize::promotion(
                finalize::markers_durable(stream_of(*old(self)), candidates@, sync_immediately),
                candidates@,
                sync_immediately,
                candidates@.len() as int,
            ) {
                Err(stopped) => published == Err::<ChangeFinalizeBatchReport, ChangeStreamError>(
                    ChangeStreamError::InvalidRecord(
                        "prepared transaction disappeared during publication",
                    ),
                ) && stream_of(*final(self)) == stopped,
                Ok(done) => published == Ok::<ChangeFinalizeBatchReport, ChangeStreamError>(
                    ChangeFinalizeBatchReport {
                        finalized_member_count: candidates@.len() as usize,
                        markers_staged: finalize::markers_needed(
                            stream_of(*old(self)),
                            candidates@,
                            candidates@.len() as int,
                        ).len() as usize,
                        marker_bytes: (stream::MARKER_BYTES * candidates@.len()) as u64,
                        syncs: if sync_immediately {
                            1
                        } else {
                            0
                        },
                        before_committed_frontier: stream::current_of(
                            stream_of(*old(self)).header,
                            stream_of(*old(self)).batches,
                        ),
                        after_committed_frontier: candidates@.last().1.after,
                        pending_finalize_checkpoints_after: done.pending_finalize_checkpoints.len() as usize,
                    },
                ) && stream_of(*final(self)) == done,
            },
            frontiers::in_place(*old(self)) && (frontiers::reserved_in_step(*old(self))
                || frontiers::members_advance(candidates@)) ==> frontiers::in_place(*final(self)),
            frontiers::reserved_in_step(*old(self)) ==> frontiers::reserved_in_step(*final(self)),
    {
        proof {
            let v = stream_of(*self);
            if frontiers::reserved_in_step(*self) {
                frontiers::law_reserved_members_advance(v, candidates@, sync_immediately);
                frontiers::law_publishing_keeps_the_reservations(v, candidates@, sync_immediately);
            }
            if frontiers::in_place(*self) && frontiers::members_advance(candidates@) {
                frontiers::law_publishing_keeps_the_frontiers(v, candidates@, sync_immediately);
            }
        }
        let mut counts: ChangeStreamSyncCounts = self.sync_counts;
        let published = match &mut self.state {
            StreamState::Enabled { stream } => stream.complete_finalize(
                &mut counts,
                candidates,
                sync_immediately,
                reason,
            ),
            _ => Err(ChangeStreamError::Disabled),
        };
        self.sync_counts = counts;
        published
    }

    /// How many finalize markers wait for a synchronization.
    pub fn pending_finalizes(&self) -> (pending: usize)
        ensures
            pending == match self.state@ {
                StateView::Enabled { stream } => stream.pending_finalize_checkpoints.len(),
                _ => 0,
            },
    {
        match &self.state {
            StreamState::Enabled { stream } => stream.pending_finalize_checkpoints.len(),
            _ => 0,
        }
    }

    /// Takes note that the log was synchronized for the sake of the finalize
    /// markers that waited for it. Without any nothing is to be synchronized,
    /// and nothing happens. Returns the number of synchronizations.
    pub fn complete_checkpoint(&mut self) -> (syncs: u64)
        requires
            old(self).wf(),
        ensures
            final(self).wf(),
            same_but_counts(*final(self), *old(self)),
            match old(self).state@ {
                StateView::Enabled { stream } if stream.pending_finalize_checkpoints.len() != 0 => {
                    &&& syncs == 1
                    &&& final(self).state@ == (StateView::Enabled { stream: durable::synced(stream) })
                    &&& final(self).sync_counts == durable::counted(
                        old(self).sync_counts,
                        SyncReason::ExplicitFinalizeCheckpoint,
                        true,
                    )
                },
                state => {
                    &&& syncs == 0
                    &&& final(self).state@ == state
                    &&& final(self).sync_counts == old(self).sync_counts
                },
            },
            frontiers::in_place(*old(self)) ==> frontiers::in_place(*final(self)),
            frontiers::reserved_in_step(*old(self)) ==> frontiers::reserved_in_step(*final(self)),
    {
        proof {
            if self.state is Enabled && frontiers::in_place(*self) {
                frontiers::law_synchronizing_keeps_the_frontiers(stream_of(*self));
            }
        }
        if self.pending_finalizes() == 0 {
            return 0;
        }
        let mut counts: ChangeStreamSyncCounts = self.sync_counts;
        match &mut self.state {
            StreamState::Enabled { stream } => {
                let _ = stream.complete_sync(&mut counts, SyncReason::ExplicitFinalizeCheckpoint);
            },
            _ => {},
        }
        self.sync_counts = counts;
        1
    }

    /// Takes note that the log was replaced by one of `size` bytes.
    pub fn complete_gc(&mut self, frontier: StorageDataVersion, size: u64) -> (report:
        ChangeStreamGcStorageReport)
        requires
            old(self).wf(),
            old(self).state is Enabled,
            reclaim::gc_refused(stream_of(*old(self)), Map::empty(), frontier) is None,
            reclaim::reclaimed_log(stream_of(*old(self)), frontier) matches Ok(contents) && size
                == contents.len(),
            reclaim::mutation_total(
                stream_of(*old(self)).batches.take(
                    reclaim::first_behind(stream_of(*old(self)).batches, frontier),
                ),
            ) <= u64::MAX,
        ensures
            final(self).wf(),
            operations::same_but_state(*final(self), *old(self)),
            final(self).state@ == (StateView::Enabled {
                stream: reclaim::reclaimed(stream_of(*old(self)), frontier, size),
            }),
            report == reclaim::gc_report(stream_of(*old(self)), frontier, size),
            report.bytes_after == V2_HEADER_SIZE + reclaim::retained_total(
                reclaim::reclaimed(stream_of(*old(self)), frontier, size).batch_file_bytes,
            ),
            frontiers::in_place(*old(self)) ==> frontiers::in_place(*final(self)),
            frontiers::reserved_in_step(*old(self)) ==> frontiers::reserved_in_step(*final(self)),
    {
        proof {
            if frontiers::in_place(*self) {
                frontiers::law_gc_keeps_the_frontiers(stream_of(*self), frontier, size);
            }
        }
        match &mut self.state {
            StreamState::Enabled { stream } => stream.complete_gc(frontier, size),
            _ => ChangeStreamGcStorageReport {
                storage_id: self.storage_id,
                generation: crate::ids::ChangeStreamGeneration(0),
                previous_earliest_frontier: frontier,
                new_earliest_frontier: frontier,
                current_frontier: frontier,
                batches_removed: 0,
                mutations_removed: 0,
                bytes_before: 0,
                bytes_after: 0,
                bytes_reclaimed: 0,
            },
        }
    }

    /// Describes the stream. `log_bytes` is the length of its log file, which
    /// an enabled stream knows itself.
    pub fn inspection(&self, log_bytes: u64) -> (inspection: ChangeStreamInspection)
        requires
            self.wf(),
            self.state@ matches StateView::Enabled { stream } ==> reclaim::mutation_total(
                stream.batches,
            ) <= u64::MAX,
        ensures
            inspected(*self, log_bytes, inspection),
    {
        match &self.state {
            StreamState::Enabled { stream } => ChangeStreamInspection {
                storage_id: self.storage_id,
                table_id: self.table_id,
                status: ChangeStreamStatus::Enabled,
                generation: Some(stream.header.generation),
                schema_fingerprint: self.fingerprint,
                stream_origin_frontier: Some(stream.header.origin),
                baseline_data_version: Some(stream.header.origin),
                current_data_version: stream.effective_current(),
                finalize_checkpointed_through: Some(stream.finalize_checkpointed_through),
                pending_finalize_checkpoint_count: stream.pending_finalize_checkpoints.len() as u64,
                earliest_available_frontier: Some(stream.header.earliest),
                committed_batch_count: stream.batches.len() as u64,
                committed_mutation_count: stream.committed_mutations(),
                file_bytes: stream.file_bytes,
                prepared_unresolved_count: stream.unresolved.len() as u64,
                last_error: None,
            },
            StreamState::Disabled { generation } => self.describe_idle(
                ChangeStreamStatus::Disabled,
                Some(*generation),
                None,
                log_bytes,
            ),
            StreamState::Unavailable { generation, reason } => self.describe_idle(
                ChangeStreamStatus::Unavailable,
                *generation,
                Some(reason.clone()),
                log_bytes,
            ),
        }
    }

    fn describe_idle(
        &self,
        status: ChangeStreamStatus,
        generation: Option<crate::ids::ChangeStreamGeneration>,
        last_error: Option<String>,
        file_bytes: u64,
    ) -> (inspection: ChangeStreamInspection)
        ensures
            inspection == (ChangeStreamInspection {
                storage_id: self.storage_id,
                table_id: self.table_id,
                status,
                generation,
                schema_fingerprint: self.fingerprint,
                stream_origin_frontier: None,
                baseline_data_version: None,
                current_data_version: StorageDataVersion(0),
                finalize_checkpointed_through: None,
                pending_finalize_checkpoint_count: 0,
                earliest_available_frontier: None,
                committed_batch_count: 0,
                committed_mutation_count: 0,
                file_bytes,
                prepared_unresolved_count: 0,
                last_error,
            }),
    {
        ChangeStreamInspection {
            storage_id: self.storage_id,
            table_id: self.table_id,
            status,
            generation,
            schema_fingerprint: self.fingerprint,
            stream_origin_frontier: None,
            baseline_data_version: None,
            current_data_version: StorageDataVersion(0),
            finalize_checkpointed_through: None,
            pending_finalize_checkpoint_count: 0,
            earliest_available_frontier: None,
            committed_batch_count: 0,
            committed_mutation_count: 0,
            file_bytes,
            prepared_unresolved_count: 0,
            last_error,
        }
    }

    /// Describes what maintenance can do, without any row.
    pub fn maintenance_inspection(&self, log_bytes: u64) -> (inspection:
        ChangeStreamMaintenanceInspection)
        requires
            self.wf(),
            self.state@ matches StateView::Enabled { stream } ==> reclaim::mutation_total(
                stream.batches,
            ) <= u64::MAX,
        ensures
            inspection.rewrite_header_bytes == V2_HEADER_SIZE,
            pins::lists(inspection.retention_pins@, self.retention_pins.pins@),
            inspection.batches@ == match self.state@ {
                StateView::Enabled { stream } => maintenance_batches(stream),
                _ => Seq::empty(),
            },
            inspected(*self, log_bytes, inspection.stream),
    {
        let batches: Vec<ChangeBatchMaintenanceInspection> = match &self.state {
            StreamState::Enabled { stream } => stream.maintenance_batches(),
            _ => Vec::new(),
        };
        ChangeStreamMaintenanceInspection {
            stream: self.inspection(log_bytes),
            batches,
            retention_pins: self.retention_pins.inspection(),
            rewrite_header_bytes: V2_HEADER_SIZE as u64,
        }
    }
}

/// The payload-free description of the committed batches.
pub open spec fn maintenance_batches(v: StreamView) -> Seq<ChangeBatchMaintenanceInspection> {
    Seq::new(
        v.batches.len(),
        |i: int|
            ChangeBatchMaintenanceInspection {
                before: v.batches[i].before,
                after: v.batches[i].after,
                mutation_count: v.batches[i].mutations.len() as u64,
                change_bytes: v.batch_file_bytes[i].change_bytes,
                retained_file_bytes: v.batch_file_bytes[i].retained_file_bytes,
            },
    )
}

impl EnabledStream {
    /// How many changes the committed batches hold.
    pub fn committed_mutations(&self) -> (total: u64)
        requires
            reclaim::mutation_total(self@.batches) <= u64::MAX,
        ensures
            total == reclaim::mutation_total(self@.batches),
    {
        assert(self@.batches.take(self@.batches.len() as int) =~= self@.batches);
        self.count_mutations(self.batches.len())
    }

    /// The payload-free description of the committed batches.
    pub fn maintenance_batches(&self) -> (inspections: Vec<ChangeBatchMaintenanceInspection>)
        requires
            self.wf(),
        ensures
            inspections@ == maintenance_batches(self@),
    {
        let mut inspections: Vec<ChangeBatchMaintenanceInspection> = Vec::new();
        let mut i: usize = 0;
        while i < self.batches.len()
            invariant
                self.wf(),
                i <= self.batches@.len(),
                inspections@.len() == i,
                forall|k: int|
                    0 <= k < i ==> #[trigger] inspections@[k] == maintenance_batches(self@)[k],
            decreases self.batches@.len() - i,
        {
            let batch = &self.batches[i];
            let size = self.batch_file_bytes[i];
            assert(self@.batches[i as int] == batch@);
            assert(batch@.mutations.len() == batch.mutations@.len());
            inspections.push(
                ChangeBatchMaintenanceInspection {
                    before: batch.before,
                    after: batch.after,
                    mutation_count: batch.mutations.len() as u64,
                    change_bytes: size.change_bytes,
                    retained_file_bytes: size.retained_file_bytes,
                },
            );
            i = i + 1;
        }
        assert(inspections@ =~= maintenance_batches(self@));
        inspections
    }
}

/// Why a change log is not a valid one of this table. `fingerprint` is absent
/// where the schema has none.
pub open spec fn log_refused(
    s: Seq<u8>,
    table_id: TableId,
    fingerprint: Option<SchemaFingerprint>,
    refused: Set<Seq<u8>>,
) -> Option<ChangeStreamError> {
    match load::log_of(s, false, refused) {
        Err(error) => Some(error),
        Ok(found) => if found.header.table_id == table_id && fingerprint is None {
            Some(ChangeStreamError::InvalidHeader("schema fingerprint cannot be computed"))
        } else if found.header.table_id != table_id || Some(found.header.fingerprint)
            != fingerprint {
            Some(ChangeStreamError::InvalidHeader("schema identity mismatch"))
        } else if !found.header.active {
            None
        } else {
            match recover::recovered(
                recover::scanned(
                    found.records,
                    found.header,
                    found.file_bytes as u64,
                    found.records.len() as int,
                ),
            ) {
                Err(error) => Some(error),
                Ok(_) => None,
            }
        },
    }
}

/// Strictly validates the contents of a change log, without repairing it.
/// `refused` lists the row images that are no canonical rows of the table.
pub fn validate_change_log_file(
    contents: &[u8],
    table_id: TableId,
    fingerprint: Option<SchemaFingerprint>,
    refused: &[Vec<u8>],
) -> (checked: Result<(), ChangeStreamError>)
    ensures
        match log_refused(contents@, table_id, fingerprint, record::refused_rows(refused@)) {
            Some(error) => checked == Err::<(), ChangeStreamError>(error),
            None => checked == Ok::<(), ChangeStreamError>(()),
        },
{
    let loaded = load::load_file(contents, false, refused)?;
    proof {
        recover::lemma_log_sized(contents@, false, record::refused_rows(refused@));
    }
    if loaded.header.table_id != table_id {
        return Err(ChangeStreamError::InvalidHeader("schema identity mismatch"));
    }
    match fingerprint {
        None => {
            return Err(
                ChangeStreamError::InvalidHeader("schema fingerprint cannot be computed"),
            );
        },
        Some(expected) => {
            if !loaded.header.fingerprint.same_as(&expected) {
                return Err(ChangeStreamError::InvalidHeader("schema identity mismatch"));
            }
        },
    }
    if loaded.header.active {
        let recovery = recover::build_enabled_state(
            loaded.header,
            loaded.file_bytes,
            loaded.records,
        );
        match recovery.stream {
            Ok(_) => {},
            Err(error) => {
                return Err(error);
            },
        }
    }
    Ok(())
}

} // verus!
