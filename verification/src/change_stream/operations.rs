//! What a change-stream manager does in each of its states.
use super::durable::ChangeStreamSyncCounts;
use super::error;
use super::error::ChangeStreamError;
use super::frontiers;
use super::history;
use super::history::ChangeReadResult;
use super::load;
use super::log;
use super::log::{Header, CHANGE_LOG_FORMAT_VERSION, V2_HEADER_SIZE};
use super::manager::{ChangeStreamManager, StateView, StreamState};
use super::pins;
use super::pins::{ChangeStreamRetentionPin, ChangeStreamRetentionPinInspection};
use super::reclaim;
use super::reclaim::GcPlan;
use super::record;
use super::stream;
use super::stream::{ChangeStreamCursor, EnabledStream, PreparePlan, StreamView};
use super::types;
use super::types::StoredChange;
use crate::ids::{ChangeStreamGeneration, DatabaseTxnId, StorageDataVersion, TxnId};
use std::collections::BTreeMap;
use vstd::prelude::*;

verus! {

broadcast use {
    vstd::std_specs::btree::group_btree_axioms,
    vstd::laws_cmp::group_laws_cmp,
};

/// What is to be done to enable a stream.
pub enum EnablePlan {
    /// The stream is enabled already, with this cursor.
    Enabled(ChangeStreamCursor),
    /// The log and the guard are to be replaced by `contents`.
    Rewrite { header: Header, contents: Vec<u8> },
}

/// What is to be done to disable a stream.
pub enum DisablePlan {
    /// The stream is disabled already.
    Disabled,
    /// The log is to be replaced by `contents` and the guard to be removed.
    Rewrite { generation: ChangeStreamGeneration, contents: Vec<u8> },
}

/// The generation in front of the next one.
pub open spec fn prior_generation(state: StateView) -> u64 {
    match state {
        StateView::Disabled { generation } => generation.0,
        StateView::Enabled { stream } => stream.header.generation.0,
        StateView::Unavailable { generation, .. } => match generation {
            Some(known) => known.0,
            None => 0,
        },
    }
}

/// The header of a log that starts at a baseline.
pub open spec fn enabling_header(
    manager: ChangeStreamManager,
    baseline: StorageDataVersion,
) -> Header {
    Header {
        version: CHANGE_LOG_FORMAT_VERSION,
        active: true,
        kind: manager.kind,
        storage_id: manager.storage_id,
        table_id: manager.table_id,
        fingerprint: manager.fingerprint,
        generation: ChangeStreamGeneration((prior_generation(manager.state@) + 1) as u64),
        origin: baseline,
        earliest: baseline,
        current: baseline,
        next_sequence: 1,
    }
}

/// The header of a log that is switched off.
pub open spec fn disabling_header(manager: ChangeStreamManager) -> Header {
    Header {
        version: CHANGE_LOG_FORMAT_VERSION,
        active: false,
        kind: manager.kind,
        storage_id: manager.storage_id,
        table_id: manager.table_id,
        fingerprint: manager.fingerprint,
        generation: ChangeStreamGeneration(prior_generation(manager.state@)),
        origin: StorageDataVersion(0),
        earliest: StorageDataVersion(0),
        current: StorageDataVersion(0),
        next_sequence: 1,
    }
}

/// A stream right after it was enabled, with a log that holds only its header.
pub open spec fn fresh_stream(header: Header) -> StreamView {
    StreamView {
        header,
        file_bytes: V2_HEADER_SIZE as u64,
        batches: Seq::empty(),
        batch_file_bytes: Seq::empty(),
        finalize_versions: Map::empty(),
        unresolved: Seq::empty(),
        pending_finalize_checkpoints: Map::empty(),
        finalize_checkpointed_through: header.current,
        next_sequence: 1,
    }
}

/// What stands in the way of using a stream that is not enabled.
pub open spec fn not_enabled(state: StreamState) -> ChangeStreamError {
    match state {
        StreamState::Unavailable { reason, .. } => ChangeStreamError::Unavailable(reason),
        _ => ChangeStreamError::Disabled,
    }
}

/// Whether two managers differ at most in their state.
pub open spec fn same_but_state(left: ChangeStreamManager, right: ChangeStreamManager) -> bool {
    &&& left.kind == right.kind
    &&& left.storage_id == right.storage_id
    &&& left.table_id == right.table_id
    &&& left.fingerprint == right.fingerprint
    &&& left.sync_counts == right.sync_counts
    &&& left.retention_pins == right.retention_pins
}

/// Whether two managers differ at most in their retention pins.
pub open spec fn same_but_pins(left: ChangeStreamManager, right: ChangeStreamManager) -> bool {
    &&& left.kind == right.kind
    &&& left.storage_id == right.storage_id
    &&& left.table_id == right.table_id
    &&& left.fingerprint == right.fingerprint
    &&& left.state == right.state
    &&& left.sync_counts == right.sync_counts
}

impl ChangeStreamManager {
    /// How often the log was synchronized.
    pub fn sync_count(&self) -> (count: u64)
        ensures
            count == self.sync_counts.total,
    {
        self.sync_counts.total
    }

    /// How often the log was synchronized, by reason.
    pub fn sync_counts(&self) -> (counts: ChangeStreamSyncCounts)
        ensures
            counts == self.sync_counts,
    {
        self.sync_counts
    }

    /// Whether transactions have to hand over their changes.
    pub fn requires_changes(&self) -> (required: bool)
        ensures
            required == !(self.state is Disabled),
    {
        match &self.state {
            StreamState::Disabled { .. } => false,
            _ => true,
        }
    }

    /// Refuses changes where the stream could not record them.
    pub fn ensure_mutation_available(&self) -> (checked: Result<(), ChangeStreamError>)
        ensures
            checked == match self.state {
                StreamState::Unavailable { reason, .. } => Err::<(), ChangeStreamError>(
                    ChangeStreamError::Unavailable(reason),
                ),
                _ => Ok(()),
            },
    {
        match &self.state {
            StreamState::Unavailable { reason, .. } => {
                Err(ChangeStreamError::Unavailable(reason.clone()))
            },
            _ => Ok(()),
        }
    }

    fn refuse(&self) -> (error: ChangeStreamError)
        ensures
            error == not_enabled(self.state),
    {
        match &self.state {
            StreamState::Unavailable { reason, .. } => ChangeStreamError::Unavailable(
                reason.clone(),
            ),
            _ => ChangeStreamError::Disabled,
        }
    }

    /// Decides how to enable the stream at a baseline.
    pub fn plan_enable(&self, baseline: StorageDataVersion) -> (plan: Result<
        EnablePlan,
        ChangeStreamError,
    >)
        ensures
            match self.state@ {
                StateView::Enabled { stream } => plan == Ok::<EnablePlan, ChangeStreamError>(
                    EnablePlan::Enabled(
                        stream::cursor_at(
                            stream.header,
                            stream::current_of(stream.header, stream.batches),
                        ),
                    ),
                ),
                state => if prior_generation(state) == u64::MAX {
                    plan == Err::<EnablePlan, ChangeStreamError>(
                        ChangeStreamError::VersionExhausted,
                    )
                } else {
                    &&& plan is Ok
                    &&& plan->Ok_0 is Rewrite
                    &&& plan->Ok_0->header == enabling_header(*self, baseline)
                    &&& plan->Ok_0->contents@ == log::header_bytes(enabling_header(*self, baseline))
                },
            },
    {
        let prior: u64 = match &self.state {
            StreamState::Disabled { generation } => generation.0,
            StreamState::Enabled { stream } => {
                return Ok(EnablePlan::Enabled(stream.cursor()));
            },
            StreamState::Unavailable { generation, .. } => match generation {
                Some(known) => known.0,
                None => 0,
            },
        };
        if prior == u64::MAX {
            return Err(ChangeStreamError::VersionExhausted);
        }
        let header = Header {
            version: CHANGE_LOG_FORMAT_VERSION,
            active: true,
            kind: self.kind,
            storage_id: self.storage_id,
            table_id: self.table_id,
            fingerprint: self.fingerprint,
            generation: ChangeStreamGeneration(prior + 1),
            origin: baseline,
            earliest: baseline,
            current: baseline,
            next_sequence: 1,
        };
        let contents: Vec<u8> = log::encode_header(&header);
        Ok(EnablePlan::Rewrite { header, contents })
    }

    /// Takes note that the files of an enabling plan were written.
    pub fn complete_enable(&mut self, header: Header) -> (cursor: ChangeStreamCursor)
        requires
            old(self).wf(),
            header.earliest == header.current,
        ensures
            final(self).wf(),
            same_but_state(*final(self), *old(self)),
            final(self).state@ == (StateView::Enabled { stream: fresh_stream(header) }),
            cursor == stream::cursor_at(header, header.current),
            header.origin.0 <= header.earliest.0 ==> frontiers::in_place(*final(self)),
            frontiers::reserved_in_step(*final(self)),
    {
        proof {
            if header.origin.0 <= header.earliest.0 {
                frontiers::lemma_fresh_frontiers(header);
            }
        }
        let stream = EnabledStream {
            header,
            file_bytes: V2_HEADER_SIZE as u64,
            batches: Vec::new(),
            batch_file_bytes: Vec::new(),
            finalize_versions: BTreeMap::new(),
            unresolved: Vec::new(),
            pending_finalize_checkpoints: BTreeMap::new(),
            finalize_checkpointed_through: header.current,
            next_sequence: 1,
        };
        proof {
            assert(stream@.batches =~= Seq::empty());
            assert(stream@.unresolved =~= Seq::empty());
            assert(stream@ == fresh_stream(header));
        }
        let cursor = stream.cursor();
        self.state = StreamState::Enabled { stream };
        cursor
    }

    /// Takes note that the files of an enabling plan could not be written.
    pub fn fail_enable(&mut self, generation: ChangeStreamGeneration, error: &ChangeStreamError)
        requires
            old(self).wf(),
        ensures
            final(self).wf(),
            same_but_state(*final(self), *old(self)),
            final(self).state@ == (StateView::Unavailable {
                generation: Some(generation),
                reason: error::message(*error),
            }),
            frontiers::in_place(*final(self)),
            frontiers::reserved_in_step(*final(self)),
    {
        self.state = StreamState::Unavailable {
            generation: Some(generation),
            reason: error.to_text(),
        };
    }

    /// Decides how to disable the stream.
    pub fn plan_disable(&self) -> (plan: DisablePlan)
        ensures
            match self.state@ {
                StateView::Disabled { .. } => plan is Disabled,
                state => {
                    &&& plan is Rewrite
                    &&& plan->generation == ChangeStreamGeneration(prior_generation(state))
                    &&& plan->contents@ == log::header_bytes(disabling_header(*self))
                },
            },
    {
        let generation: ChangeStreamGeneration = match &self.state {
            StreamState::Disabled { .. } => {
                return DisablePlan::Disabled;
            },
            StreamState::Enabled { stream } => stream.header.generation,
            StreamState::Unavailable { generation, .. } => match generation {
                Some(known) => *known,
                None => ChangeStreamGeneration(0),
            },
        };
        let header = Header {
            version: CHANGE_LOG_FORMAT_VERSION,
            active: false,
            kind: self.kind,
            storage_id: self.storage_id,
            table_id: self.table_id,
            fingerprint: self.fingerprint,
            generation,
            origin: StorageDataVersion(0),
            earliest: StorageDataVersion(0),
            current: StorageDataVersion(0),
            next_sequence: 1,
        };
        let contents: Vec<u8> = log::encode_header(&header);
        DisablePlan::Rewrite { generation, contents }
    }

    /// Takes note that the log was switched off.
    pub fn complete_disable(&mut self, generation: ChangeStreamGeneration)
        requires
            old(self).wf(),
        ensures
            final(self).wf(),
            same_but_state(*final(self), *old(self)),
            final(self).state@ == (StateView::Disabled { generation }),
            frontiers::in_place(*final(self)),
            frontiers::reserved_in_step(*final(self)),
    {
        self.state = StreamState::Disabled { generation };
    }

    /// Gives the stream up where its file layer failed. Other errors leave it
    /// as it is.
    pub fn poison_after_io_error(&mut self, error: &ChangeStreamError)
        requires
            old(self).wf(),
        ensures
            final(self).wf(),
            same_but_state(*final(self), *old(self)),
            final(self).state@ == if error is Io {
                StateView::Unavailable {
                    generation: match old(self).state@ {
                        StateView::Disabled { generation } => Some(generation),
                        StateView::Enabled { stream } => Some(stream.header.generation),
                        StateView::Unavailable { generation, .. } => generation,
                    },
                    reason: error::message(*error),
                }
            } else {
                old(self).state@
            },
            frontiers::in_place(*old(self)) ==> frontiers::in_place(*final(self)),
            frontiers::reserved_in_step(*old(self)) ==> frontiers::reserved_in_step(*final(self)),
    {
        match error {
            ChangeStreamError::Io(_) => {},
            _ => {
                return ;
            },
        }
        let generation: Option<ChangeStreamGeneration> = match &self.state {
            StreamState::Disabled { generation } => Some(*generation),
            StreamState::Enabled { stream } => Some(stream.header.generation),
            StreamState::Unavailable { generation, .. } => *generation,
        };
        self.state = StreamState::Unavailable { generation, reason: error.to_text() };
    }

    /// Decides how to prepare the changes of a transaction. There is nothing to
    /// do without changes, or where the stream is disabled.
    pub fn plan_prepare(
        &self,
        txn_id: TxnId,
        database_txn_id: Option<DatabaseTxnId>,
        changes: &[StoredChange],
    ) -> (plan: Result<Option<PreparePlan>, ChangeStreamError>)
        requires
            self.wf(),
        ensures
            match self.state {
                _ if changes@.len() == 0 => plan == Ok::<Option<PreparePlan>, ChangeStreamError>(
                    None,
                ),
                StreamState::Disabled { .. } => plan == Ok::<
                    Option<PreparePlan>,
                    ChangeStreamError,
                >(None),
                StreamState::Unavailable { reason, .. } => plan == Err::<
                    Option<PreparePlan>,
                    ChangeStreamError,
                >(ChangeStreamError::Unavailable(reason)),
                StreamState::Enabled { stream } => match load::record_position(
                    stream@.unresolved,
                    txn_id,
                ) {
                    Some(found) => plan == Ok::<Option<PreparePlan>, ChangeStreamError>(
                        Some(
                            PreparePlan::Existing(
                                stream::identity_of(stream@.unresolved[found].batch),
                            ),
                        ),
                    ),
                    None => match stream::prepare_error(
                        stream@,
                        txn_id,
                        database_txn_id,
                        types::changes_view(changes@),
                    ) {
                        Some(error) => plan == Err::<Option<PreparePlan>, ChangeStreamError>(error),
                        None => {
                            &&& plan is Ok
                            &&& plan->Ok_0 is Some
                            &&& plan->Ok_0->0 is Append
                            &&& plan->Ok_0->0->batch@ == stream::batch_to_prepare(
                                stream@,
                                txn_id,
                                database_txn_id,
                                types::changes_view(changes@),
                            )
                            &&& plan->Ok_0->0->record@ == record::framed(
                                record::record_payload(plan->Ok_0->0->batch@),
                            )
                        },
                    },
                },
            },
    {
        if changes.len() == 0 {
            return Ok(None);
        }
        match &self.state {
            StreamState::Disabled { .. } => Ok(None),
            StreamState::Unavailable { reason, .. } => {
                Err(ChangeStreamError::Unavailable(reason.clone()))
            },
            StreamState::Enabled { stream } => {
                let plan = stream.plan_prepare(txn_id, database_txn_id, changes)?;
                Ok(Some(plan))
            },
        }
    }

    /// Drops the reservation of a transaction that will not commit. Only the
    /// end of the chain of reservations can go.
    pub fn abandon(&mut self, txn_id: TxnId) -> (done: Result<(), ChangeStreamError>)
        requires
            old(self).wf(),
        ensures
            final(self).wf(),
            same_but_state(*final(self), *old(self)),
            match old(self).state@ {
                StateView::Enabled { stream } => {
                    let tail = stream.unresolved.len() - 1;
                    match load::record_position(stream.unresolved, txn_id) {
                        None => done == Ok::<(), ChangeStreamError>(()) && final(self).state@
                            == old(self).state@,
                        Some(found) => if found != tail {
                            done == Err::<(), ChangeStreamError>(
                                ChangeStreamError::InvalidRecord(
                                    "prepared reservation is not the chain tail",
                                ),
                            ) && final(self).state@ == old(self).state@
                        } else {
                            done == Ok::<(), ChangeStreamError>(()) && final(self).state@ == (
                            StateView::Enabled {
                                stream: StreamView {
                                    unresolved: stream.unresolved.drop_last(),
                                    ..stream
                                },
                            })
                        },
                    }
                },
                state => done == Ok::<(), ChangeStreamError>(()) && final(self).state@ == state,
            },
            frontiers::in_place(*old(self)) ==> frontiers::in_place(*final(self)),
            frontiers::reserved_in_step(*old(self)) ==> frontiers::reserved_in_step(*final(self)),
    {
        proof {
            if let StateView::Enabled { stream } = self.state@ {
                if stream.unresolved.len() > 0 && frontiers::frontiers_kept(stream) {
                    frontiers::law_abandoning_keeps_the_frontiers(stream);
                }
            }
        }
        match &mut self.state {
            StreamState::Enabled { stream } => stream.abandon(txn_id),
            _ => Ok(()),
        }
    }

    /// The cursor at the committed frontier.
    pub fn cursor(&self) -> (cursor: Result<ChangeStreamCursor, ChangeStreamError>)
        ensures
            cursor == match self.state {
                StreamState::Enabled { stream } => Ok::<ChangeStreamCursor, ChangeStreamError>(
                    stream::cursor_at(
                        stream.header,
                        stream::current_of(stream.header, stream@.batches),
                    ),
                ),
                state => Err(not_enabled(state)),
            },
    {
        match &self.state {
            StreamState::Enabled { stream } => Ok(stream.cursor()),
            _ => Err(self.refuse()),
        }
    }

    /// Reads as many batches from a cursor on as fit.
    pub fn read(&self, cursor: ChangeStreamCursor, max_batches: usize, max_bytes: u64) -> (result:
        Result<ChangeReadResult, ChangeStreamError>)
        requires
            self.wf(),
        ensures
            match self.state {
                StreamState::Enabled { stream } => match history::read_result(
                    stream@,
                    cursor,
                    max_batches as int,
                    max_bytes as int,
                ) {
                    Err(error) => result == Err::<ChangeReadResult, ChangeStreamError>(error),
                    Ok((batches, has_more)) => {
                        &&& result is Ok
                        &&& types::batches_view(result->Ok_0.batches@) == batches
                        &&& result->Ok_0.has_more == has_more
                        &&& result->Ok_0.current_frontier == stream::current_of(
                            stream.header,
                            stream@.batches,
                        )
                    },
                },
                state => result == Err::<ChangeReadResult, ChangeStreamError>(not_enabled(state)),
            },
    {
        match &self.state {
            StreamState::Enabled { stream } => stream.read(cursor, max_batches, max_bytes),
            _ => Err(self.refuse()),
        }
    }

    /// Promises that the history at a cursor stays readable.
    pub fn acquire_retention_pin(&mut self, cursor: ChangeStreamCursor) -> (pin: Result<
        ChangeStreamRetentionPin,
        ChangeStreamError,
    >)
        requires
            old(self).wf(),
        ensures
            final(self).wf(),
            same_but_pins(*final(self), *old(self)),
            match pin_refused(*old(self), cursor) {
                Some(error) => pin == Err::<ChangeStreamRetentionPin, ChangeStreamError>(error)
                    && final(self).retention_pins == old(self).retention_pins,
                None => {
                    let id = old(self).retention_pins.next_id;
                    &&& pin == Ok::<ChangeStreamRetentionPin, ChangeStreamError>(
                        ChangeStreamRetentionPin {
                            storage_id: cursor.storage_id,
                            generation: cursor.generation,
                            frontier: cursor.frontier,
                            id,
                            active: true,
                        },
                    )
                    &&& final(self).retention_pins.next_id == id + 1
                    &&& final(self).retention_pins.pins@ == old(self).retention_pins.pins@.insert(
                        id,
                        ChangeStreamRetentionPinInspection {
                            storage_id: cursor.storage_id,
                            generation: cursor.generation,
                            frontier: cursor.frontier,
                        },
                    )
                },
            },
            frontiers::in_place(*old(self)) ==> frontiers::in_place(*final(self)),
            frontiers::reserved_in_step(*old(self)) ==> frontiers::reserved_in_step(*final(self)),
    {
        match &self.state {
            StreamState::Enabled { stream } => {
                stream.validate_cursor_identity_and_frontier(cursor)?;
            },
            _ => {
                return Err(self.refuse());
            },
        }
        self.retention_pins.register(cursor)
    }

    /// Moves a promise forward. `registered_here` tells whether the pin came
    /// from this manager.
    pub fn advance_retention_pin(
        &mut self,
        pin: &mut ChangeStreamRetentionPin,
        registered_here: bool,
        frontier: StorageDataVersion,
    ) -> (done: Result<(), ChangeStreamError>)
        requires
            old(self).wf(),
        ensures
            final(self).wf(),
            same_but_pins(*final(self), *old(self)),
            final(self).retention_pins.next_id == old(self).retention_pins.next_id,
            match advance_refused(*old(self), *old(pin), registered_here, frontier) {
                Some(error) => {
                    &&& done == Err::<(), ChangeStreamError>(error)
                    &&& final(self).retention_pins == old(self).retention_pins
                    &&& *final(pin) == *old(pin)
                },
                None => {
                    let known = old(self).retention_pins.pins@;
                    let id = old(pin).id;
                    &&& done == Ok::<(), ChangeStreamError>(())
                    &&& *final(pin) == (ChangeStreamRetentionPin { frontier, ..*old(pin) })
                    &&& final(self).retention_pins.pins@ == known.insert(
                        id,
                        ChangeStreamRetentionPinInspection { frontier, ..known[id] },
                    )
                },
            },
            frontiers::in_place(*old(self)) ==> frontiers::in_place(*final(self)),
            frontiers::reserved_in_step(*old(self)) ==> frontiers::reserved_in_step(*final(self)),
    {
        if frontier.0 < pin.frontier.0 {
            return Err(
                ChangeStreamError::RetentionPinFrontierRegression {
                    current: pin.frontier,
                    requested: frontier,
                },
            );
        }
        let cursor = ChangeStreamCursor {
            storage_id: pin.storage_id,
            generation: pin.generation,
            frontier,
        };
        match &self.state {
            StreamState::Enabled { stream } => {
                stream.validate_cursor_identity_and_frontier(cursor)?;
            },
            _ => {
                return Err(ChangeStreamError::StreamIdentityMismatch);
            },
        }
        self.retention_pins.advance(pin, registered_here, frontier)
    }

    /// Decides how to give up the history up to a frontier.
    pub fn plan_gc(&self, frontier: StorageDataVersion) -> (plan: Result<GcPlan, ChangeStreamError>)
        requires
            self.wf(),
        ensures
            match self.state {
                StreamState::Enabled { stream } => match reclaim::gc_refused(
                    stream@,
                    self.retention_pins.pins@,
                    frontier,
                ) {
                    Some(error) => plan == Err::<GcPlan, ChangeStreamError>(error),
                    None => if reclaim::gc_is_done(stream@, frontier) {
                        plan == Ok::<GcPlan, ChangeStreamError>(
                            GcPlan::Unchanged(reclaim::gc_report_unchanged(stream@)),
                        )
                    } else {
                        match reclaim::reclaimed_log(stream@, frontier) {
                            Err(error) => plan == Err::<GcPlan, ChangeStreamError>(error),
                            Ok(contents) => {
                                &&& plan is Ok
                                &&& plan->Ok_0 is Rewrite
                                &&& plan->Ok_0->contents@ == contents
                                &&& plan->Ok_0->guard@ == log::header_bytes(
                                    reclaim::reclaimed_header(stream@, frontier),
                                )
                            },
                        }
                    },
                },
                state => plan == Err::<GcPlan, ChangeStreamError>(not_enabled(state)),
            },
    {
        match &self.state {
            StreamState::Enabled { stream } => stream.plan_gc(&self.retention_pins, frontier),
            _ => Err(self.refuse()),
        }
    }
}

/// Why a cursor cannot be pinned.
pub open spec fn pin_refused(
    manager: ChangeStreamManager,
    cursor: ChangeStreamCursor,
) -> Option<ChangeStreamError> {
    match manager.state {
        StreamState::Enabled { stream } => if let Some(error) = history::cursor_error(
            stream.header,
            stream@.batches,
            cursor,
        ) {
            Some(error)
        } else if manager.retention_pins.next_id == u64::MAX {
            Some(ChangeStreamError::VersionExhausted)
        } else {
            None
        },
        state => Some(not_enabled(state)),
    }
}

/// Why a pin cannot be moved to a frontier.
pub open spec fn advance_refused(
    manager: ChangeStreamManager,
    pin: ChangeStreamRetentionPin,
    registered_here: bool,
    frontier: StorageDataVersion,
) -> Option<ChangeStreamError> {
    let cursor = ChangeStreamCursor {
        storage_id: pin.storage_id,
        generation: pin.generation,
        frontier,
    };
    let known = manager.retention_pins.pins@;
    if frontier.0 < pin.frontier.0 {
        Some(
            ChangeStreamError::RetentionPinFrontierRegression {
                current: pin.frontier,
                requested: frontier,
            },
        )
    } else {
        match manager.state {
            StreamState::Enabled { stream } => if let Some(error) = history::cursor_error(
                stream.header,
                stream@.batches,
                cursor,
            ) {
                Some(error)
            } else if !registered_here || !pin.active || !known.contains_key(pin.id)
                || !pins::protects(
                known[pin.id],
                pin.storage_id,
                pin.generation,
            ) {
                Some(ChangeStreamError::RetentionPinUnavailable)
            } else {
                None
            },
            _ => Some(ChangeStreamError::StreamIdentityMismatch),
        }
    }
}

impl EnabledStream {
    /// Drops the reservation of a transaction that will not commit. Only the
    /// end of the chain of reservations can go.
    pub fn abandon(&mut self, txn_id: TxnId) -> (done: Result<(), ChangeStreamError>)
        requires
            old(self).wf(),
        ensures
            final(self).wf(),
            match load::record_position(old(self)@.unresolved, txn_id) {
                None => done == Ok::<(), ChangeStreamError>(()) && final(self)@ == old(self)@,
                Some(found) => if found != old(self)@.unresolved.len() - 1 {
                    done == Err::<(), ChangeStreamError>(
                        ChangeStreamError::InvalidRecord(
                            "prepared reservation is not the chain tail",
                        ),
                    ) && final(self)@ == old(self)@
                } else {
                    done == Ok::<(), ChangeStreamError>(()) && final(self)@ == (StreamView {
                        unresolved: old(self)@.unresolved.drop_last(),
                        ..old(self)@
                    })
                },
            },
    {
        match load::find_record(&self.unresolved, txn_id) {
            None => Ok(()),
            Some(found) => {
                if found != self.unresolved.len() - 1 {
                    return Err(
                        ChangeStreamError::InvalidRecord(
                            "prepared reservation is not the chain tail",
                        ),
                    );
                }
                let ghost before = self@.unresolved;
                let _ = self.unresolved.pop();
                proof {
                    assert(self@.unresolved =~= before.drop_last());
                    assert forall|i: int, j: int|
                        0 <= i < j < self@.unresolved.len() implies stream::ordered_before(
                        #[trigger] self@.unresolved[i],
                        #[trigger] self@.unresolved[j],
                    ) && self@.unresolved[i].batch.physical_txn_id
                        != self@.unresolved[j].batch.physical_txn_id by {
                        assert(stream::ordered_before(before[i], before[j]));
                    }
                    assert forall|i: int| 0 <= i < self@.unresolved.len() implies (
                    #[trigger] self@.unresolved[i]).batch.sequence < self.next_sequence
                        && stream::sizes_kept(self@.unresolved[i]) by {
                        assert(before[i].batch.sequence < self.next_sequence);
                    }
                }
                Ok(())
            },
        }
    }
}

} // verus!
