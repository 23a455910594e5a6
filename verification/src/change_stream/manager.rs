//! The life of a change stream: disabled, enabled or unavailable.
use super::durable;
use super::durable::ChangeStreamSyncCounts;
use super::error;
use super::error::ChangeStreamError;
use super::finalize;
use super::frontiers;
use super::load;
use super::load::{AuthoritativeOutcome, LoadedLog, RecordView};
use super::log;
use super::log::Header;
use super::pins;
use super::pins::{ChangeStreamRetentionPinInspection, RetentionPinRegistry};
use super::record;
use super::recover;
use super::recover::Scan;
use super::stream;
use super::stream::{EnabledStream, StreamView};
use super::types::ChangeStorageKind;
use crate::ids::{ChangeStreamGeneration, SchemaFingerprint, StorageDataVersion, StorageId, TableId};
use crate::text;
use vstd::prelude::*;

verus! {

broadcast use {
    vstd::std_specs::btree::group_btree_axioms,
    vstd::laws_cmp::group_laws_cmp,
};

/// Whether a stream records changes.
#[derive(Debug, Clone, Copy, PartialEq, Eq, Structural)]
pub enum ChangeStreamStatus {
    Disabled,
    Enabled,
    Unavailable,
}

/// The state of a change stream.
#[allow(inconsistent_fields)]
pub enum StreamState {
    Disabled { generation: ChangeStreamGeneration },
    Enabled { stream: EnabledStream },
    Unavailable { generation: Option<ChangeStreamGeneration>, reason: String },
}

/// The change stream of one storage.
pub struct ChangeStreamManager {
    pub kind: ChangeStorageKind,
    pub storage_id: StorageId,
    pub table_id: TableId,
    pub fingerprint: SchemaFingerprint,
    pub state: StreamState,
    pub sync_counts: ChangeStreamSyncCounts,
    pub retention_pins: RetentionPinRegistry,
}

/// A read-only description of a change stream.
#[derive(Debug, PartialEq, Eq)]
pub struct ChangeStreamInspection {
    pub storage_id: StorageId,
    pub table_id: TableId,
    pub status: ChangeStreamStatus,
    pub generation: Option<ChangeStreamGeneration>,
    pub schema_fingerprint: SchemaFingerprint,
    /// Frontier at which this stream incarnation was enabled.
    pub stream_origin_frontier: Option<StorageDataVersion>,
    /// Compatibility alias for `stream_origin_frontier`.
    pub baseline_data_version: Option<StorageDataVersion>,
    /// Highest recoverably committed frontier visible to runtime readers. In
    /// pipelined mode this may lead `finalize_checkpointed_through`.
    pub current_data_version: StorageDataVersion,
    /// Highest committed frontier whose Finalize marker has crossed an
    /// explicit sync boundary in this process (or during reopen repair).
    pub finalize_checkpointed_through: Option<StorageDataVersion>,
    /// Committed runtime batches whose Finalize marker is appended but has not
    /// yet crossed an explicit sync boundary.
    pub pending_finalize_checkpoint_count: u64,
    pub earliest_available_frontier: Option<StorageDataVersion>,
    pub committed_batch_count: u64,
    pub committed_mutation_count: u64,
    pub file_bytes: u64,
    pub prepared_unresolved_count: u64,
    pub last_error: Option<String>,
}

/// Payload-free metadata used to plan bounded change-stream maintenance.
///
/// `change_bytes` is the exact encoded prepared-record length consumed by a
/// bounded reader. `retained_file_bytes` additionally counts the matching
/// finalize record and is therefore the exact contribution retained by a
/// rewrite of the log.
#[derive(Debug, Clone, Copy, PartialEq, Eq, Structural)]
pub struct ChangeBatchMaintenanceInspection {
    pub before: StorageDataVersion,
    pub after: StorageDataVersion,
    pub mutation_count: u64,
    pub change_bytes: u64,
    pub retained_file_bytes: u64,
}

/// Immutable, payload-free state for maintenance planning.
#[derive(Debug, PartialEq, Eq)]
pub struct ChangeStreamMaintenanceInspection {
    pub stream: ChangeStreamInspection,
    pub batches: Vec<ChangeBatchMaintenanceInspection>,
    pub retention_pins: Vec<ChangeStreamRetentionPinInspection>,
    /// Exact encoded header size produced by the current production rewrite.
    pub rewrite_header_bytes: u64,
}

/// The guard file beside a log, as it was found.
pub enum GuardFile<'a> {
    Missing,
    Unreadable(String),
    Found(&'a [u8]),
}

/// What is to be done to open a stream.
pub enum OpenStep {
    /// The stream is open. Where `remove_guard` is set the guard file is stale.
    Done { manager: ChangeStreamManager, remove_guard: bool },
    /// The guard file is to be written; with the outcomes of the logged
    /// transactions the stream can then be recovered.
    Recover { loaded: LoadedLog, guard: Vec<u8> },
}

/// Whether a guard speaks of the same enabled stream as a log.
pub open spec fn same_stream(left: Header, right: Header) -> bool {
    &&& left.active
    &&& right.active
    &&& left.kind == right.kind
    &&& left.storage_id == right.storage_id
    &&& left.table_id == right.table_id
    &&& left.fingerprint == right.fingerprint
    &&& left.generation == right.generation
}

/// Whether a guard speaks of the same enabled stream as a log.
pub fn guard_identity_matches(left: &Header, right: &Header) -> (matching: bool)
    ensures
        matching == same_stream(*left, *right),
{
    left.active && right.active && left.kind == right.kind && left.storage_id == right.storage_id
        && left.table_id == right.table_id && left.fingerprint.same_as(&right.fingerprint)
        && left.generation == right.generation
}

/// The generation that a guard file names, if it is readable.
pub open spec fn guard_generation(guard: GuardFile) -> Option<ChangeStreamGeneration> {
    match guard {
        GuardFile::Found(bytes) => match log::header_of(bytes@, log::header_check(bytes@)) {
            Ok(header) => Some(header.generation),
            Err(_) => None,
        },
        _ => None,
    }
}

fn read_guard_generation(guard: &GuardFile) -> (generation: Option<ChangeStreamGeneration>)
    ensures
        generation == guard_generation(*guard),
{
    match guard {
        GuardFile::Found(bytes) => match log::decode_header(bytes) {
            Ok(header) => Some(header.generation),
            Err(_) => None,
        },
        _ => None,
    }
}

/// Why a guard file does not suit the log of an enabled stream. A missing
/// guard does.
pub open spec fn guard_error(guard: GuardFile, header: Header) -> Option<ChangeStreamError> {
    match guard {
        GuardFile::Missing => None,
        GuardFile::Unreadable(reason) => Some(ChangeStreamError::Io(reason)),
        GuardFile::Found(bytes) => match log::header_of(bytes@, log::header_check(bytes@)) {
            Err(error) => Some(error),
            Ok(found) => if same_stream(found, header) {
                None
            } else {
                Some(ChangeStreamError::InvalidHeader("active guard identity mismatch"))
            },
        },
    }
}

fn check_guard(guard: GuardFile, header: &Header) -> (checked: Result<(), ChangeStreamError>)
    ensures
        match guard_error(guard, *header) {
            Some(error) => checked == Err::<(), ChangeStreamError>(error),
            None => checked == Ok::<(), ChangeStreamError>(()),
        },
{
    match guard {
        GuardFile::Missing => Ok(()),
        GuardFile::Unreadable(reason) => Err(ChangeStreamError::Io(reason)),
        GuardFile::Found(bytes) => {
            let found = log::decode_header(bytes)?;
            if guard_identity_matches(&found, header) {
                Ok(())
            } else {
                Err(ChangeStreamError::InvalidHeader("active guard identity mismatch"))
            }
        },
    }
}

/// Whether the header of a log is that of this storage.
pub open spec fn header_is_ours(
    header: Header,
    kind: ChangeStorageKind,
    storage_id: StorageId,
    table_id: TableId,
    fingerprint: SchemaFingerprint,
) -> bool {
    &&& header.storage_id == storage_id
    &&& header.table_id == table_id
    &&& header.fingerprint == fingerprint
    &&& header.kind == kind
}

/// What a state is, with the text of its reason.
#[allow(inconsistent_fields)]
pub enum StateView {
    Disabled { generation: ChangeStreamGeneration },
    Enabled { stream: StreamView },
    Unavailable { generation: Option<ChangeStreamGeneration>, reason: Seq<char> },
}

impl View for StreamState {
    type V = StateView;

    open spec fn view(&self) -> StateView {
        match *self {
            StreamState::Disabled { generation } => StateView::Disabled { generation },
            StreamState::Enabled { stream } => StateView::Enabled { stream: stream@ },
            StreamState::Unavailable { generation, reason } => StateView::Unavailable {
                generation,
                reason: reason@,
            },
        }
    }
}

impl StreamState {
    /// What every operation keeps of a state.
    pub open spec fn wf(&self) -> bool {
        self matches StreamState::Enabled { stream } ==> stream.wf()
    }
}

/// Where a stream stands right after its files were looked at, if it needs no
/// recovery.
pub open spec fn opened_state(
    kind: ChangeStorageKind,
    storage_id: StorageId,
    table_id: TableId,
    fingerprint: SchemaFingerprint,
    contents: Option<Seq<u8>>,
    guard: GuardFile,
    refused: Set<Seq<u8>>,
) -> Option<StateView> {
    match contents {
        None => if guard is Missing {
            Some(StateView::Disabled { generation: ChangeStreamGeneration(0) })
        } else {
            Some(
                StateView::Unavailable {
                    generation: guard_generation(guard),
                    reason: "active change log is missing"@,
                },
            )
        },
        Some(s) => match load::log_of(s, true, refused) {
            Err(error) => Some(
                StateView::Unavailable {
                    generation: guard_generation(guard),
                    reason: error::message(error),
                },
            ),
            Ok(found) => if !header_is_ours(
                found.header,
                kind,
                storage_id,
                table_id,
                fingerprint,
            ) {
                Some(
                    StateView::Unavailable {
                        generation: Some(found.header.generation),
                        reason: "persisted identity does not match authoritative storage"@,
                    },
                )
            } else if !found.header.active {
                Some(StateView::Disabled { generation: found.header.generation })
            } else if let Some(error) = guard_error(guard, found.header) {
                Some(
                    StateView::Unavailable {
                        generation: Some(found.header.generation),
                        reason: error::message(error),
                    },
                )
            } else {
                None
            },
        },
    }
}

/// What recovery finds in the records of a log, with what became of the
/// transactions that have no finalize marker.
pub open spec fn recovery_of(
    header: Header,
    file_bytes: u64,
    records: Seq<RecordView>,
    outcomes: Seq<AuthoritativeOutcome>,
) -> Scan {
    recover::scanned(
        load::with_outcomes(records, outcomes),
        header,
        file_bytes,
        records.len() as int,
    )
}

/// Where a stream stands after its recovery.
pub open spec fn recovered_state(scan: Scan, header: Header) -> StateView {
    match recover::recovered(scan) {
        Ok(stream) => StateView::Enabled { stream },
        Err(error) => StateView::Unavailable {
            generation: Some(header.generation),
            reason: error::message(error),
        },
    }
}

/// The synchronizations of a recovery: one, where finalize markers are put
/// back into the log of a stream that is then enabled.
pub open spec fn recovery_syncs(scan: Scan) -> ChangeStreamSyncCounts {
    let syncs: u64 = if recover::recovered(scan) is Ok && scan.repairs.len() != 0 {
        1
    } else {
        0
    };
    ChangeStreamSyncCounts { total: syncs, recovery_finalize: syncs, ..durable::no_syncs() }
}

impl ChangeStreamManager {
    /// What every operation keeps of a manager.
    pub open spec fn wf(&self) -> bool {
        self.state.wf() && self.retention_pins.wf()
    }

    /// A manager in a state, without pins and synchronizations.
    fn with_state(
        kind: ChangeStorageKind,
        storage_id: StorageId,
        table_id: TableId,
        fingerprint: SchemaFingerprint,
        state: StreamState,
    ) -> (manager: ChangeStreamManager)
        requires
            state.wf(),
        ensures
            manager.wf(),
            manager.kind == kind,
            manager.storage_id == storage_id,
            manager.table_id == table_id,
            manager.fingerprint == fingerprint,
            manager.state == state,
            manager.sync_counts == durable::no_syncs(),
            manager.retention_pins.pins@ == pins::Pins::empty(),
    {
        ChangeStreamManager {
            kind,
            storage_id,
            table_id,
            fingerprint,
            state,
            sync_counts: ChangeStreamSyncCounts::none(),
            retention_pins: RetentionPinRegistry::new(),
        }
    }

    /// A stream that was never enabled.
    pub fn disabled(
        kind: ChangeStorageKind,
        storage_id: StorageId,
        table_id: TableId,
        fingerprint: SchemaFingerprint,
    ) -> (manager: ChangeStreamManager)
        ensures
            manager.wf(),
            manager.kind == kind,
            manager.storage_id == storage_id,
            manager.table_id == table_id,
            manager.fingerprint == fingerprint,
            manager.state@ == (StateView::Disabled { generation: ChangeStreamGeneration(0) }),
            manager.sync_counts == durable::no_syncs(),
            manager.retention_pins.pins@ == pins::Pins::empty(),
            frontiers::in_place(manager),
            frontiers::reserved_in_step(manager),
    {
        Self::with_state(
            kind,
            storage_id,
            table_id,
            fingerprint,
            StreamState::Disabled { generation: ChangeStreamGeneration(0) },
        )
    }

    /// Looks at the files of a stream: the contents of its log, where it has
    /// one, its guard, and which row images of the log are no canonical rows.
    pub fn open(
        kind: ChangeStorageKind,
        storage_id: StorageId,
        table_id: TableId,
        fingerprint: SchemaFingerprint,
        contents: Option<&[u8]>,
        guard: GuardFile,
        refused: &[Vec<u8>],
    ) -> (step: OpenStep)
        ensures
            ({
                let bytes = match contents {
                    Some(slice) => Some(slice@),
                    None => None,
                };
                match opened_state(
                    kind,
                    storage_id,
                    table_id,
                    fingerprint,
                    bytes,
                    guard,
                    record::refused_rows(refused@),
                ) {
                    Some(state) => match step {
                        OpenStep::Done { manager, remove_guard } => {
                            &&& manager.wf()
                            &&& manager.kind == kind
                            &&& manager.storage_id == storage_id
                            &&& manager.table_id == table_id
                            &&& manager.fingerprint == fingerprint
                            &&& manager.state@ == state
                            &&& manager.sync_counts == durable::no_syncs()
                            &&& manager.retention_pins.pins@ == pins::Pins::empty()
                            &&& remove_guard == (contents is Some && state is Disabled)
                            &&& frontiers::in_place(manager)
                            &&& frontiers::reserved_in_step(manager)
                        },
                        _ => false,
                    },
                    None => match step {
                        OpenStep::Recover { loaded, guard: guard_bytes } => {
                            let rows = record::refused_rows(refused@);
                            let found = load::log_of(contents->0@, true, rows)->Ok_0;
                            &&& loaded.header == found.header
                            &&& load::records_view(loaded.records@) == found.records
                            &&& loaded.file_bytes == found.file_bytes
                            &&& loaded.header.origin.0 <= loaded.header.earliest.0
                            &&& recover::records_sized(load::records_view(loaded.records@))
                            &&& guard_bytes@ == log::header_bytes(found.header)
                        },
                        _ => false,
                    },
                }
            }),
    {
        let bytes: &[u8] = match contents {
            None => {
                let state = match guard {
                    GuardFile::Missing => StreamState::Disabled {
                        generation: ChangeStreamGeneration(0),
                    },
                    _ => StreamState::Unavailable {
                        generation: read_guard_generation(&guard),
                        reason: text::text_of("active change log is missing"),
                    },
                };
                let manager = Self::with_state(kind, storage_id, table_id, fingerprint, state);
                return OpenStep::Done { manager, remove_guard: false };
            },
            Some(bytes) => bytes,
        };
        let loaded: LoadedLog = match load::load_file(bytes, true, refused) {
            Err(error) => {
                let state = StreamState::Unavailable {
                    generation: read_guard_generation(&guard),
                    reason: error.to_text(),
                };
                let manager = Self::with_state(kind, storage_id, table_id, fingerprint, state);
                return OpenStep::Done { manager, remove_guard: false };
            },
            Ok(loaded) => loaded,
        };
        let header = loaded.header;
        proof {
            recover::lemma_log_sized(bytes@, true, record::refused_rows(refused@));
            frontiers::law_log_header_is_ordered(bytes@, true, record::refused_rows(refused@));
        }
        if header.storage_id != storage_id || header.table_id != table_id
            || !header.fingerprint.same_as(&fingerprint) || header.kind != kind {
            let state = StreamState::Unavailable {
                generation: Some(header.generation),
                reason: text::text_of("persisted identity does not match authoritative storage"),
            };
            let manager = Self::with_state(kind, storage_id, table_id, fingerprint, state);
            return OpenStep::Done { manager, remove_guard: false };
        }
        if !header.active {
            let state = StreamState::Disabled { generation: header.generation };
            let manager = Self::with_state(kind, storage_id, table_id, fingerprint, state);
            return OpenStep::Done { manager, remove_guard: true };
        }
        match check_guard(guard, &header) {
            Err(error) => {
                let state = StreamState::Unavailable {
                    generation: Some(header.generation),
                    reason: error.to_text(),
                };
                let manager = Self::with_state(kind, storage_id, table_id, fingerprint, state);
                OpenStep::Done { manager, remove_guard: false }
            },
            Ok(()) => {
                proof {
                    load::lemma_front_version(bytes@);
                }
                OpenStep::Recover { guard: log::encode_header(&header), loaded }
            },
        }
    }

    /// Recovers a stream from its log. `outcomes` tells, record by record, what
    /// became of the transactions without a finalize marker. Returns the markers
    /// that are to be appended to the log and synchronized.
    pub fn recover(
        kind: ChangeStorageKind,
        storage_id: StorageId,
        table_id: TableId,
        fingerprint: SchemaFingerprint,
        loaded: LoadedLog,
        outcomes: &[AuthoritativeOutcome],
    ) -> (opened: (ChangeStreamManager, Vec<Vec<u8>>))
        requires
            recover::records_sized(load::records_view(loaded.records@)),
            outcomes@.len() == loaded.records@.len(),
        ensures
            ({
                let scan = recovery_of(
                    loaded.header,
                    loaded.file_bytes,
                    load::records_view(loaded.records@),
                    outcomes@,
                );
                let (manager, repairs) = opened;
                &&& manager.wf()
                &&& manager.kind == kind
                &&& manager.storage_id == storage_id
                &&& manager.table_id == table_id
                &&& manager.fingerprint == fingerprint
                &&& manager.retention_pins.pins@ == pins::Pins::empty()
                &&& finalize::markers_view(repairs@) == scan.repairs
                &&& loaded.header.origin.0 <= loaded.header.earliest.0 ==> frontiers::in_place(
                    manager,
                )
                &&& frontiers::unresolved_advance(
                    load::with_outcomes(load::records_view(loaded.records@), outcomes@),
                ) ==> frontiers::reserved_in_step(manager)
                &&& manager.state@ == recovered_state(scan, loaded.header)
                &&& manager.sync_counts == recovery_syncs(scan)
            }),
    {
        let header = loaded.header;
        let file_bytes: u64 = loaded.file_bytes;
        let mut records = loaded.records;
        let ghost views = load::records_view(records@);
        load::assign_outcomes(&mut records, outcomes);
        proof {
            assert forall|i: int|
                0 <= i < load::with_outcomes(views, outcomes@).len() implies recover::sizes_loaded(
                #[trigger] load::with_outcomes(views, outcomes@)[i],
            ) by {
                assert(recover::sizes_loaded(views[i]));
            }
        }
        proof {
            frontiers::lemma_recovered_frontiers(
                load::with_outcomes(views, outcomes@),
                header,
                file_bytes,
            );
        }
        let recovery = recover::build_enabled_state(header, file_bytes, records);
        let repairs = recovery.repairs;
        assert(finalize::markers_view(repairs@).len() == repairs@.len());
        match recovery.stream {
            Ok(stream) => {
                let syncs: u64 = if repairs.len() != 0 { 1 } else { 0 };
                let mut manager = Self::with_state(
                    kind,
                    storage_id,
                    table_id,
                    fingerprint,
                    StreamState::Enabled { stream },
                );
                manager.sync_counts.total = syncs;
                manager.sync_counts.recovery_finalize = syncs;
                (manager, repairs)
            },
            Err(error) => {
                let state = StreamState::Unavailable {
                    generation: Some(header.generation),
                    reason: error.to_text(),
                };
                (Self::with_state(kind, storage_id, table_id, fingerprint, state), repairs)
            },
        }
    }

    /// A stream that cannot be used because writing its files failed.
    pub fn unavailable(
        kind: ChangeStorageKind,
        storage_id: StorageId,
        table_id: TableId,
        fingerprint: SchemaFingerprint,
        generation: ChangeStreamGeneration,
        error: &ChangeStreamError,
    ) -> (manager: ChangeStreamManager)
        ensures
            manager.wf(),
            manager.kind == kind,
            manager.storage_id == storage_id,
            manager.table_id == table_id,
            manager.fingerprint == fingerprint,
            manager.state@ == (StateView::Unavailable {
                generation: Some(generation),
                reason: error::message(*error),
            }),
            manager.sync_counts == durable::no_syncs(),
            manager.retention_pins.pins@ == pins::Pins::empty(),
            frontiers::in_place(manager),
            frontiers::reserved_in_step(manager),
    {
        let state = StreamState::Unavailable {
            generation: Some(generation),
            reason: error.to_text(),
        };
        Self::with_state(kind, storage_id, table_id, fingerprint, state)
    }
}

} // verus!
