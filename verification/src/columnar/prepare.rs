//! Preparing a projection: its base segment and its manifest, as bytes.
use super::base::{self, BaseBuilder};
use super::error::ColumnarError;
use super::feed::{self, Offer};
use super::gather::{self, GroupGatherer};
use super::group::{self, TableDef};
use super::lazy_segment::LAZY_SEGMENT_HEADER_BYTES;
use super::manifest;
use super::metadata::{
    self, ColumnarIncrementalMetadata, ColumnarProjectionMetadata, IncrementalView, MetadataView,
    SegmentIdentity, DEFAULT_ROW_GROUP_ROWS, LAZY_FORMAT_VERSION,
};
use super::vector::{self, ColumnarColumnSpec};
use super::version::StorageSnapshotToken;
use super::writer::{self, FinishedSegment, Piece, SegmentFile, SegmentPlan};
use crate::bytes;
use crate::change_stream::stream::ChangeStreamCursor;
use crate::change_stream::types::StorageVersionKey;
use crate::ids::{
    ColumnId, ColumnarGeneration, ColumnarProjectionId, ColumnarSegmentId, SchemaFingerprint,
    StorageId, TableId,
};
use crate::value::{self, ScalarValue, ScalarView};
use vstd::prelude::*;
use vstd::utf8;

verus! {

// ---------------------------------------------------------------------------
// Orders
// ---------------------------------------------------------------------------
/// What a base segment is prepared for. One that follows a change stream has the
/// place in the stream up to which its rows are.
pub struct BaseOrder {
    pub id: ColumnarProjectionId,
    pub generation: ColumnarGeneration,
    pub table_id: TableId,
    pub storage_id: StorageId,
    pub token: StorageSnapshotToken,
    pub fingerprint: SchemaFingerprint,
    pub columns: Seq<ColumnarColumnSpec>,
    pub cursor: Option<ChangeStreamCursor>,
    pub group_rows: usize,
}

/// The identity of the segment of an order.
pub open spec fn order_identity(order: BaseOrder) -> SegmentIdentity {
    SegmentIdentity {
        projection_id: order.id,
        generation: order.generation,
        segment_id: ColumnarSegmentId(order.generation.0),
        table_id: order.table_id,
        storage_id: order.storage_id,
        fingerprint: order.fingerprint,
    }
}

/// What the segment of an order is written for.
pub open spec fn order_plan(order: BaseOrder) -> SegmentPlan {
    SegmentPlan {
        identity: order_identity(order),
        kind: order.token.kind,
        columns: order.columns,
        versioned: order.cursor is Some,
        group_rows: order.group_rows,
        start: LAZY_SEGMENT_HEADER_BYTES,
    }
}

/// How far a projection has followed its change stream when it is prepared.
pub open spec fn order_incremental(cursor: Option<ChangeStreamCursor>) -> Option<IncrementalView> {
    match cursor {
        None => None,
        Some(at) => Some(
            IncrementalView {
                stream_generation: at.generation,
                base_frontier: at.frontier,
                applied_frontier: at.frontier,
                delta_segments: Seq::empty(),
                delta_mutation_count: 0,
                delta_live_row_count: 0,
                suppressed_version_count: 0,
                delta_bytes: 0,
            },
        ),
    }
}

/// The metadata of a prepared projection.
pub open spec fn order_metadata(order: BaseOrder, rows: u64, groups: u64, bytes: u64)
    -> MetadataView {
    MetadataView {
        id: order.id,
        generation: order.generation,
        table_id: order.table_id,
        source_storage_id: order.storage_id,
        source_token: order.token,
        schema_fingerprint: order.fingerprint,
        columns: order.columns,
        row_count: rows,
        row_group_count: groups,
        segment_count: 1,
        segment_bytes: bytes,
        incremental: order_incremental(order.cursor),
    }
}

/// A prepared projection.
pub struct PreparedView {
    pub metadata: MetadataView,
    pub segment_id: ColumnarSegmentId,
    pub segment_file: Seq<char>,
    pub file: SegmentFile,
    pub manifest: Seq<u8>,
}

/// The projection of an order with a segment of so many rows.
pub open spec fn prepared(order: BaseOrder, file: SegmentFile, rows: u64) -> Result<
    PreparedView,
    ColumnarError,
> {
    let known = order_metadata(
        order,
        rows,
        file.groups.len() as u64,
        writer::file_of(file).len() as u64,
    );
    let segment_id = ColumnarSegmentId(order.generation.0);
    let name = metadata::segment_name(order.id, order.generation);
    match manifest::manifest_error(known, utf8::encode_utf8(name)) {
        Some(error) => Err(error),
        None => Ok(
            PreparedView {
                metadata: known,
                segment_id,
                segment_file: name,
                file,
                manifest: manifest::manifest_le(
                    known,
                    segment_id,
                    utf8::encode_utf8(name),
                    bytes::u32_at(file.footer, file.footer.len() - 4),
                    LAZY_FORMAT_VERSION,
                ),
            },
        ),
    }
}

/// A projection whose base segment and manifest are to be written.
#[derive(Debug)]
pub struct PreparedColumnarProjection {
    pub metadata: ColumnarProjectionMetadata,
    pub segment_id: ColumnarSegmentId,
    pub segment_file: String,
    /// What is written at the start of the segment's file.
    pub header: Vec<u8>,
    /// What is appended to the segment's file.
    pub tail: Vec<u8>,
    pub manifest: Vec<u8>,
}

/// Whether a prepared projection is as it must be, once `written` stands behind
/// the header.
pub open spec fn is_prepared(
    result: PreparedColumnarProjection,
    expected: PreparedView,
    written: Seq<u8>,
) -> bool {
    &&& result.metadata@ == expected.metadata
    &&& result.segment_id == expected.segment_id
    &&& result.segment_file@ == expected.segment_file
    &&& result.header@ == expected.file.header
    &&& written + result.tail@ == expected.file.payload + expected.file.footer
    &&& result.manifest@ == expected.manifest
}

/// Whether preparing ended as it must.
pub open spec fn prepares(
    result: Result<PreparedColumnarProjection, ColumnarError>,
    expected: Result<PreparedView, ColumnarError>,
) -> bool {
    match expected {
        Ok(view) => result is Ok && is_prepared(result->Ok_0, view, Seq::empty()),
        Err(error) => result == Err::<PreparedColumnarProjection, ColumnarError>(error),
    }
}

/// Completes a projection whose segment was made.
pub(crate) fn complete_base(
    identity: SegmentIdentity,
    token: StorageSnapshotToken,
    columns: Vec<ColumnarColumnSpec>,
    cursor: Option<ChangeStreamCursor>,
    finished: FinishedSegment,
    Ghost(order): Ghost<BaseOrder>,
    Ghost(file): Ghost<SegmentFile>,
    Ghost(written): Ghost<Seq<u8>>,
) -> (completed: Result<PreparedColumnarProjection, ColumnarError>)
    requires
        identity == order_identity(order),
        token == order.token,
        columns@ == order.columns,
        cursor == order.cursor,
        file.payload + file.footer == written + finished.tail@,
        finished.header@ == file.header,
        finished.row_group_count == file.groups.len(),
        finished.segment_bytes == writer::file_of(file).len(),
        finished.checksum == bytes::u32_at(file.footer, file.footer.len() - 4),
    ensures
        match prepared(order, file, finished.row_count) {
            Ok(view) => completed is Ok && is_prepared(completed->Ok_0, view, written),
            Err(error) => completed == Err::<PreparedColumnarProjection, ColumnarError>(error),
        },
{
    let incremental: Option<ColumnarIncrementalMetadata> = match cursor {
        None => None,
        Some(at) => Some(
            ColumnarIncrementalMetadata {
                stream_generation: at.generation,
                base_frontier: at.frontier,
                applied_frontier: at.frontier,
                delta_segments: Vec::new(),
                delta_mutation_count: 0,
                delta_live_row_count: 0,
                suppressed_version_count: 0,
                delta_bytes: 0,
            },
        ),
    };
    let known: ColumnarProjectionMetadata = ColumnarProjectionMetadata {
        id: identity.projection_id,
        generation: identity.generation,
        table_id: identity.table_id,
        source_storage_id: identity.storage_id,
        source_token: token,
        schema_fingerprint: identity.fingerprint,
        columns,
        row_count: finished.row_count,
        row_group_count: finished.row_group_count,
        segment_count: 1,
        segment_bytes: finished.segment_bytes,
        incremental,
    };
    assert(metadata::incremental_view(known.incremental) == order_incremental(cursor)) by {
        if let Some(at) = known.incremental {
            assert(metadata::deltas_view(at.delta_segments@) =~= Seq::empty());
        }
    }
    let segment_id: ColumnarSegmentId = identity.segment_id;
    let segment_file: String = metadata::segment_file_name(known.id, known.generation);
    let encoded: Vec<u8> = manifest::encode_manifest(
        &known,
        segment_id,
        segment_file.as_str(),
        finished.checksum,
    )?;
    Ok(
        PreparedColumnarProjection {
            metadata: known,
            segment_id,
            segment_file,
            header: finished.header,
            tail: finished.tail,
            manifest: encoded,
        },
    )
}

// ---------------------------------------------------------------------------
// Checks
// ---------------------------------------------------------------------------
/// Why a snapshot, or a place in a change stream, is not of a storage, if it is
/// not.
pub open spec fn source_error(
    storage_id: StorageId,
    token: StorageSnapshotToken,
    cursor: Option<ChangeStreamCursor>,
    mismatch: &'static str,
) -> Option<ColumnarError> {
    if token.storage_id != storage_id || (cursor is Some && cursor->0.storage_id != storage_id) {
        Some(ColumnarError::IdentityMismatch(mismatch))
    } else if cursor is Some && cursor->0.generation.0 == 0 {
        Some(ColumnarError::InvalidInput("zero change-stream generation"))
    } else {
        None
    }
}

/// How many rows a group has.
pub open spec fn group_size(row_group_rows: Option<usize>) -> usize {
    match row_group_rows {
        Some(rows) => rows,
        None => DEFAULT_ROW_GROUP_ROWS,
    }
}

/// Why groups cannot have so many rows, if they cannot.
pub open spec fn size_error(rows: usize) -> Option<ColumnarError> {
    if rows == 0 || rows > u32::MAX {
        Some(ColumnarError::InvalidInput("invalid row-group size"))
    } else {
        None
    }
}

fn check_source(
    storage_id: StorageId,
    token: StorageSnapshotToken,
    cursor: Option<ChangeStreamCursor>,
    mismatch: &'static str,
) -> (valid: Result<(), ColumnarError>)
    ensures
        match source_error(storage_id, token, cursor, mismatch) {
            Some(error) => valid == Err::<(), ColumnarError>(error),
            None => valid is Ok,
        },
{
    if token.storage_id != storage_id {
        return Err(ColumnarError::IdentityMismatch(mismatch));
    }
    if let Some(at) = cursor {
        if at.storage_id != storage_id {
            return Err(ColumnarError::IdentityMismatch(mismatch));
        }
        if at.generation.0 == 0 {
            return Err(ColumnarError::InvalidInput("zero change-stream generation"));
        }
    }
    Ok(())
}

fn check_size(row_group_rows: Option<usize>) -> (size: Result<usize, ColumnarError>)
    ensures
        match size_error(group_size(row_group_rows)) {
            Some(error) => size == Err::<usize, ColumnarError>(error),
            None => size == Ok::<usize, ColumnarError>(group_size(row_group_rows)),
        },
{
    let rows: usize = match row_group_rows {
        Some(rows) => rows,
        None => DEFAULT_ROW_GROUP_ROWS,
    };
    if rows == 0 || rows > u32::MAX as usize {
        return Err(ColumnarError::InvalidInput("invalid row-group size"));
    }
    Ok(rows)
}

/// The digest of a table's schema, or why it has none.
pub open spec fn fingerprint_of(table: TableDef) -> Result<SchemaFingerprint, ColumnarError> {
    match table.fingerprint {
        Ok(fingerprint) => Ok(fingerprint),
        Err(message) => Err(ColumnarError::Schema(message)),
    }
}

/// The digest of a table's schema, or why it has none.
pub fn table_fingerprint(table: &TableDef) -> (fingerprint: Result<SchemaFingerprint, ColumnarError>)
    ensures
        fingerprint == fingerprint_of(*table),
{
    match &table.fingerprint {
        Ok(fingerprint) => Ok(*fingerprint),
        Err(message) => Err(ColumnarError::Schema(message.clone())),
    }
}

/// The order for columns of a table.
pub open spec fn table_order(
    id: ColumnarProjectionId,
    generation: ColumnarGeneration,
    table: TableDef,
    storage_id: StorageId,
    token: StorageSnapshotToken,
    cursor: Option<ChangeStreamCursor>,
    columns: Seq<ColumnId>,
    row_group_rows: Option<usize>,
) -> BaseOrder {
    BaseOrder {
        id,
        generation,
        table_id: table.id,
        storage_id,
        token,
        fingerprint: table.fingerprint->Ok_0,
        columns: group::resolved(table.columns@, columns),
        cursor,
        group_rows: group_size(row_group_rows),
    }
}

// ---------------------------------------------------------------------------
// All rows at once
// ---------------------------------------------------------------------------
/// The rows of a snapshot as offers.
pub open spec fn snapshot_offers(width: nat, rows: Seq<Seq<ScalarView>>) -> Seq<Offer> {
    rows.map_values(
        |row: Seq<ScalarView>|
            Offer {
                lead: None,
                key: base::no_key(),
                duplicate: ColumnarError::InvalidInput(""),
                fault: feed::width_error(row, width),
                row,
            },
    )
}

/// The projection of rows that are all checked, and all made into groups, before
/// the first group is written.
pub open spec fn prepared_at_once(order: BaseOrder, table: TableDef, offers: Seq<Offer>) -> Result<
    PreparedView,
    ColumnarError,
> {
    let plan = order_plan(order);
    match gather::all_gathered(plan, offers) {
        Err(error) => Err(error),
        Ok(pieces) => match fingerprint_of(table) {
            Err(error) => Err(error),
            Ok(_) => match writer::segment_made(plan, pieces, offers.len() as u64) {
                Err(error) => Err(error),
                Ok(file) => prepared(order, file, offers.len() as u64),
            },
        },
    }
}

/// What `prepare` and `prepare_incremental` give.
pub open spec fn prepare_spec(
    order: BaseOrder,
    table: TableDef,
    columns: Seq<ColumnId>,
    mismatch: &'static str,
    offers: Seq<Offer>,
) -> Result<PreparedView, ColumnarError> {
    match source_error(order.storage_id, order.token, order.cursor, mismatch) {
        Some(error) => Err(error),
        None => match group::resolve_error(table.columns@, columns, columns.len() as int) {
            Some(error) => Err(error),
            None => match feed::first_refusal(
                order.cursor is Some,
                offers,
                offers.len() as int,
            ) {
                Some(error) => Err(error),
                None => match size_error(order.group_rows) {
                    Some(error) => Err(error),
                    None => prepared_at_once(order, table, offers),
                },
            },
        },
    }
}

proof fn lemma_no_refusal(versioned: bool, offers: Seq<Offer>, n: int, i: int)
    requires
        first_none(versioned, offers, n),
        0 <= i < n,
    ensures
        feed::refusal(versioned, offers, i) is None,
{
    if feed::first_refusal(versioned, offers, i + 1) is Some {
        feed::lemma_refusal_prefix(versioned, offers, i + 1, n);
    }
}

spec fn first_none(versioned: bool, offers: Seq<Offer>, n: int) -> bool {
    feed::first_refusal(versioned, offers, n) is None
}

fn check_widths(rows: &[Vec<ScalarValue>], width: usize) -> (valid: Result<(), ColumnarError>)
    ensures
        match feed::first_refusal(
            false,
            snapshot_offers(width as nat, vector::rows_view(rows@)),
            rows@.len() as int,
        ) {
            Some(error) => valid == Err::<(), ColumnarError>(error),
            None => valid is Ok,
        },
{
    let ghost offers = snapshot_offers(width as nat, vector::rows_view(rows@));
    let mut i: usize = 0;
    while i < rows.len()
        invariant
            i <= rows@.len(),
            offers == snapshot_offers(width as nat, vector::rows_view(rows@)),
            feed::first_refusal(false, offers, i as int) is None,
        decreases rows@.len() - i,
    {
        proof {
            assert(offers[i as int].row == value::row_view(rows@[i as int]@));
            if feed::first_refusal(false, offers, i + 1) is Some {
                feed::lemma_refusal_prefix(false, offers, i + 1, offers.len() as int);
            }
        }
        if rows[i].len() != width {
            return Err(ColumnarError::InvalidInput("row width differs from projection"));
        }
        i = i + 1;
    }
    Ok(())
}

fn gather_snapshot(
    columns: &[ColumnarColumnSpec],
    group_rows: usize,
    rows: &[Vec<ScalarValue>],
    Ghost(plan): Ghost<SegmentPlan>,
) -> (gatherer: Result<GroupGatherer, ColumnarError>)
    requires
        group_rows > 0,
        plan.columns == columns@,
        !plan.versioned,
        plan.group_rows == group_rows,
        first_none(
            false,
            snapshot_offers(columns@.len(), vector::rows_view(rows@)),
            rows@.len() as int,
        ),
    ensures
        match gather::all_gathered(
            plan,
            snapshot_offers(columns@.len(), vector::rows_view(rows@)),
        ) {
            Ok(pieces) => {
                &&& gatherer is Ok
                &&& gatherer->Ok_0.plan@ == plan
                &&& gather::groups_match(plan, gatherer->Ok_0.groups@, pieces)
                &&& gatherer->Ok_0.row_count == rows@.len()
            },
            Err(error) => gatherer == Err::<GroupGatherer, ColumnarError>(error),
        },
{
    let ghost offers = snapshot_offers(columns@.len(), vector::rows_view(rows@));
    let mut gatherer: GroupGatherer = GroupGatherer::new(
        Ghost(plan),
        metadata::copy_columns(columns),
        false,
        group_rows,
    );
    let mut i: usize = 0;
    while i < rows.len()
        invariant
            i <= rows@.len(),
            offers == snapshot_offers(columns@.len(), vector::rows_view(rows@)),
            !plan.versioned,
            first_none(false, offers, rows@.len() as int),
            gatherer.wf(),
            gatherer.plan@ == plan,
            gatherer.row_count == i,
            gather::gathered(plan, offers, i as int) == Ok::<(Seq<Piece>, Piece), ColumnarError>(
                (gatherer.pieces@, gatherer.pending()),
            ),
        decreases rows@.len() - i,
    {
        proof {
            lemma_no_refusal(false, offers, rows@.len() as int, i as int);
            assert(offers[i as int].row == value::row_view(rows@[i as int]@));
            if gather::gathered(plan, offers, i + 1) is Err {
                gather::lemma_gathered_prefix(plan, offers, i + 1, offers.len() as int);
            }
        }
        let copy: Vec<ScalarValue> = value::copy_row(rows[i].as_slice());
        gatherer.push(None, copy, "row count overflow")?;
        i = i + 1;
    }
    gatherer.end()?;
    Ok(gatherer)
}

fn gather_source(
    columns: &[ColumnarColumnSpec],
    group_rows: usize,
    rows: &[(StorageVersionKey, Vec<ScalarValue>)],
    Ghost(plan): Ghost<SegmentPlan>,
    Ghost(offers): Ghost<Seq<Offer>>,
) -> (gatherer: Result<GroupGatherer, ColumnarError>)
    requires
        group_rows > 0,
        plan.columns == columns@,
        plan.versioned,
        plan.group_rows == group_rows,
        offers == feed::source_offers(
            plan.identity.storage_id,
            plan.kind,
            columns@.len(),
            feed::rows_with_keys(rows@),
        ),
        first_none(true, offers, rows@.len() as int),
    ensures
        match gather::all_gathered(plan, offers) {
            Ok(pieces) => {
                &&& gatherer is Ok
                &&& gatherer->Ok_0.plan@ == plan
                &&& gather::groups_match(plan, gatherer->Ok_0.groups@, pieces)
                &&& gatherer->Ok_0.row_count == rows@.len()
            },
            Err(error) => gatherer == Err::<GroupGatherer, ColumnarError>(error),
        },
{
    let mut gatherer: GroupGatherer = GroupGatherer::new(
        Ghost(plan),
        metadata::copy_columns(columns),
        true,
        group_rows,
    );
    let mut i: usize = 0;
    while i < rows.len()
        invariant
            i <= rows@.len(),
            offers == feed::source_offers(
                plan.identity.storage_id,
                plan.kind,
                columns@.len(),
                feed::rows_with_keys(rows@),
            ),
            plan.versioned,
            first_none(true, offers, rows@.len() as int),
            gatherer.wf(),
            gatherer.plan@ == plan,
            gatherer.row_count == i,
            gather::gathered(plan, offers, i as int) == Ok::<(Seq<Piece>, Piece), ColumnarError>(
                (gatherer.pieces@, gatherer.pending()),
            ),
        decreases rows@.len() - i,
    {
        proof {
            lemma_no_refusal(true, offers, rows@.len() as int, i as int);
            assert(offers[i as int].row == value::row_view(rows@[i as int].1@));
            assert(offers[i as int].key == rows@[i as int].0);
            if gather::gathered(plan, offers, i + 1) is Err {
                gather::lemma_gathered_prefix(plan, offers, i + 1, offers.len() as int);
            }
        }
        let copy: Vec<ScalarValue> = value::copy_row(rows[i].1.as_slice());
        gatherer.push(Some(rows[i].0), copy, "row count overflow")?;
        i = i + 1;
    }
    gatherer.end()?;
    Ok(gatherer)
}

/// Completes a projection whose groups were gathered.
pub(crate) fn complete_gathered(
    identity: SegmentIdentity,
    token: StorageSnapshotToken,
    columns: Vec<ColumnarColumnSpec>,
    cursor: Option<ChangeStreamCursor>,
    gatherer: GroupGatherer,
    Ghost(order): Ghost<BaseOrder>,
    Ghost(pieces): Ghost<Seq<Piece>>,
) -> (completed: Result<PreparedColumnarProjection, ColumnarError>)
    requires
        identity == order_identity(order),
        token == order.token,
        columns@ == order.columns,
        cursor == order.cursor,
        gather::groups_match(order_plan(order), gatherer.groups@, pieces),
    ensures
        prepares(
            completed,
            match writer::segment_made(order_plan(order), pieces, gatherer.row_count) {
                Err(error) => Err(error),
                Ok(file) => prepared(order, file, gatherer.row_count),
            },
        ),
{
    let ghost plan = order_plan(order);
    let finished: FinishedSegment = gather::encode_lazy_segment(
        &identity,
        token.kind,
        columns.as_slice(),
        gatherer.groups.as_slice(),
        cursor.is_some(),
        gatherer.row_count,
        Ghost(plan),
        Ghost(pieces),
    )?;
    let ghost file = writer::segment_made(plan, pieces, gatherer.row_count)->Ok_0;
    let ghost none = Seq::<u8>::empty();
    assert(none + finished.tail@ =~= finished.tail@);
    complete_base(
        identity,
        token,
        columns,
        cursor,
        finished,
        Ghost(order),
        Ghost(file),
        Ghost(none),
    )
}

/// Prepares a snapshot projection of rows.
pub fn prepare(
    id: ColumnarProjectionId,
    generation: ColumnarGeneration,
    table: &TableDef,
    source_storage_id: StorageId,
    source_token: StorageSnapshotToken,
    columns: &[ColumnId],
    rows: &[Vec<ScalarValue>],
    row_group_rows: Option<usize>,
) -> (completed: Result<PreparedColumnarProjection, ColumnarError>)
    ensures
        prepares(
            completed,
            prepare_spec(
                table_order(
                    id,
                    generation,
                    *table,
                    source_storage_id,
                    source_token,
                    None,
                    columns@,
                    row_group_rows,
                ),
                *table,
                columns@,
                "snapshot storage",
                snapshot_offers(columns@.len(), vector::rows_view(rows@)),
            ),
        ),
{
    let ghost order = table_order(
        id,
        generation,
        *table,
        source_storage_id,
        source_token,
        None,
        columns@,
        row_group_rows,
    );
    let ghost plan = order_plan(order);
    let ghost offers = snapshot_offers(columns@.len(), vector::rows_view(rows@));
    check_source(source_storage_id, source_token, None, "snapshot storage")?;
    let specs: Vec<ColumnarColumnSpec> = group::resolve_columns(table, columns)?;
    check_widths(rows, specs.len())?;
    let group_rows: usize = check_size(row_group_rows)?;
    let gatherer: GroupGatherer = gather_snapshot(
        specs.as_slice(),
        group_rows,
        rows,
        Ghost(plan),
    )?;
    let ghost pieces = gather::all_gathered(plan, offers)->Ok_0;
    let fingerprint: SchemaFingerprint = table_fingerprint(table)?;
    let identity: SegmentIdentity = SegmentIdentity {
        projection_id: id,
        generation,
        segment_id: ColumnarSegmentId(generation.0),
        table_id: table.id,
        storage_id: source_storage_id,
        fingerprint,
    };
    complete_gathered(
        identity,
        source_token,
        specs,
        None,
        gatherer,
        Ghost(order),
        Ghost(pieces),
    )
}

/// Prepares an incremental projection of rows and their versions, which are those
/// at a place in a change stream.
pub fn prepare_incremental(
    id: ColumnarProjectionId,
    generation: ColumnarGeneration,
    table: &TableDef,
    source_storage_id: StorageId,
    source_token: StorageSnapshotToken,
    cursor: ChangeStreamCursor,
    columns: &[ColumnId],
    rows: &[(StorageVersionKey, Vec<ScalarValue>)],
    row_group_rows: Option<usize>,
) -> (completed: Result<PreparedColumnarProjection, ColumnarError>)
    ensures
        prepares(
            completed,
            prepare_spec(
                table_order(
                    id,
                    generation,
                    *table,
                    source_storage_id,
                    source_token,
                    Some(cursor),
                    columns@,
                    row_group_rows,
                ),
                *table,
                columns@,
                "incremental source storage",
                feed::source_offers(
                    source_storage_id,
                    source_token.kind,
                    columns@.len(),
                    feed::rows_with_keys(rows@),
                ),
            ),
        ),
{
    let ghost order = table_order(
        id,
        generation,
        *table,
        source_storage_id,
        source_token,
        Some(cursor),
        columns@,
        row_group_rows,
    );
    let ghost plan = order_plan(order);
    let ghost offers = feed::source_offers(
        source_storage_id,
        source_token.kind,
        columns@.len(),
        feed::rows_with_keys(rows@),
    );
    check_source(source_storage_id, source_token, Some(cursor), "incremental source storage")?;
    let specs: Vec<ColumnarColumnSpec> = group::resolve_columns(table, columns)?;
    feed::validate_versioned_rows(source_storage_id, source_token.kind, specs.len(), rows)?;
    let group_rows: usize = check_size(row_group_rows)?;
    let gatherer: GroupGatherer = gather_source(
        specs.as_slice(),
        group_rows,
        rows,
        Ghost(plan),
        Ghost(offers),
    )?;
    let ghost pieces = gather::all_gathered(plan, offers)->Ok_0;
    let fingerprint: SchemaFingerprint = table_fingerprint(table)?;
    let identity: SegmentIdentity = SegmentIdentity {
        projection_id: id,
        generation,
        segment_id: ColumnarSegmentId(generation.0),
        table_id: table.id,
        storage_id: source_storage_id,
        fingerprint,
    };
    complete_gathered(
        identity,
        source_token,
        specs,
        Some(cursor),
        gatherer,
        Ghost(order),
        Ghost(pieces),
    )
}

// ---------------------------------------------------------------------------
// Row by row
// ---------------------------------------------------------------------------
/// Why a projection cannot be prepared row by row, if it cannot.
pub open spec fn stream_error(
    order: BaseOrder,
    table: TableDef,
    columns: Seq<ColumnId>,
    mismatch: &'static str,
) -> Option<ColumnarError> {
    match source_error(order.storage_id, order.token, order.cursor, mismatch) {
        Some(error) => Some(error),
        None => match group::resolve_error(table.columns@, columns, columns.len() as int) {
            Some(error) => Some(error),
            None => match size_error(order.group_rows) {
                Some(error) => Some(error),
                None => match fingerprint_of(table) {
                    Err(error) => Some(error),
                    Ok(_) => None,
                },
            },
        },
    }
}

/// The projection of offered rows.
pub open spec fn prepared_by_row(order: BaseOrder, offers: Seq<Offer>) -> Result<
    PreparedView,
    ColumnarError,
> {
    match base::segment_built(order_plan(order), offers) {
        Err(error) => Err(error),
        Ok(file) => prepared(order, file, offers.len() as u64),
    }
}

/// A projection that is being prepared row by row. The caller leaves room for the
/// header, and appends what `push` and `finish` give to the segment's file.
pub struct StreamingProjection {
    pub builder: BaseBuilder,
    pub token: StorageSnapshotToken,
    pub cursor: Option<ChangeStreamCursor>,
}

impl StreamingProjection {
    /// What the projection is prepared for.
    pub open spec fn order(&self) -> BaseOrder {
        let plan = self.builder.plan();
        BaseOrder {
            id: plan.identity.projection_id,
            generation: plan.identity.generation,
            table_id: plan.identity.table_id,
            storage_id: plan.identity.storage_id,
            token: self.token,
            fingerprint: plan.identity.fingerprint,
            columns: plan.columns,
            cursor: self.cursor,
            group_rows: plan.group_rows,
        }
    }

    /// The rows that were offered.
    pub open spec fn offers(&self) -> Seq<Offer> {
        self.builder.offers@
    }

    /// Whether the segment is what the offers make so far.
    pub open spec fn wf(&self) -> bool {
        &&& self.builder.wf()
        &&& self.builder.plan() == order_plan(self.order())
        &&& self.builder.writer.overflow == "row count overflow"
    }

    /// Starts a projection, of a snapshot or at a place in a change stream.
    pub fn start(
        id: ColumnarProjectionId,
        generation: ColumnarGeneration,
        table: &TableDef,
        source_storage_id: StorageId,
        source_token: StorageSnapshotToken,
        cursor: Option<ChangeStreamCursor>,
        columns: &[ColumnId],
        row_group_rows: Option<usize>,
    ) -> (started: Result<Self, ColumnarError>)
        ensures
            ({
                let order = table_order(
                    id,
                    generation,
                    *table,
                    source_storage_id,
                    source_token,
                    cursor,
                    columns@,
                    row_group_rows,
                );
                match stream_error(order, *table, columns@, stream_mismatch(cursor)) {
                    Some(error) => started == Err::<Self, ColumnarError>(error),
                    None => {
                        &&& started is Ok
                        &&& started->Ok_0.wf()
                        &&& started->Ok_0.order() == order
                        &&& started->Ok_0.offers() == Seq::<Offer>::empty()
                        &&& started->Ok_0.builder.written() == Seq::<u8>::empty()
                    },
                }
            }),
    {
        let mismatch: &'static str = match cursor {
            Some(_) => "incremental snapshot storage",
            None => "snapshot storage",
        };
        check_source(source_storage_id, source_token, cursor, mismatch)?;
        let specs: Vec<ColumnarColumnSpec> = group::resolve_columns(table, columns)?;
        let group_rows: usize = check_size(row_group_rows)?;
        let fingerprint: SchemaFingerprint = table_fingerprint(table)?;
        let identity: SegmentIdentity = SegmentIdentity {
            projection_id: id,
            generation,
            segment_id: ColumnarSegmentId(generation.0),
            table_id: table.id,
            storage_id: source_storage_id,
            fingerprint,
        };
        let builder: BaseBuilder = BaseBuilder::new(
            identity,
            source_token.kind,
            specs,
            cursor.is_some(),
            group_rows,
            "row count overflow",
        );
        Ok(StreamingProjection { builder, token: source_token, cursor })
    }

    /// Adds a row, with its version where the projection follows a change stream,
    /// and gives what is appended to the segment's file.
    pub fn push(&mut self, key: Option<StorageVersionKey>, row: Vec<ScalarValue>) -> (pushed:
        Result<Vec<u8>, ColumnarError>)
        requires
            old(self).wf(),
            key is Some <==> old(self).cursor is Some,
        ensures
            ({
                let order = old(self).order();
                let grown = old(self).offers().push(
                    stream_offer(order, key, value::row_view(row@)),
                );
                let n = old(self).offers().len() as int;
                if feed::refusal(order.cursor is Some, grown, n) is None && n == u64::MAX {
                    pushed == Err::<Vec<u8>, ColumnarError>(
                        ColumnarError::InvalidInput("row count overflow"),
                    )
                } else {
                    match base::built(order_plan(order), grown, n + 1) {
                        Ok(_) => {
                            &&& pushed is Ok
                            &&& final(self).wf()
                            &&& final(self).order() == order
                            &&& final(self).offers() == grown
                            &&& final(self).builder.written() == old(self).builder.written()
                                + pushed->Ok_0@
                        },
                        Err(error) => pushed == Err::<Vec<u8>, ColumnarError>(error),
                    }
                }
            }),
    {
        let lead: Option<ColumnarError> = match key {
            Some(known) => match super::version::validate_version_key(
                known,
                self.builder.writer.identity.storage_id,
                self.token.kind,
            ) {
                Ok(_) => None,
                Err(error) => Some(error),
            },
            None => None,
        };
        let fault: Option<ColumnarError> = if row.len() != self.builder.writer.columns.len() {
            Some(ColumnarError::InvalidInput("row width differs from projection"))
        } else {
            None
        };
        let duplicate: ColumnarError = match key {
            Some(_) => ColumnarError::InvalidInput("duplicate base source version"),
            None => ColumnarError::InvalidInput(""),
        };
        self.builder.offer(lead, key, duplicate, fault, row)
    }

    /// Completes the projection.
    pub fn finish(self) -> (completed: Result<PreparedColumnarProjection, ColumnarError>)
        requires
            self.wf(),
        ensures
            match prepared_by_row(self.order(), self.offers()) {
                Ok(view) => completed is Ok && is_prepared(
                    completed->Ok_0,
                    view,
                    self.builder.written(),
                ),
                Err(error) => completed == Err::<PreparedColumnarProjection, ColumnarError>(error),
            },
    {
        let ghost order = self.order();
        let ghost plan = self.builder.plan();
        let ghost offers = self.offers();
        let ghost written = self.builder.written();
        let identity: SegmentIdentity = self.builder.writer.identity;
        let token: StorageSnapshotToken = self.token;
        let cursor: Option<ChangeStreamCursor> = self.cursor;
        let columns: Vec<ColumnarColumnSpec> = metadata::copy_columns(
            self.builder.writer.columns.as_slice(),
        );
        let finished: FinishedSegment = self.builder.finish()?;
        let ghost file = base::segment_built(plan, offers)->Ok_0;
        complete_base(
            identity,
            token,
            columns,
            cursor,
            finished,
            Ghost(order),
            Ghost(file),
            Ghost(written),
        )
    }
}

/// What a snapshot that is not of the storage is refused with.
pub open spec fn stream_mismatch(cursor: Option<ChangeStreamCursor>) -> &'static str {
    match cursor {
        Some(_) => "incremental snapshot storage",
        None => "snapshot storage",
    }
}

/// A row as an offer to an order.
pub open spec fn stream_offer(
    order: BaseOrder,
    key: Option<StorageVersionKey>,
    row: Seq<ScalarView>,
) -> Offer {
    match key {
        Some(known) => feed::source_offer(
            order.storage_id,
            order.token.kind,
            order.columns.len(),
            known,
            row,
        ),
        None => Offer {
            lead: None,
            key: base::no_key(),
            duplicate: ColumnarError::InvalidInput(""),
            fault: feed::width_error(row, order.columns.len()),
            row,
        },
    }
}

/// What preparing row by row gives.
pub open spec fn stream_spec(
    order: BaseOrder,
    table: TableDef,
    columns: Seq<ColumnId>,
    offers: Seq<Offer>,
) -> Result<PreparedView, ColumnarError> {
    match stream_error(order, table, columns, stream_mismatch(order.cursor)) {
        Some(error) => Err(error),
        None => prepared_by_row(order, offers),
    }
}

proof fn lemma_stop(order: BaseOrder, offers: Seq<Offer>, n: int)
    requires
        0 <= n <= offers.len(),
        base::built(order_plan(order), offers, n) is Err,
    ensures
        prepared_by_row(order, offers) == Err::<PreparedView, ColumnarError>(
            base::built(order_plan(order), offers, n)->Err_0,
        ),
{
    base::lemma_built_prefix(order_plan(order), offers, n, offers.len() as int);
}

/// Prepares a snapshot projection, with one group of rows in memory besides the
/// bytes.
pub fn prepare_streaming(
    id: ColumnarProjectionId,
    generation: ColumnarGeneration,
    table: &TableDef,
    source_storage_id: StorageId,
    source_token: StorageSnapshotToken,
    columns: &[ColumnId],
    rows: Vec<Vec<ScalarValue>>,
    row_group_rows: Option<usize>,
) -> (completed: Result<PreparedColumnarProjection, ColumnarError>)
    ensures
        prepares(
            completed,
            stream_spec(
                table_order(
                    id,
                    generation,
                    *table,
                    source_storage_id,
                    source_token,
                    None,
                    columns@,
                    row_group_rows,
                ),
                *table,
                columns@,
                snapshot_offers(columns@.len(), vector::rows_view(rows@)),
            ),
        ),
{
    let mut stream: StreamingProjection = StreamingProjection::start(
        id,
        generation,
        table,
        source_storage_id,
        source_token,
        None,
        columns,
        row_group_rows,
    )?;
    let ghost order = stream.order();
    let ghost plan = order_plan(order);
    let ghost offers = snapshot_offers(columns@.len(), vector::rows_view(rows@));
    let ghost expected = stream_spec(order, *table, columns@, offers);
    let mut output: Vec<u8> = Vec::new();
    let mut i: usize = 0;
    assert(offers.take(0) =~= Seq::empty());
    while i < rows.len()
        invariant
            i <= rows@.len(),
            offers == snapshot_offers(columns@.len(), vector::rows_view(rows@)),
            stream.wf(),
            stream.order() == order,
            plan == order_plan(order),
            order.columns.len() == columns@.len(),
            order.cursor is None,
            stream.offers() == offers.take(i as int),
            expected == prepared_by_row(order, offers),
            expected == stream_spec(
                table_order(
                    id,
                    generation,
                    *table,
                    source_storage_id,
                    source_token,
                    None,
                    columns@,
                    row_group_rows,
                ),
                *table,
                columns@,
                offers,
            ),
            output@ == stream.builder.written(),
        decreases rows@.len() - i,
    {
        let copy: Vec<ScalarValue> = value::copy_row(rows[i].as_slice());
        proof {
            let grown = offers.take(i + 1);
            assert(offers[i as int].row == value::row_view(rows@[i as int]@));
            assert(grown =~= offers.take(i as int).push(
                stream_offer(order, None, value::row_view(copy@)),
            ));
            base::lemma_built_same(plan, grown, offers, i + 1);
            if base::built(plan, grown, i + 1) is Err {
                lemma_stop(order, offers, i + 1);
            }
        }
        let appended: Vec<u8> = stream.push(None, copy)?;
        bytes::push_bytes(&mut output, appended.as_slice());
        i = i + 1;
    }
    assert(offers.take(offers.len() as int) =~= offers);
    let completed: PreparedColumnarProjection = stream.finish()?;
    Ok(with_output(completed, output))
}

/// A prepared projection with what was given out before.
pub(crate) fn with_output(completed: PreparedColumnarProjection, output: Vec<u8>) -> (whole:
    PreparedColumnarProjection)
    ensures
        whole.tail@ == output@ + completed.tail@,
        whole.metadata == completed.metadata,
        whole.segment_id == completed.segment_id,
        whole.segment_file == completed.segment_file,
        whole.header == completed.header,
        whole.manifest == completed.manifest,
        Seq::<u8>::empty() + whole.tail@ == output@ + completed.tail@,
{
    let mut tail: Vec<u8> = output;
    bytes::push_bytes(&mut tail, completed.tail.as_slice());
    assert(Seq::<u8>::empty() + tail@ =~= tail@);
    PreparedColumnarProjection {
        metadata: completed.metadata,
        segment_id: completed.segment_id,
        segment_file: completed.segment_file,
        header: completed.header,
        tail,
        manifest: completed.manifest,
    }
}

/// Prepares an incremental projection, with one group of rows in memory besides
/// the bytes and the versions.
pub fn prepare_incremental_streaming(
    id: ColumnarProjectionId,
    generation: ColumnarGeneration,
    table: &TableDef,
    source_storage_id: StorageId,
    source_token: StorageSnapshotToken,
    cursor: ChangeStreamCursor,
    columns: &[ColumnId],
    rows: Vec<(StorageVersionKey, Vec<ScalarValue>)>,
    row_group_rows: Option<usize>,
) -> (completed: Result<PreparedColumnarProjection, ColumnarError>)
    ensures
        prepares(
            completed,
            stream_spec(
                table_order(
                    id,
                    generation,
                    *table,
                    source_storage_id,
                    source_token,
                    Some(cursor),
                    columns@,
                    row_group_rows,
                ),
                *table,
                columns@,
                feed::source_offers(
                    source_storage_id,
                    source_token.kind,
                    columns@.len(),
                    feed::rows_with_keys(rows@),
                ),
            ),
        ),
{
    let mut stream: StreamingProjection = StreamingProjection::start(
        id,
        generation,
        table,
        source_storage_id,
        source_token,
        Some(cursor),
        columns,
        row_group_rows,
    )?;
    let ghost order = stream.order();
    let ghost plan = order_plan(order);
    let ghost offers = feed::source_offers(
        source_storage_id,
        source_token.kind,
        columns@.len(),
        feed::rows_with_keys(rows@),
    );
    let ghost expected = stream_spec(order, *table, columns@, offers);
    let mut output: Vec<u8> = Vec::new();
    let mut i: usize = 0;
    assert(offers.take(0) =~= Seq::empty());
    while i < rows.len()
        invariant
            i <= rows@.len(),
            offers == feed::source_offers(
                source_storage_id,
                source_token.kind,
                columns@.len(),
                feed::rows_with_keys(rows@),
            ),
            stream.wf(),
            stream.order() == order,
            plan == order_plan(order),
            order.columns.len() == columns@.len(),
            order.storage_id == source_storage_id,
            order.token == source_token,
            order.cursor is Some,
            stream.offers() == offers.take(i as int),
            expected == prepared_by_row(order, offers),
            expected == stream_spec(
                table_order(
                    id,
                    generation,
                    *table,
                    source_storage_id,
                    source_token,
                    Some(cursor),
                    columns@,
                    row_group_rows,
                ),
                *table,
                columns@,
                offers,
            ),
            output@ == stream.builder.written(),
        decreases rows@.len() - i,
    {
        let copy: Vec<ScalarValue> = value::copy_row(rows[i].1.as_slice());
        let key: StorageVersionKey = rows[i].0;
        proof {
            let grown = offers.take(i + 1);
            assert(offers[i as int].row == value::row_view(rows@[i as int].1@));
            assert(offers[i as int].key == key);
            assert(grown =~= offers.take(i as int).push(
                stream_offer(order, Some(key), value::row_view(copy@)),
            ));
            base::lemma_built_same(plan, grown, offers, i + 1);
            if base::built(plan, grown, i + 1) is Err {
                lemma_stop(order, offers, i + 1);
            }
        }
        let appended: Vec<u8> = stream.push(Some(key), copy)?;
        bytes::push_bytes(&mut output, appended.as_slice());
        i = i + 1;
    }
    assert(offers.take(offers.len() as int) =~= offers);
    let completed: PreparedColumnarProjection = stream.finish()?;
    Ok(with_output(completed, output))
}

} // verus!
