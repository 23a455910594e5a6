//! Columnar projections over files in memory.
use netbadb_storage::change_stream::log::CHANGE_LOG_MAX_MUTATIONS;
use netbadb_storage::change_stream::stream::ChangeStreamCursor;
use netbadb_storage::change_stream::{StorageChange, StorageVersionKey};
use netbadb_storage::columnar::advance::PreparedColumnarAdvance;
use netbadb_storage::columnar::block::{BlockRef, LazyRowGroup};
use netbadb_storage::columnar::chunk::decode_vector_data;
use netbadb_storage::columnar::delta::{decode_delta, encode_delta};
use netbadb_storage::columnar::group::{
    encode_row_group, encode_versioned_row_group, resolve_columns, ColumnDef, ColumnarBatch,
    RowGroup, TableDef,
};
use netbadb_storage::columnar::lazy_compact::{plan_added, plan_group};
use netbadb_storage::columnar::lazy_delta::{decode_lazy_delta_header, LAZY_DELTA_HEADER_BYTES};
use netbadb_storage::columnar::lazy_segment::{
    decode_lazy_segment_header, FooterRange, LAZY_SEGMENT_HEADER_BYTES,
};
use netbadb_storage::columnar::manifest::{
    decode_manifest, encode_manifest_version, Manifest, MAX_COLUMNS,
};
use netbadb_storage::columnar::metadata::{
    ColumnarDeltaSegmentMetadata, ColumnarIncrementalMetadata, ColumnarProjectionMetadata,
    SegmentIdentity, INCREMENTAL_FORMAT_VERSION, MANIFEST_FILE, SNAPSHOT_FORMAT_VERSION,
};
use netbadb_storage::columnar::open::{
    check_file_size, is_indexed, open_eager, open_lazy, open_lazy_delta, open_lazy_segment, open_manifest,
    FileBytes, FileParts,
};
use netbadb_storage::columnar::payload::{BlockRequest, Fetched};
use netbadb_storage::columnar::prepare::{PreparedColumnarProjection, StreamingProjection};
use netbadb_storage::columnar::project::{project_change_batches, RowBatch};
use netbadb_storage::columnar::projection::ColumnarProjection;
use netbadb_storage::columnar::ranges::validate_block_ranges;
use netbadb_storage::columnar::reader::{append_checksum, stored_checksum};
use netbadb_storage::columnar::scan::ColumnarScanStatistics;
use netbadb_storage::columnar::segment::{decode_segment, encode_segment};
use netbadb_storage::columnar::select::select_vector_rows;
use netbadb_storage::columnar::statistics::ColumnarConstraint;
use netbadb_storage::columnar::vector::ColumnarVector;
use netbadb_storage::columnar::version::StorageSnapshotToken;
use netbadb_storage::columnar::ColumnarError;
use netbadb_storage::ids::{
    ChangeStreamGeneration, ColumnId, ColumnarGeneration, ColumnarProjectionId,
    ColumnarSegmentId, LsmCommitSeq, LsmRowId, PageId, RowId, SchemaFingerprint,
    StorageDataVersion, StorageId, TableId,
};
use netbadb_storage::value::{PhysicalType, ScalarValue};
use std::collections::BTreeMap;

// ---------------------------------------------------------------------------
// Files
// ---------------------------------------------------------------------------
#[derive(Clone, Default)]
struct Directory {
    files: BTreeMap<String, Vec<u8>>,
}

fn missing() -> ColumnarError {
    ColumnarError::Io(String::from("not found"))
}

impl Directory {
    fn read(&self, name: &str) -> FileBytes {
        self.files.get(name).cloned().ok_or_else(missing)
    }

    fn install(&mut self, prepared: &PreparedColumnarProjection) {
        let mut segment = prepared.header.clone();
        segment.extend_from_slice(&prepared.tail);
        self.files.insert(prepared.segment_file.clone(), segment);
    }

    fn publish(&mut self, prepared: &PreparedColumnarProjection) {
        self.install(prepared);
        self.files.insert(String::from(MANIFEST_FILE), prepared.manifest.clone());
    }

    fn publish_advance(&mut self, prepared: &PreparedColumnarAdvance) {
        self.files.insert(prepared.delta_file.clone(), prepared.delta.clone());
        self.files.insert(String::from(MANIFEST_FILE), prepared.manifest.clone());
    }

    fn base_parts(&self, known: &Manifest) -> FileParts {
        match self.files.get(&known.segment_file) {
            None => absent(),
            Some(bytes) => parts(bytes, LAZY_SEGMENT_HEADER_BYTES, |header| {
                decode_lazy_segment_header(
                    header,
                    &known.metadata,
                    known.segment_id,
                    known.segment_checksum,
                    bytes.len() as u64,
                )
                .ok()
            }),
        }
    }

    fn delta_parts(
        &self,
        metadata: &ColumnarProjectionMetadata,
        expected: &ColumnarDeltaSegmentMetadata,
    ) -> FileParts {
        match self.files.get(&expected.file) {
            None => absent(),
            Some(bytes) => delta_parts(bytes, metadata, expected),
        }
    }

    fn open(&self, table: &TableDef) -> Result<ColumnarProjection, ColumnarError> {
        let bytes = self.read(MANIFEST_FILE)?;
        let fingerprint = table.fingerprint.clone().expect("fingerprint");
        let known = open_manifest(&bytes, Some(table.id), Some(fingerprint))?;
        let segments: Vec<ColumnarDeltaSegmentMetadata> = known
            .metadata
            .incremental
            .as_ref()
            .map(|incremental| incremental.delta_segments.clone())
            .unwrap_or_default();
        let mut paths = vec![known.segment_file.clone()];
        paths.extend(segments.iter().map(|delta| delta.file.clone()));
        if is_indexed(&known) {
            let base = self.base_parts(&known);
            let deltas =
                segments.iter().map(|delta| self.delta_parts(&known.metadata, delta)).collect();
            open_lazy(known, bytes.len() as u64, base, deltas, paths)
        } else {
            let base = self.read(&known.segment_file);
            let deltas = segments.iter().map(|delta| self.read(&delta.file)).collect();
            open_eager(known, base, deltas, paths)
        }
    }

    fn fetch(&self, projection: &ColumnarProjection, requests: &[BlockRequest]) -> Vec<Fetched> {
        let Some(lazy) = &projection.lazy else { return Vec::new() };
        requests
            .iter()
            .map(|request| {
                let bytes = &self.files[&lazy.paths[request.file]];
                let start = request.block.offset as usize;
                let end = start + request.block.length as usize;
                bytes
                    .get(start..end)
                    .map(<[u8]>::to_vec)
                    .ok_or_else(|| String::from("unexpected end of file"))
            })
            .collect()
    }

    fn scan(
        &self,
        projection: &ColumnarProjection,
        columns: &[ColumnId],
        constraints: &[ColumnarConstraint],
    ) -> Result<(Vec<ColumnarBatch>, ColumnarScanStatistics), ColumnarError> {
        let blocks = self.fetch(projection, &projection.plan_scan(columns, constraints));
        projection.scan(columns, constraints, &blocks)
    }

    fn advance(
        &self,
        projection: &ColumnarProjection,
        table: &TableDef,
        batches: &[RowBatch],
    ) -> Result<PreparedColumnarAdvance, ColumnarError> {
        projection.prepare_advance(table, batches, &self.read(MANIFEST_FILE))
    }

    fn compact(
        &self,
        projection: &ColumnarProjection,
        table: &TableDef,
        generation: u64,
    ) -> Result<PreparedColumnarProjection, ColumnarError> {
        let mut base: Vec<Vec<Fetched>> = Vec::new();
        let mut added: Vec<Vec<Fetched>> = Vec::new();
        if let Some(lazy) = &projection.lazy {
            for place in 0..lazy.base_groups.len() {
                base.push(self.fetch(projection, &plan_group(lazy, place)));
            }
            for place in 0..lazy.overlay.live_rows.len() {
                added.push(self.fetch(projection, &plan_added(lazy, place)));
            }
        }
        projection.prepare_compaction(table, ColumnarGeneration(generation), &base, &added)
    }
}

fn absent() -> FileParts {
    FileParts { file_bytes: Err(missing()), header: Err(missing()), footer: Err(missing()) }
}

fn parts(
    bytes: &[u8],
    header_bytes: u64,
    locate: impl Fn(&[u8]) -> Option<FooterRange>,
) -> FileParts {
    let length = bytes.len().min(header_bytes as usize);
    let header = bytes[..length].to_vec();
    let footer = match locate(&header) {
        Some(range) => bytes[range.offset as usize..(range.offset + range.length) as usize].to_vec(),
        None => Vec::new(),
    };
    FileParts { file_bytes: Ok(bytes.len() as u64), header: Ok(header), footer: Ok(footer) }
}

fn delta_parts(
    bytes: &[u8],
    metadata: &ColumnarProjectionMetadata,
    expected: &ColumnarDeltaSegmentMetadata,
) -> FileParts {
    parts(bytes, LAZY_DELTA_HEADER_BYTES, |header| {
        decode_lazy_delta_header(header, metadata, expected, bytes.len() as u64)
            .ok()
            .map(|totals| totals.footer)
    })
}

fn rewrite_checksum(bytes: &mut [u8]) {
    let payload_length = bytes.len() - 4;
    let checksum = crc32c::crc32c(&bytes[..payload_length]);
    bytes[payload_length..].copy_from_slice(&checksum.to_le_bytes());
}

fn replace_u16(bytes: &mut [u8], offset: usize, value: u16) {
    bytes[offset..offset + 2].copy_from_slice(&value.to_le_bytes());
    rewrite_checksum(bytes);
}

fn replace_u64(bytes: &mut [u8], offset: usize, value: u64) {
    bytes[offset..offset + 8].copy_from_slice(&value.to_le_bytes());
    rewrite_checksum(bytes);
}

// ---------------------------------------------------------------------------
// Tables and rows
// ---------------------------------------------------------------------------
fn fingerprint() -> SchemaFingerprint {
    SchemaFingerprint::from_bytes([0x33; 32])
}

fn column(id: u32, physical: PhysicalType, nullable: bool) -> ColumnDef {
    ColumnDef { id: ColumnId(id), physical, nullable }
}

fn table() -> TableDef {
    TableDef {
        id: TableId(7),
        columns: vec![
            column(1, PhysicalType::Int64, false),
            column(2, PhysicalType::UInt64, false),
            column(3, PhysicalType::Bool, true),
            column(4, PhysicalType::Text, true),
        ],
        fingerprint: Ok(fingerprint()),
    }
}

fn text(value: &str) -> ScalarValue {
    ScalarValue::Text(String::from(value))
}

fn row(signed: i64, unsigned: u64, flag: Option<bool>, label: Option<&str>) -> Vec<ScalarValue> {
    vec![
        ScalarValue::Int64(signed),
        ScalarValue::UInt64(unsigned),
        flag.map_or(ScalarValue::Null, ScalarValue::Bool),
        label.map_or(ScalarValue::Null, text),
    ]
}

fn rows() -> Vec<Vec<ScalarValue>> {
    vec![
        row(-3, 1, Some(true), Some("alpha")),
        row(4, 2, None, None),
        row(9, 3, Some(false), Some("omega")),
    ]
}

fn batch_rows(batches: &[ColumnarBatch]) -> Vec<Vec<ScalarValue>> {
    batches
        .iter()
        .flat_map(|batch| {
            (0..batch.row_count).map(|row| {
                batch
                    .columns
                    .iter()
                    .map(|column| column.values.value(row).expect("batch value"))
                    .collect()
            })
        })
        .collect()
}

fn first_values(batches: &[ColumnarBatch]) -> Vec<ScalarValue> {
    batch_rows(batches).into_iter().map(|row| row[0].clone()).collect()
}

fn heap_key(storage_id: StorageId, page: u64, slot: u16) -> StorageVersionKey {
    StorageVersionKey::Heap {
        storage_id,
        row_id: RowId { page: PageId(page), slot, generation: 1 },
    }
}

fn lsm_key(storage_id: StorageId, row: u64, version: u64) -> StorageVersionKey {
    StorageVersionKey::Lsm { storage_id, row_id: LsmRowId(row), version: LsmCommitSeq(version) }
}

fn versioned(storage_id: StorageId, page: u64) -> Vec<(StorageVersionKey, Vec<ScalarValue>)> {
    rows()
        .into_iter()
        .enumerate()
        .map(|(slot, row)| (heap_key(storage_id, page, slot as u16), row))
        .collect()
}

fn cursor(storage_id: StorageId, generation: u64, frontier: u64) -> ChangeStreamCursor {
    ChangeStreamCursor {
        storage_id,
        generation: ChangeStreamGeneration(generation),
        frontier: StorageDataVersion(frontier),
    }
}

fn batch(
    storage_id: StorageId,
    before: u64,
    mutations: Vec<StorageChange<Vec<ScalarValue>>>,
) -> RowBatch {
    RowBatch {
        table_id: TableId(7),
        storage_id,
        schema_fingerprint: fingerprint(),
        before: StorageDataVersion(before),
        after: StorageDataVersion(before + 1),
        mutations,
    }
}

fn update(
    old_version: StorageVersionKey,
    new_version: StorageVersionKey,
    after: Vec<ScalarValue>,
) -> StorageChange<Vec<ScalarValue>> {
    StorageChange::Update { old_version, new_version, after }
}

fn delete(old_version: StorageVersionKey) -> StorageChange<Vec<ScalarValue>> {
    StorageChange::Delete { old_version }
}

const ALL: [ColumnId; 4] = [ColumnId(1), ColumnId(2), ColumnId(3), ColumnId(4)];

fn build(
    directory: &mut Directory,
    id: u64,
    generation: u64,
    table: &TableDef,
    token: StorageSnapshotToken,
    columns: &[ColumnId],
    rows: &[Vec<ScalarValue>],
    row_group_rows: Option<usize>,
) -> Result<ColumnarProjection, ColumnarError> {
    let prepared = ColumnarProjection::prepare(
        ColumnarProjectionId(id),
        ColumnarGeneration(generation),
        table,
        token.storage_id(),
        token,
        columns,
        rows,
        row_group_rows,
    )?;
    directory.publish(&prepared);
    directory.open(table)
}

fn build_incremental(
    directory: &mut Directory,
    id: u64,
    generation: u64,
    table: &TableDef,
    token: StorageSnapshotToken,
    cursor: ChangeStreamCursor,
    columns: &[ColumnId],
    rows: &[(StorageVersionKey, Vec<ScalarValue>)],
    row_group_rows: Option<usize>,
) -> Result<ColumnarProjection, ColumnarError> {
    let prepared = ColumnarProjection::prepare_incremental(
        ColumnarProjectionId(id),
        ColumnarGeneration(generation),
        table,
        token.storage_id(),
        token,
        cursor,
        columns,
        rows,
        row_group_rows,
    )?;
    directory.publish(&prepared);
    directory.open(table)
}

fn at_least(column: u32, value: ScalarValue) -> ColumnarConstraint {
    ColumnarConstraint { column_id: ColumnId(column), lower: Some((value, true)), upper: None }
}

fn between(column: u32, lower: ScalarValue, upper: ScalarValue) -> ColumnarConstraint {
    ColumnarConstraint {
        column_id: ColumnId(column),
        lower: Some((lower, true)),
        upper: Some((upper, true)),
    }
}

// ---------------------------------------------------------------------------
// Incremental projections
// ---------------------------------------------------------------------------
#[test]
fn incremental_v2_delta_round_trip_suppresses_exact_versions() {
    let mut directory = Directory::default();
    let table = table();
    let storage_id = StorageId(3);
    let base_rows = versioned(storage_id, 1);
    let base = build_incremental(
        &mut directory,
        21,
        1,
        &table,
        StorageSnapshotToken::heap(storage_id, 19),
        cursor(storage_id, 2, 10),
        &ALL,
        &base_rows,
        Some(2),
    )
    .expect("publish incremental base");
    assert!(base.is_incremental());
    let new_version = heap_key(storage_id, 2, 0);
    let first = batch(
        storage_id,
        10,
        vec![
            update(base_rows[0].0, new_version, row(100, 10, None, Some("delta"))),
            delete(base_rows[1].0),
        ],
    );
    let advanced = directory.advance(&base, &table, &[first]).expect("prepare delta");
    directory.publish_advance(&advanced);
    let reopened = directory.open(&table).expect("reopen v2 chain");
    let incremental = reopened.metadata().incremental.as_ref().expect("incremental metadata");
    assert_eq!(incremental.base_frontier, StorageDataVersion(10));
    assert_eq!(incremental.applied_frontier, StorageDataVersion(11));
    assert_eq!(incremental.delta_live_row_count, 1);
    assert_eq!(incremental.suppressed_version_count, 2);
    let (batches, statistics) = directory
        .scan(&reopened, &[ColumnId(1), ColumnId(4)], &[])
        .expect("scan merged projection");
    assert_eq!(first_values(&batches), vec![ScalarValue::Int64(9), ScalarValue::Int64(100)]);
    assert_eq!(statistics.base_rows_suppressed, 2);
    assert_eq!(statistics.delta_rows_emitted, 1);
    assert_eq!(statistics.version_key_chunks_read, 2);
    assert_eq!(statistics.decoded_version_blocks, 2);
    assert_eq!(statistics.decoded_column_chunks, 6);
    assert!(statistics.base_version_key_bytes_read > 0);
    assert!(statistics.base_data_bytes_read > 0);
    assert!(statistics.delta_data_bytes_read > 0);
    assert_eq!(statistics.blocks_verified, 8);
    let representation = reopened.representation_statistics();
    assert_eq!(representation.representation, "lazy-indexed");
    assert_eq!(representation.resident_payload_bytes, 0);
    assert_eq!(representation.delta_format_version, Some(2));
    assert_eq!(representation.indexed_delta_row_references, 1);
    let (_, pruned_statistics) = directory
        .scan(&reopened, &[ColumnId(1)], &[at_least(1, ScalarValue::Int64(9))])
        .expect("prune before suppression I/O");
    assert_eq!(pruned_statistics.row_groups_pruned_before_data_read, 1);
    assert_eq!(pruned_statistics.version_key_chunks_read, 1);
    assert!(pruned_statistics.base_data_bytes_read > 0);
    let newest_version = heap_key(storage_id, 3, 0);
    let second = batch(
        storage_id,
        11,
        vec![update(new_version, newest_version, row(200, 20, Some(true), None))],
    );
    let advanced =
        directory.advance(&reopened, &table, &[second]).expect("prepare second delta segment");
    directory.publish_advance(&advanced);
    let reopened = directory.open(&table).expect("reopen delta chain");
    let incremental = reopened.metadata().incremental.as_ref().expect("incremental metadata");
    assert_eq!(incremental.applied_frontier, StorageDataVersion(12));
    assert_eq!(incremental.delta_segments.len(), 2);
    assert_eq!(incremental.suppressed_version_count, 3);
    let (batches, _) = directory.scan(&reopened, &[ColumnId(1)], &[]).expect("scan second merge");
    assert_eq!(first_values(&batches), vec![ScalarValue::Int64(9), ScalarValue::Int64(200)]);
    assert_eq!(
        reopened.segment_files(),
        vec!["projection-21-g1.nbcs", "projection-21-g1-d11.nbcd", "projection-21-g1-d12.nbcd"]
    );
    let delta_file = incremental.delta_segments[1].file.clone();
    directory.files.get_mut(&delta_file).expect("delta")[32] ^= 0x20;
    assert!(matches!(
        directory.open(&table),
        Err(ColumnarError::ChecksumMismatch { .. }) | Err(ColumnarError::Corrupt(_))
    ));
}

#[test]
fn compaction_folds_exact_versions_rebuilds_statistics_and_keeps_old_reader_owned() {
    let mut directory = Directory::default();
    let table = table();
    let storage_id = StorageId(71);
    let base_rows = versioned(storage_id, 1);
    let base = build_incremental(
        &mut directory,
        71,
        1,
        &table,
        StorageSnapshotToken::heap(storage_id, 1),
        cursor(storage_id, 4, 10),
        &ALL,
        &base_rows,
        Some(2),
    )
    .expect("publish base");
    let updated_key = heap_key(storage_id, 2, 0);
    let inserted_key = heap_key(storage_id, 2, 1);
    let delta = batch(
        storage_id,
        10,
        vec![
            update(base_rows[0].0, updated_key, row(100, 100, None, Some("updated"))),
            delete(base_rows[1].0),
            StorageChange::Insert {
                new_version: inserted_key,
                after: row(200, 200, Some(true), None),
            },
        ],
    );
    let prepared = directory.advance(&base, &table, &[delta]).expect("prepare delta");
    directory.publish_advance(&prepared);
    let wanted = [ColumnId(1), ColumnId(3), ColumnId(4)];
    let advanced = directory.open(&table).expect("open delta");
    let expected =
        batch_rows(&directory.scan(&advanced, &wanted, &[]).expect("scan before compaction").0);
    let kept = directory.clone();
    let prepared = directory.compact(&advanced, &table, 2).expect("compact");
    directory.publish(&prepared);
    let compacted = directory.open(&table).expect("open compacted generation");
    let incremental = compacted.metadata().incremental.as_ref().expect("incremental metadata");
    assert_eq!(compacted.metadata().generation, ColumnarGeneration(2));
    assert_eq!(incremental.base_frontier, StorageDataVersion(11));
    assert_eq!(incremental.applied_frontier, StorageDataVersion(11));
    assert!(incremental.delta_segments.is_empty());
    assert_eq!(incremental.delta_mutation_count, 0);
    assert_eq!(incremental.suppressed_version_count, 0);
    assert_eq!(incremental.delta_live_row_count, 0);
    assert_eq!(compacted.metadata().row_count, 3);
    assert_eq!(
        batch_rows(&directory.scan(&compacted, &wanted, &[]).expect("scan compacted").0),
        expected
    );
    for file in advanced.segment_files() {
        directory.files.remove(&file);
    }
    assert_eq!(
        batch_rows(&kept.scan(&advanced, &wanted, &[]).expect("scan owned old reader").0),
        expected
    );
    let reopened = directory.open(&table).expect("reopen compacted");
    assert_eq!(reopened.metadata().generation, ColumnarGeneration(2));
    let zone_maps = reopened.row_group_statistics();
    assert!(zone_maps.iter().any(|group| {
        group.columns.iter().any(|(column, statistics)| {
            *column == ColumnId(1) && statistics.maximum == Some(ScalarValue::Int64(200))
        })
    }));
}

fn identity_of(metadata: &ColumnarProjectionMetadata) -> SegmentIdentity {
    SegmentIdentity {
        projection_id: metadata.id,
        generation: metadata.generation,
        segment_id: ColumnarSegmentId(1),
        table_id: metadata.table_id,
        storage_id: metadata.source_storage_id,
        fingerprint: metadata.schema_fingerprint,
    }
}

fn versioned_groups(
    table: &TableDef,
    rows: &[(StorageVersionKey, Vec<ScalarValue>)],
) -> Vec<RowGroup> {
    let columns = resolve_columns(table, &ALL).expect("columns");
    rows.chunks(2)
        .map(|rows| {
            let keys = rows.iter().map(|(key, _)| *key).collect();
            let values: Vec<Vec<ScalarValue>> = rows.iter().map(|(_, row)| row.clone()).collect();
            encode_versioned_row_group(&columns, keys, &values).expect("group")
        })
        .collect()
}

#[test]
fn nbcs_v2_round_trips_both_key_kinds_and_rejects_identity_corruption() {
    let table = table();
    let heap_storage = StorageId(31);
    let heap_rows = versioned(heap_storage, 7);
    let prepared = ColumnarProjection::prepare_incremental(
        ColumnarProjectionId(31),
        ColumnarGeneration(1),
        &table,
        heap_storage,
        StorageSnapshotToken::heap(heap_storage, 3),
        cursor(heap_storage, 1, 3),
        &ALL,
        &heap_rows,
        Some(2),
    )
    .expect("prepare Heap NBCS v2");
    assert_eq!(prepared.metadata.row_group_count, 2);
    let groups = versioned_groups(&table, &heap_rows);
    let identity = identity_of(&prepared.metadata);
    let columns = &prepared.metadata.columns;
    let segment = encode_segment(&identity, columns, &groups, INCREMENTAL_FORMAT_VERSION)
        .expect("encode legacy NBCS v2");
    assert_eq!(
        decode_segment(&segment, &prepared.metadata).expect("decode NBCS v2").row_groups,
        groups
    );

    let mut absent = groups.clone();
    absent[0].source_versions = None;
    assert!(matches!(
        encode_segment(&identity, columns, &absent, INCREMENTAL_FORMAT_VERSION),
        Err(ColumnarError::InvalidInput("incremental row group is missing source identities"))
    ));
    let mut short = groups.clone();
    short[0].source_versions.as_mut().expect("identities").pop();
    assert!(matches!(
        encode_segment(&identity, columns, &short, INCREMENTAL_FORMAT_VERSION),
        Err(ColumnarError::InvalidInput("source identity count differs from row count"))
    ));

    let mut wrong_storage = segment.clone();
    replace_u64(&mut wrong_storage, 40, 999);
    assert!(matches!(
        decode_segment(&wrong_storage, &prepared.metadata),
        Err(ColumnarError::IdentityMismatch("segment source storage"))
    ));
    let mut wrong_engine = segment.clone();
    wrong_engine[92] = 2;
    rewrite_checksum(&mut wrong_engine);
    assert!(matches!(
        decode_segment(&wrong_engine, &prepared.metadata),
        Err(ColumnarError::IdentityMismatch("version engine kind"))
    ));
    let mut zero_generation = segment.clone();
    zero_generation[110..114].copy_from_slice(&0_u32.to_le_bytes());
    rewrite_checksum(&mut zero_generation);
    assert!(matches!(
        decode_segment(&zero_generation, &prepared.metadata),
        Err(ColumnarError::Corrupt("invalid Heap version identity"))
    ));
    let mut checksum = segment;
    checksum[32] ^= 1;
    assert!(matches!(
        decode_segment(&checksum, &prepared.metadata),
        Err(ColumnarError::Corrupt("file checksum mismatch"))
    ));

    let lsm_storage = StorageId(32);
    let lsm_rows = [
        (lsm_key(lsm_storage, 1, 9), rows()[0].clone()),
        (lsm_key(lsm_storage, 2, 10), rows()[1].clone()),
    ];
    let projected: Vec<(StorageVersionKey, Vec<ScalarValue>)> = lsm_rows
        .iter()
        .map(|(key, values)| (*key, vec![values[0].clone(), values[3].clone()]))
        .collect();
    let mut directory = Directory::default();
    let lsm = build_incremental(
        &mut directory,
        32,
        1,
        &table,
        StorageSnapshotToken::lsm(lsm_storage, 5, 10),
        cursor(lsm_storage, 2, 8),
        &[ColumnId(1), ColumnId(4)],
        &projected,
        Some(1),
    )
    .expect("publish LSM NBCS v2");
    assert!(lsm.is_incremental());

    let zero_heap = StorageVersionKey::Heap {
        storage_id: heap_storage,
        row_id: RowId { page: PageId(1), slot: 0, generation: 0 },
    };
    for (key, token) in [
        (lsm_key(heap_storage, 1, 1), StorageSnapshotToken::heap(heap_storage, 1)),
        (zero_heap, StorageSnapshotToken::heap(heap_storage, 1)),
        (lsm_key(heap_storage, 1, 0), StorageSnapshotToken::lsm(heap_storage, 1, 1)),
    ] {
        assert!(ColumnarProjection::prepare_incremental(
            ColumnarProjectionId(40),
            ColumnarGeneration(1),
            &table,
            heap_storage,
            token,
            cursor(heap_storage, 1, 1),
            &[ColumnId(1)],
            &[(key, vec![ScalarValue::Int64(1)])],
            None,
        )
        .is_err());
    }

    let mut directory = Directory::default();
    let empty = build_incremental(
        &mut directory,
        41,
        1,
        &table,
        StorageSnapshotToken::heap(heap_storage, 1),
        cursor(heap_storage, 1, 1),
        &[ColumnId(1)],
        &[],
        None,
    )
    .expect("publish empty NBCS v2");
    assert!(directory.scan(&empty, &[ColumnId(1)], &[]).expect("scan empty").0.is_empty());
}

#[test]
fn legacy_v1_snapshot_and_v2_base_v1_delta_remain_openable_and_compactable() {
    let table = table();
    let columns = resolve_columns(&table, &ALL).expect("legacy columns");
    let mut directory = Directory::default();
    let snapshot_groups: Vec<RowGroup> = rows()
        .chunks(2)
        .map(|rows| encode_row_group(&columns, rows).expect("legacy snapshot group"))
        .collect();
    let mut snapshot_metadata = ColumnarProjectionMetadata {
        id: ColumnarProjectionId(41),
        generation: ColumnarGeneration(1),
        table_id: table.id,
        source_storage_id: StorageId(41),
        source_token: StorageSnapshotToken::heap(StorageId(41), 1),
        schema_fingerprint: fingerprint(),
        columns: columns.clone(),
        row_count: 3,
        row_group_count: 2,
        segment_count: 1,
        segment_bytes: 0,
        incremental: None,
    };
    let snapshot_segment = encode_segment(
        &identity_of(&snapshot_metadata),
        &columns,
        &snapshot_groups,
        SNAPSHOT_FORMAT_VERSION,
    )
    .expect("legacy snapshot segment");
    snapshot_metadata.segment_bytes = snapshot_segment.len() as u64;
    let snapshot_file = "projection-41-g1.nbcs";
    let snapshot_manifest = encode_manifest_version(
        &snapshot_metadata,
        ColumnarSegmentId(1),
        snapshot_file,
        stored_checksum(&snapshot_segment).expect("snapshot checksum"),
        SNAPSHOT_FORMAT_VERSION,
    )
    .expect("legacy snapshot manifest");
    directory.files.insert(String::from(snapshot_file), snapshot_segment);
    directory.files.insert(String::from(MANIFEST_FILE), snapshot_manifest);
    let snapshot = directory.open(&table).expect("open legacy snapshot");
    assert_eq!(snapshot.representation_statistics().representation, "legacy-eager");
    assert_eq!(
        first_values(&directory.scan(&snapshot, &[ColumnId(1)], &[]).expect("legacy scan").0),
        vec![ScalarValue::Int64(-3), ScalarValue::Int64(4), ScalarValue::Int64(9)]
    );

    let mut directory = Directory::default();
    let storage_id = StorageId(42);
    let versioned = versioned(storage_id, 1);
    let base_groups = versioned_groups(&table, &versioned);
    let mut metadata = ColumnarProjectionMetadata {
        id: ColumnarProjectionId(42),
        generation: ColumnarGeneration(1),
        table_id: table.id,
        source_storage_id: storage_id,
        source_token: StorageSnapshotToken::heap(storage_id, 2),
        schema_fingerprint: fingerprint(),
        columns: columns.clone(),
        row_count: 3,
        row_group_count: 2,
        segment_count: 1,
        segment_bytes: 0,
        incremental: Some(ColumnarIncrementalMetadata {
            stream_generation: ChangeStreamGeneration(7),
            base_frontier: StorageDataVersion(10),
            applied_frontier: StorageDataVersion(10),
            delta_segments: Vec::new(),
            delta_mutation_count: 0,
            delta_live_row_count: 0,
            suppressed_version_count: 0,
            delta_bytes: 0,
        }),
    };
    let segment = encode_segment(
        &identity_of(&metadata),
        &columns,
        &base_groups,
        INCREMENTAL_FORMAT_VERSION,
    )
    .expect("legacy incremental segment");
    metadata.segment_bytes = segment.len() as u64;
    let batches = [batch(
        storage_id,
        10,
        vec![update(
            versioned[0].0,
            heap_key(storage_id, 2, 0),
            row(100, 100, None, Some("legacy-delta")),
        )],
    )];
    let projected =
        project_change_batches(&table, &metadata, &batches).expect("project legacy delta");
    let delta = encode_delta(&metadata, &batches, &projected).expect("legacy delta segment");
    let delta_metadata = ColumnarDeltaSegmentMetadata {
        file: String::from("projection-42-g1-d11.nbcd"),
        before: StorageDataVersion(10),
        after: StorageDataVersion(11),
        mutation_count: 1,
        after_row_count: 1,
        bytes: delta.len() as u64,
        checksum: stored_checksum(&delta).expect("delta checksum"),
    };
    let incremental = metadata.incremental.as_mut().expect("incremental metadata");
    incremental.applied_frontier = StorageDataVersion(11);
    incremental.delta_segments.push(delta_metadata.clone());
    incremental.delta_mutation_count = 1;
    incremental.delta_live_row_count = 1;
    incremental.suppressed_version_count = 1;
    incremental.delta_bytes = delta.len() as u64;
    metadata.segment_count = 2;
    let segment_file = "projection-42-g1.nbcs";
    let manifest = encode_manifest_version(
        &metadata,
        ColumnarSegmentId(1),
        segment_file,
        stored_checksum(&segment).expect("base checksum"),
        INCREMENTAL_FORMAT_VERSION,
    )
    .expect("legacy incremental manifest");
    directory.files.insert(String::from(segment_file), segment);
    directory.files.insert(delta_metadata.file, delta);
    directory.files.insert(String::from(MANIFEST_FILE), manifest);
    let legacy = directory.open(&table).expect("open legacy incremental chain");
    assert_eq!(legacy.representation_statistics().representation, "legacy-eager");
    assert_eq!(
        first_values(&directory.scan(&legacy, &[ColumnId(1)], &[]).expect("legacy delta scan").0),
        vec![ScalarValue::Int64(4), ScalarValue::Int64(9), ScalarValue::Int64(100)]
    );
    let prepared = directory.compact(&legacy, &table, 2).expect("compact legacy chain");
    directory.publish(&prepared);
    let compacted = directory.open(&table).expect("open indexed generation");
    assert_eq!(compacted.representation_statistics().representation, "lazy-indexed");
    assert_eq!(
        first_values(&directory.scan(&compacted, &[ColumnId(1)], &[]).expect("scan").0),
        vec![ScalarValue::Int64(4), ScalarValue::Int64(9), ScalarValue::Int64(100)]
    );
}

#[test]
fn nbcd_v1_decoder_rejects_malformed_identity_counts_frontiers_and_references() {
    let mut directory = Directory::default();
    let table = table();
    let storage_id = StorageId(51);
    let base_keys = [heap_key(storage_id, 1, 0), heap_key(storage_id, 1, 1)];
    let base_rows = vec![
        (base_keys[0], vec![ScalarValue::Int64(10), ScalarValue::Null]),
        (base_keys[1], vec![ScalarValue::Int64(20), text("base")]),
    ];
    let base = build_incremental(
        &mut directory,
        51,
        2,
        &table,
        StorageSnapshotToken::heap(storage_id, 20),
        cursor(storage_id, 7, 20),
        &[ColumnId(1), ColumnId(4)],
        &base_rows,
        None,
    )
    .expect("publish NBCD base");
    let updated = heap_key(storage_id, 2, 0);
    let inserted = heap_key(storage_id, 2, 1);
    let final_version = heap_key(storage_id, 3, 0);
    let batches = vec![
        batch(
            storage_id,
            20,
            vec![
                update(base_keys[0], updated, row(11, 1, None, Some("delta-text"))),
                StorageChange::Insert {
                    new_version: inserted,
                    after: row(30, 2, Some(true), None),
                },
            ],
        ),
        batch(
            storage_id,
            21,
            vec![
                delete(updated),
                update(base_keys[1], final_version, row(21, 3, Some(false), Some("final"))),
            ],
        ),
    ];
    let metadata = base.metadata().clone();
    let projected =
        project_change_batches(&table, &metadata, &batches).expect("project legacy delta");
    let bytes = encode_delta(&metadata, &batches, &projected).expect("encode legacy NBCD v1");
    let expected = ColumnarDeltaSegmentMetadata {
        file: String::from("legacy.nbcd"),
        before: StorageDataVersion(20),
        after: StorageDataVersion(22),
        mutation_count: projected.len() as u64,
        after_row_count: projected.iter().filter(|mutation| mutation.after.is_some()).count()
            as u64,
        bytes: bytes.len() as u64,
        checksum: stored_checksum(&bytes).expect("legacy delta checksum"),
    };
    assert_eq!(
        decode_delta(&bytes, &metadata, &expected).expect("decode multiple batches"),
        projected
    );
    assert_eq!(projected.len(), 4);

    let assert_rejected = |candidate: &[u8], expected: &ColumnarDeltaSegmentMetadata| {
        assert!(
            decode_delta(candidate, &metadata, expected).is_err(),
            "malformed NBCD unexpectedly decoded"
        );
    };
    let mut malformed = bytes.clone();
    malformed[0] = b'X';
    rewrite_checksum(&mut malformed);
    assert_rejected(&malformed, &expected);
    let mut malformed = bytes.clone();
    replace_u16(&mut malformed, 4, 99);
    assert_rejected(&malformed, &expected);
    let mut malformed = bytes.clone();
    malformed[12] ^= 1;
    assert_rejected(&malformed, &expected);
    assert_rejected(&bytes[..bytes.len() - 9], &expected);
    let mut malformed = bytes[..bytes.len() - 4].to_vec();
    malformed.push(0xff);
    append_checksum(&mut malformed);
    assert_rejected(&malformed, &expected);

    for (offset, value) in
        [(8, 999_u64), (16, 999), (24, 999), (32, 999), (40, 999), (80, 999)]
    {
        let mut malformed = bytes.clone();
        replace_u64(&mut malformed, offset, value);
        assert_rejected(&malformed, &expected);
    }
    let mut malformed = bytes.clone();
    replace_u64(&mut malformed, 136, 20);
    assert_rejected(&malformed, &expected);
    let mut malformed = bytes.clone();
    malformed[149] = 2;
    rewrite_checksum(&mut malformed);
    assert_rejected(&malformed, &expected);
    let mut malformed = bytes.clone();
    replace_u64(&mut malformed, 197, 3);
    assert_rejected(&malformed, &expected);

    let many = u64::from(CHANGE_LOG_MAX_MUTATIONS) + 1;
    let mut oversized_mutations = bytes.clone();
    replace_u64(&mut oversized_mutations, 108, many);
    let mut oversized_expected = expected.clone();
    oversized_expected.mutation_count = many;
    assert_rejected(&oversized_mutations, &oversized_expected);
    let mut oversized_rows = bytes.clone();
    replace_u64(&mut oversized_rows, 116, u64::MAX);
    let mut oversized_expected = expected.clone();
    oversized_expected.after_row_count = u64::MAX;
    assert_rejected(&oversized_rows, &oversized_expected);

    let duplicate =
        batch(storage_id, 20, vec![delete(base_keys[0]), delete(base_keys[0])]);
    assert!(matches!(
        directory.advance(&base, &table, &[duplicate]),
        Err(ColumnarError::Corrupt("one version has multiple durable delta transitions"))
    ));

    let mut directory = Directory::default();
    let lsm_storage = StorageId(52);
    let old = lsm_key(lsm_storage, 8, 10);
    let lsm = build_incremental(
        &mut directory,
        52,
        1,
        &table,
        StorageSnapshotToken::lsm(lsm_storage, 2, 10),
        cursor(lsm_storage, 3, 5),
        &[ColumnId(1)],
        &[(old, vec![ScalarValue::Int64(1)])],
        None,
    )
    .expect("publish LSM base");
    let sentinel = "unprojected-text-must-not-be-persisted";
    let lsm_batch = batch(
        lsm_storage,
        5,
        vec![update(old, lsm_key(lsm_storage, 8, 11), row(2, 9, None, Some(sentinel)))],
    );
    let prepared = directory.advance(&lsm, &table, &[lsm_batch]).expect("prepare LSM NBCD");
    let bytes = prepared.delta.clone();
    assert!(
        !bytes.windows(sentinel.len()).any(|window| window == sentinel.as_bytes()),
        "NBCD must persist only projected after-image columns"
    );
    let manifest = decode_manifest(&prepared.manifest).expect("decode replacement manifest");
    let mut malformed_expected = manifest
        .metadata
        .incremental
        .as_ref()
        .expect("incremental metadata")
        .delta_segments
        .last()
        .expect("delta metadata")
        .clone();
    let mut malformed = bytes.clone();
    let footer_offset =
        u64::from_le_bytes(malformed[128..136].try_into().expect("footer offset")) as usize;
    let footer_length =
        u64::from_le_bytes(malformed[136..144].try_into().expect("footer length")) as usize;
    let after_row_offset = footer_offset + 193;
    malformed[after_row_offset..after_row_offset + 8].copy_from_slice(&u64::MAX.to_le_bytes());
    let footer_checksum_offset = footer_offset + footer_length - 4;
    let footer_checksum = crc32c::crc32c(&malformed[footer_offset..footer_checksum_offset]);
    malformed[footer_checksum_offset..footer_checksum_offset + 4]
        .copy_from_slice(&footer_checksum.to_le_bytes());
    malformed[144..148].copy_from_slice(&footer_checksum.to_le_bytes());
    let header_checksum = crc32c::crc32c(&malformed[..152]);
    malformed[152..156].copy_from_slice(&header_checksum.to_le_bytes());
    malformed_expected.checksum = footer_checksum;
    let malformed_parts = delta_parts(&malformed, lsm.metadata(), &malformed_expected);
    assert!(matches!(
        open_lazy_delta(
            lsm.metadata(),
            &malformed_expected,
            &malformed_parts,
            &malformed_expected.file
        ),
        Err(ColumnarError::Corrupt("invalid lazy delta after-row reference"))
    ));
    directory.publish_advance(&prepared);
    let opened = directory.open(&table).expect("open LSM NBCD");
    assert_eq!(
        first_values(&directory.scan(&opened, &[ColumnId(1)], &[]).expect("scan LSM merge").0),
        vec![ScalarValue::Int64(2)]
    );
}

#[test]
fn delta_publication_reopens_at_only_old_or_new_frontier() {
    let mut directory = Directory::default();
    let table = table();
    let storage_id = StorageId(3);
    let base_rows = vec![(heap_key(storage_id, 1, 0), rows()[0].clone())];
    let base = build_incremental(
        &mut directory,
        22,
        1,
        &table,
        StorageSnapshotToken::heap(storage_id, 1),
        cursor(storage_id, 1, 4),
        &ALL,
        &base_rows,
        None,
    )
    .expect("publish base");
    let changes = [batch(storage_id, 4, vec![delete(base_rows[0].0)])];

    let prepared = directory.advance(&base, &table, &changes).expect("prepare delta");
    directory.files.insert(prepared.delta_file.clone(), prepared.delta.clone());
    let old = directory.open(&table).expect("open old authority");
    assert_eq!(
        old.metadata().incremental.as_ref().expect("incremental").applied_frontier,
        StorageDataVersion(4)
    );

    let prepared = directory.advance(&old, &table, &changes).expect("prepare retry");
    directory.publish_advance(&prepared);
    let new = directory.open(&table).expect("open new authority");
    assert_eq!(
        new.metadata().incremental.as_ref().expect("incremental").applied_frontier,
        StorageDataVersion(5)
    );
    assert_eq!(directory.scan(&new, &[ColumnId(1)], &[]).expect("scan").0[0].row_count, 0);
    assert_eq!(
        directory.scan(&base, &[ColumnId(1)], &[]).expect("old reader scan").0[0].row_count,
        1,
        "an active immutable reader retains its pre-advance overlay"
    );
}

// ---------------------------------------------------------------------------
// Snapshot projections
// ---------------------------------------------------------------------------
#[test]
fn round_trip_reopen_preserves_typed_vectors_nulls_and_row_groups() {
    let mut directory = Directory::default();
    let table = table();
    let projection = build(
        &mut directory,
        11,
        1,
        &table,
        StorageSnapshotToken::heap(StorageId(3), 19),
        &ALL,
        &rows(),
        Some(2),
    )
    .expect("build projection");
    assert_eq!(projection.metadata().row_group_count, 2);
    let reopened = directory.open(&table).expect("reopen projection");
    let (batches, stats) = directory.scan(&reopened, &ALL, &[]).expect("scan projection");
    assert_eq!(batch_rows(&batches), rows());
    assert_eq!(stats.row_groups_read, 2);
    assert_eq!(stats.rows_read, 3);
}

#[test]
fn zone_map_prunes_only_impossible_row_groups() {
    let mut directory = Directory::default();
    let table = table();
    let projection = build(
        &mut directory,
        12,
        1,
        &table,
        StorageSnapshotToken::lsm(StorageId(4), 1, 8),
        &ALL,
        &rows(),
        Some(1),
    )
    .expect("build projection");
    let (batches, stats) = directory
        .scan(
            &projection,
            &[ColumnId(1)],
            &[between(1, ScalarValue::Int64(4), ScalarValue::Int64(4))],
        )
        .expect("scan projection");
    assert_eq!(stats.row_groups_total, 3);
    assert_eq!(stats.row_groups_pruned, 2);
    assert_eq!(batches.len(), 1);
    assert_eq!(batches[0].columns[0].values.value(0).expect("value"), ScalarValue::Int64(4));
}

#[test]
fn active_reader_keeps_immutable_generation_after_refresh_retires_its_file() {
    let mut directory = Directory::default();
    let table = table();
    let generation_one = build(
        &mut directory,
        17,
        1,
        &table,
        StorageSnapshotToken::heap(StorageId(9), 1),
        &[ColumnId(1)],
        &[vec![ScalarValue::Int64(10)]],
        None,
    )
    .expect("build generation one");
    let held = directory.clone();
    let generation_two = build(
        &mut directory,
        17,
        2,
        &table,
        StorageSnapshotToken::heap(StorageId(9), 2),
        &[ColumnId(1)],
        &[vec![ScalarValue::Int64(20)]],
        None,
    )
    .expect("publish generation two");
    for file in generation_one.segment_files() {
        directory.files.remove(&file);
    }
    let (old_batches, _) = held
        .scan(&generation_one, &[ColumnId(1)], &[])
        .expect("active reader scans retained generation");
    assert_eq!(first_values(&old_batches), vec![ScalarValue::Int64(10)]);
    let (new_batches, _) = directory
        .scan(&generation_two, &[ColumnId(1)], &[])
        .expect("new reader scans new generation");
    assert_eq!(first_values(&new_batches), vec![ScalarValue::Int64(20)]);
}

#[test]
fn reopen_rejects_truncated_manifest_and_corrupt_segment() {
    let table = table();
    let mut truncated = Directory::default();
    build(
        &mut truncated,
        13,
        1,
        &table,
        StorageSnapshotToken::heap(StorageId(5), 1),
        &[ColumnId(1)],
        &[vec![ScalarValue::Int64(1)]],
        None,
    )
    .expect("build projection");
    truncated.files.insert(String::from("projection.nbcmanifest"), b"NBCM".to_vec());
    assert!(matches!(
        truncated.open(&table),
        Err(ColumnarError::InvalidFormat(_)) | Err(ColumnarError::Corrupt(_))
    ));

    let mut corrupt = Directory::default();
    build(
        &mut corrupt,
        14,
        1,
        &table,
        StorageSnapshotToken::heap(StorageId(6), 2),
        &[ColumnId(1)],
        &[vec![ScalarValue::Int64(2)]],
        None,
    )
    .expect("build projection");
    corrupt.files.get_mut("projection-14-g1.nbcs").expect("segment")[16] ^= 0x40;
    assert!(matches!(
        corrupt.open(&table),
        Err(ColumnarError::ChecksumMismatch { .. })
            | Err(ColumnarError::Corrupt("file checksum mismatch"))
    ));
}

#[test]
fn reopen_rejects_schema_and_source_identity_mismatch() {
    let mut directory = Directory::default();
    build(
        &mut directory,
        15,
        1,
        &table(),
        StorageSnapshotToken::heap(StorageId(7), 3),
        &[ColumnId(1)],
        &[vec![ScalarValue::Int64(3)]],
        None,
    )
    .expect("build projection");
    let mut wrong = table();
    wrong.fingerprint = Ok(SchemaFingerprint::from_bytes([0x34; 32]));
    assert!(matches!(
        directory.open(&wrong),
        Err(ColumnarError::IdentityMismatch("schema fingerprint"))
    ));
    let mut wrong_table = table();
    wrong_table.id = TableId(99);
    assert!(matches!(
        directory.open(&wrong_table),
        Err(ColumnarError::IdentityMismatch("table"))
    ));
}

#[test]
fn empty_projection_and_manifest_decoder_boundaries_are_explicit() {
    let mut directory = Directory::default();
    let table = table();
    let projection = build(
        &mut directory,
        16,
        1,
        &table,
        StorageSnapshotToken::heap(StorageId(8), 0),
        &ALL,
        &[],
        None,
    )
    .expect("build empty projection");
    assert!(directory
        .scan(&projection, &[ColumnId(1)], &[])
        .expect("scan empty projection")
        .0
        .is_empty());

    let original = directory.read(MANIFEST_FILE).expect("read manifest");
    let mut opened_with = |manifest: Vec<u8>| {
        directory.files.insert(String::from(MANIFEST_FILE), manifest);
        directory.open(&table)
    };
    let mut bad_magic = original.clone();
    bad_magic[0] = b'X';
    rewrite_checksum(&mut bad_magic);
    assert!(matches!(
        opened_with(bad_magic),
        Err(ColumnarError::InvalidFormat("invalid magic"))
    ));

    let mut unsupported = original.clone();
    unsupported[4..6].copy_from_slice(&99_u16.to_le_bytes());
    rewrite_checksum(&mut unsupported);
    assert!(matches!(
        opened_with(unsupported),
        Err(ColumnarError::UnsupportedVersion(99))
    ));

    let mut oversized = original.clone();
    oversized[128..132].copy_from_slice(&(MAX_COLUMNS + 1).to_le_bytes());
    rewrite_checksum(&mut oversized);
    assert!(matches!(
        opened_with(oversized),
        Err(ColumnarError::ResourceLimit { resource: "manifest columns", .. })
    ));

    directory.files.insert(String::from(MANIFEST_FILE), original);
    directory.files.remove("projection-16-g1.nbcs");
    assert_eq!(directory.open(&table).err(), Some(missing()));

    let invalid_text =
        decode_vector_data(PhysicalType::Text, 1, vec![1], &[1, 0, 0, 0, 1, 0, 0, 0]);
    assert!(matches!(
        invalid_text,
        Err(ColumnarError::Corrupt("invalid text offsets"))
    ));
}

#[test]
fn crash_after_segment_install_keeps_old_manifest_and_cleans_manifest_temp() {
    let mut directory = Directory::default();
    let table = table();
    build(
        &mut directory,
        17,
        1,
        &table,
        StorageSnapshotToken::heap(StorageId(9), 1),
        &[ColumnId(1)],
        &[vec![ScalarValue::Int64(1)]],
        Some(1),
    )
    .expect("publish first generation");
    let prepared = ColumnarProjection::prepare(
        ColumnarProjectionId(17),
        ColumnarGeneration(2),
        &table,
        StorageId(9),
        StorageSnapshotToken::heap(StorageId(9), 2),
        &[ColumnId(1)],
        &[vec![ScalarValue::Int64(2)]],
        Some(1),
    )
    .expect("prepare second generation");
    directory.install(&prepared);
    let reopened = directory
        .open(&table)
        .expect("old manifest remains publishable after abandoned prepare");
    assert_eq!(reopened.metadata().generation, ColumnarGeneration(1));
    assert_eq!(
        first_values(&directory.scan(&reopened, &[ColumnId(1)], &[]).expect("scan").0),
        vec![ScalarValue::Int64(1)]
    );
    assert!(directory.files.keys().all(|name| !name.contains(".tmp.")));
    assert!(directory.files.contains_key(&prepared.segment_file));
}

fn wide_table(width: u32) -> TableDef {
    TableDef {
        id: TableId(91),
        columns: (1..=width)
            .map(|id| {
                column(id, if id <= 4 { PhysicalType::UInt64 } else { PhysicalType::Text }, false)
            })
            .collect(),
        fingerprint: Ok(fingerprint()),
    }
}

#[test]
fn lazy_wide_projection_reads_only_selected_chunks_after_zone_pruning() {
    let mut directory = Directory::default();
    let table = wide_table(128);
    let columns: Vec<ColumnId> = (1..=128).map(ColumnId).collect();
    let rows: Vec<Vec<ScalarValue>> = (0..20_u64)
        .map(|row| {
            (1..=128_u32)
                .map(|column| {
                    if column <= 4 {
                        ScalarValue::UInt64(row + u64::from(column))
                    } else {
                        ScalarValue::Text(format!("text-{column}-{row}"))
                    }
                })
                .collect()
        })
        .collect();
    let projection = build(
        &mut directory,
        91,
        1,
        &table,
        StorageSnapshotToken::heap(StorageId(91), 1),
        &columns,
        &rows,
        Some(2),
    )
    .expect("build wide lazy projection");
    let representation = projection.representation_statistics();
    assert_eq!(representation.representation, "lazy-indexed");
    assert_eq!(representation.resident_payload_bytes, 0);
    assert_eq!(representation.indexed_base_chunks, 1_280);
    assert!(representation.resident_metadata_bytes < projection.metadata().segment_bytes);
    let (_, statistics) = directory
        .scan(
            &projection,
            &[ColumnId(2), ColumnId(3), ColumnId(4)],
            &[between(1, ScalarValue::UInt64(9), ScalarValue::UInt64(10))],
        )
        .expect("scan three numeric columns");
    assert_eq!(statistics.row_groups_total, 10);
    assert_eq!(statistics.row_groups_read, 1);
    assert_eq!(statistics.row_groups_pruned_before_data_read, 9);
    assert_eq!(statistics.column_chunks_read, 3);
    assert_eq!(statistics.decoded_column_chunks, 3);
    assert_eq!(statistics.physical_block_reads, 3);
    assert_eq!(statistics.version_key_chunks_read, 0);
    assert_eq!(statistics.delta_data_bytes_read, 0);
    assert!(statistics.physical_bytes_read < projection.metadata().segment_bytes / 20);
}

#[test]
fn streaming_incremental_base_reopens_without_resident_values() {
    let mut directory = Directory::default();
    let table = table();
    let storage_id = StorageId(95);
    let prepared = ColumnarProjection::prepare_incremental_streaming(
        ColumnarProjectionId(95),
        ColumnarGeneration(1),
        &table,
        storage_id,
        StorageSnapshotToken::heap(storage_id, 4),
        cursor(storage_id, 2, 4),
        &[ColumnId(1), ColumnId(2)],
        (0..3)
            .map(|row| {
                (
                    heap_key(storage_id, 1, row),
                    vec![
                        ScalarValue::Int64(i64::from(row)),
                        ScalarValue::UInt64(u64::from(row)),
                    ],
                )
            })
            .collect(),
        Some(2),
    )
    .expect("prepare streaming incremental base");
    directory.publish(&prepared);
    let projection = directory.open(&table).expect("open streaming incremental base");
    assert_eq!(projection.representation_statistics().resident_payload_bytes, 0);
    assert_eq!(
        first_values(&directory.scan(&projection, &[ColumnId(1)], &[]).expect("scan base").0),
        vec![ScalarValue::Int64(0), ScalarValue::Int64(1), ScalarValue::Int64(2)]
    );
}

#[test]
fn lazy_selected_block_corruption_never_returns_values() {
    let mut directory = Directory::default();
    let table = table();
    let projection = build(
        &mut directory,
        92,
        1,
        &table,
        StorageSnapshotToken::heap(StorageId(92), 1),
        &ALL,
        &rows(),
        Some(3),
    )
    .expect("build corruption fixture");
    let lazy = projection.lazy.as_ref().expect("lazy representation");
    let block = lazy.base_groups[0].columns[0].block;
    directory.files.get_mut(&lazy.paths[0]).expect("segment")[block.offset as usize] ^= 0x80;
    directory
        .scan(&projection, &[ColumnId(2)], &[])
        .expect("unselected corrupt block is not read");
    assert!(matches!(
        directory.scan(&projection, &[ColumnId(1)], &[]),
        Err(ColumnarError::ChecksumMismatch { .. })
    ));
}

#[test]
fn lazy_directory_rejects_out_of_bounds_and_overlapping_blocks() {
    for overlap in [false, true] {
        let mut directory = Directory::default();
        let table = table();
        let projection = build(
            &mut directory,
            if overlap { 94 } else { 93 },
            1,
            &table,
            StorageSnapshotToken::heap(StorageId(93), 1),
            &[ColumnId(1), ColumnId(2)],
            &[vec![ScalarValue::Int64(1), ScalarValue::UInt64(2)]],
            Some(1),
        )
        .expect("build malformed-directory fixture");
        let lazy = projection.lazy.as_ref().expect("lazy representation");
        let first: BlockRef = lazy.base_groups[0].columns[0].block;
        let second: BlockRef = lazy.base_groups[0].columns[1].block;
        let path = lazy.paths[0].clone();
        let mut bytes = directory.read(&path).expect("read indexed segment");
        let footer_offset =
            u64::from_le_bytes(bytes[104..112].try_into().expect("footer offset bytes"));
        let footer_length =
            u64::from_le_bytes(bytes[112..120].try_into().expect("footer length bytes"));
        let old = second.offset.to_le_bytes();
        let footer_start = footer_offset as usize;
        let footer_end = (footer_offset + footer_length) as usize;
        let position = bytes[footer_start..footer_end]
            .windows(old.len())
            .position(|window| window == old)
            .map(|position| footer_start + position)
            .expect("second block offset in directory");
        let replacement = if overlap { first.offset } else { footer_offset };
        bytes[position..position + 8].copy_from_slice(&replacement.to_le_bytes());
        let checksum_position = footer_end - 4;
        let checksum = crc32c::crc32c(&bytes[footer_start..checksum_position]);
        bytes[checksum_position..footer_end].copy_from_slice(&checksum.to_le_bytes());
        bytes[120..124].copy_from_slice(&checksum.to_le_bytes());
        let header_checksum = crc32c::crc32c(&bytes[..128]);
        bytes[128..132].copy_from_slice(&header_checksum.to_le_bytes());
        directory.files.insert(path.clone(), bytes);
        let manifest = directory.read(MANIFEST_FILE).expect("manifest");
        let mut known = decode_manifest(&manifest).expect("decode manifest");
        known.segment_checksum = checksum;
        assert!(matches!(
            open_lazy_segment(&known, &directory.base_parts(&known), &path),
            Err(ColumnarError::Corrupt(_))
        ));
    }
}

// ---------------------------------------------------------------------------
// Edges
// ---------------------------------------------------------------------------
#[test]
fn text_that_is_not_utf8_is_refused() {
    let data = |byte: u8| vec![0, 0, 0, 0, 2, 0, 0, 0, byte, 0xA9];
    assert_eq!(
        decode_vector_data(PhysicalType::Text, 1, vec![1], &data(0xC3))
            .expect("two bytes of one letter")
            .value(0)
            .expect("value"),
        text("\u{e9}")
    );
    assert!(matches!(
        decode_vector_data(PhysicalType::Text, 1, vec![1], &data(0x41)),
        Err(ColumnarError::Corrupt("text payload is not UTF-8"))
    ));
}

#[test]
fn rows_are_checked_against_their_columns() {
    let table = table();
    let token = StorageSnapshotToken::heap(StorageId(3), 1);
    let prepare = |columns: &[ColumnId], rows: &[Vec<ScalarValue>]| {
        ColumnarProjection::prepare(
            ColumnarProjectionId(1),
            ColumnarGeneration(1),
            &table,
            StorageId(3),
            token,
            columns,
            rows,
            None,
        )
        .err()
    };
    assert_eq!(prepare(&[ColumnId(9)], &[]), Some(ColumnarError::UnknownColumn(ColumnId(9))));
    assert_eq!(
        prepare(&[ColumnId(1)], &[vec![ScalarValue::Bool(true)]]),
        Some(ColumnarError::TypeMismatch(ColumnId(1)))
    );
    assert_eq!(
        prepare(&[ColumnId(1)], &[vec![ScalarValue::Null]]),
        Some(ColumnarError::TypeMismatch(ColumnId(1)))
    );
    assert_eq!(prepare(&[ColumnId(3)], &[vec![ScalarValue::Null]]), None);
    let nameless = TableDef { fingerprint: Err(String::from("no digest")), ..self::table() };
    assert_eq!(
        ColumnarProjection::prepare(
            ColumnarProjectionId(1),
            ColumnarGeneration(1),
            &nameless,
            StorageId(3),
            token,
            &[ColumnId(1)],
            &[],
            None,
        )
        .err(),
        Some(ColumnarError::Schema(String::from("no digest")))
    );
}

#[test]
fn a_streamed_projection_is_the_prepared_one() {
    let table = table();
    let token = StorageSnapshotToken::heap(StorageId(3), 1);
    let whole = ColumnarProjection::prepare(
        ColumnarProjectionId(1),
        ColumnarGeneration(1),
        &table,
        StorageId(3),
        token,
        &ALL,
        &rows(),
        Some(2),
    )
    .expect("prepare");
    let streamed = ColumnarProjection::prepare_streaming(
        ColumnarProjectionId(1),
        ColumnarGeneration(1),
        &table,
        StorageId(3),
        token,
        &ALL,
        rows(),
        Some(2),
    )
    .expect("stream");
    assert_eq!(whole.header, streamed.header);
    assert_eq!(whole.tail, streamed.tail);
    assert_eq!(whole.manifest, streamed.manifest);
    let mut stream = StreamingProjection::start(
        ColumnarProjectionId(1),
        ColumnarGeneration(1),
        &table,
        StorageId(3),
        token,
        None,
        &ALL,
        Some(2),
    )
    .expect("start");
    let mut written = Vec::new();
    for row in rows() {
        written.extend(stream.push(None, row).expect("push"));
    }
    let pieces = stream.finish().expect("finish");
    written.extend(pieces.tail);
    assert_eq!(whole.header, pieces.header);
    assert_eq!(whole.tail, written);
    assert_eq!(whole.manifest, pieces.manifest);
}

#[test]
fn duplicate_versions_and_foreign_changes_are_refused() {
    let mut directory = Directory::default();
    let table = table();
    let storage_id = StorageId(3);
    let key = heap_key(storage_id, 1, 0);
    let token = StorageSnapshotToken::heap(storage_id, 1);
    assert!(build_incremental(
        &mut directory,
        1,
        1,
        &table,
        token,
        cursor(storage_id, 1, 1),
        &ALL,
        &[(key, rows()[0].clone()), (key, rows()[1].clone())],
        None,
    )
    .is_err());
    let base = build_incremental(
        &mut directory,
        1,
        1,
        &table,
        token,
        cursor(storage_id, 1, 1),
        &ALL,
        &[(key, rows()[0].clone())],
        None,
    )
    .expect("base");
    let gap = batch(storage_id, 5, vec![delete(key)]);
    assert!(directory.advance(&base, &table, &[gap]).is_err());
    let foreign = batch(StorageId(4), 1, vec![delete(heap_key(StorageId(4), 1, 0))]);
    assert!(directory.advance(&base, &table, &[foreign]).is_err());
    let snapshot = build(&mut directory, 2, 1, &table, token, &ALL, &rows(), None).expect("base");
    assert_eq!(
        directory.advance(&snapshot, &table, &[]).err(),
        Some(ColumnarError::InvalidInput("snapshot projection cannot advance"))
    );
}

#[test]
fn errors_tell_what_is_wrong_and_whether_files_can_be_trusted() {
    assert_eq!(
        ColumnarError::UnsupportedVersion(9).to_text(),
        "unsupported columnar format version 9"
    );
    assert_eq!(
        ColumnarError::IdentityMismatch("table").to_text(),
        "columnar table identity mismatch"
    );
    assert_eq!(
        ColumnarError::ResourceLimit { resource: "segment bytes", value: 12 }.to_text(),
        "columnar segment bytes exceeds limit: 12"
    );
    assert!(ColumnarError::Corrupt("x").invalidates_projection());
    assert!(!ColumnarError::UnknownColumn(ColumnId(1)).invalidates_projection());
}

#[test]
fn files_have_a_bounded_size() {
    assert_eq!(check_file_size(17_179_869_184), Ok(()));
    assert_eq!(
        check_file_size(17_179_869_185),
        Err(ColumnarError::ResourceLimit { resource: "file bytes", value: 17_179_869_185 })
    );
}

#[test]
fn tokens_have_a_stable_form() {
    assert_eq!(StorageSnapshotToken::heap(StorageId(3), 19).diagnostic(), "heap:3:0:19");
    assert_eq!(StorageSnapshotToken::lsm(StorageId(4), 1, 8).diagnostic(), "lsm:4:1:8");
}

#[test]
fn rows_are_picked_in_any_order_and_as_often_as_wanted() {
    let labels = ColumnarVector::Text {
        offsets: vec![0, 2, 2, 5],
        bytes: b"abcde".to_vec(),
        validity: vec![0b101],
    };
    let picked = select_vector_rows(&labels, &[2, 0, 2, 1]);
    assert_eq!(
        picked,
        ColumnarVector::Text {
            offsets: vec![0, 3, 5, 8, 8],
            bytes: b"cdeabcde".to_vec(),
            validity: vec![0b111],
        }
    );
    let numbers = ColumnarVector::Int64 { values: vec![7, 8], validity: vec![0b11] };
    assert_eq!(
        select_vector_rows(&numbers, &[1, 1, 0]),
        ColumnarVector::Int64 { values: vec![8, 8, 7], validity: vec![0b111] }
    );
    let cut_short = ColumnarVector::Text {
        offsets: vec![1, 3, 2, 90],
        bytes: b"abcde".to_vec(),
        validity: vec![0b111],
    };
    assert_eq!(
        select_vector_rows(&cut_short, &[0]),
        ColumnarVector::Text { offsets: vec![0, 2], bytes: b"bc".to_vec(), validity: vec![1] }
    );
}

#[test]
fn blocks_stand_in_the_data_area_and_apart() {
    let check = |blocks: &[(u64, u64)]| {
        let groups: Vec<LazyRowGroup> = blocks
            .iter()
            .map(|(offset, length)| LazyRowGroup {
                rows: 1,
                source_versions: Some(BlockRef { offset: *offset, length: *length, checksum: 0 }),
                columns: vec![],
            })
            .collect();
        validate_block_ranges(&groups, 10, 100)
    };
    let overlap = Err(ColumnarError::Corrupt("payload blocks overlap"));
    assert_eq!(check(&[(50, 50), (10, 40)]), Ok(()));
    assert_eq!(check(&[(50, 50), (10, 41)]), overlap);
    assert_eq!(check(&[(10, 90), (20, 5), (30, 5)]), overlap);
    // Of blocks at one offset the first in the list stands in front.
    assert_eq!(check(&[(20, 0), (20, 5)]), Ok(()));
    assert_eq!(check(&[(20, 5), (20, 0)]), overlap);
    assert_eq!(check(&[(20, 5), (22, 0)]), overlap);
    assert_eq!(
        check(&[(9, 5)]),
        Err(ColumnarError::Corrupt("payload block is outside data area"))
    );
    assert_eq!(
        check(&[(u64::MAX, 1)]),
        Err(ColumnarError::Corrupt("payload block range overflow"))
    );
}

#[test]
fn a_delta_of_another_projection_or_of_another_length_is_refused() {
    let mut directory = Directory::default();
    let table = table();
    let storage_id = StorageId(52);
    let base_rows = versioned(storage_id, 1);
    let base = build_incremental(
        &mut directory,
        52,
        2,
        &table,
        StorageSnapshotToken::heap(storage_id, 20),
        cursor(storage_id, 7, 20),
        &ALL,
        &base_rows,
        None,
    )
    .expect("publish base");
    let metadata = base.metadata().clone();
    let batches = vec![batch(
        storage_id,
        20,
        vec![update(base_rows[0].0, heap_key(storage_id, 2, 0), row(11, 1, None, Some("x")))],
    )];
    let projected = project_change_batches(&table, &metadata, &batches).expect("project");
    let bytes = encode_delta(&metadata, &batches, &projected).expect("encode");
    let expected = |bytes: &[u8]| ColumnarDeltaSegmentMetadata {
        file: String::from("one.nbcd"),
        before: StorageDataVersion(20),
        after: StorageDataVersion(21),
        mutation_count: 1,
        after_row_count: 1,
        bytes: bytes.len() as u64,
        checksum: stored_checksum(bytes).expect("checksum"),
    };
    assert_eq!(decode_delta(&bytes, &metadata, &expected(&bytes)).expect("decode"), projected);
    let mut other = metadata.clone();
    other.id = ColumnarProjectionId(53);
    assert!(decode_delta(&bytes, &other, &expected(&bytes)).is_err());
    let mut other = metadata.clone();
    other.generation = ColumnarGeneration(3);
    assert!(decode_delta(&bytes, &other, &expected(&bytes)).is_err());
    for length in 8..bytes.len() - 4 {
        let mut shorter = bytes[..length].to_vec();
        append_checksum(&mut shorter);
        assert!(decode_delta(&shorter, &metadata, &expected(&shorter)).is_err());
    }
    let mut longer = bytes[..bytes.len() - 4].to_vec();
    longer.push(0);
    append_checksum(&mut longer);
    assert!(decode_delta(&longer, &metadata, &expected(&longer)).is_err());
    for place in 0..bytes.len() {
        for bit in 0..8 {
            let mut damaged = bytes.clone();
            damaged[place] ^= 1 << bit;
            assert_eq!(
                decode_delta(&damaged, &metadata, &expected(&bytes)),
                Err(ColumnarError::Corrupt("file checksum mismatch"))
            );
        }
    }
}
