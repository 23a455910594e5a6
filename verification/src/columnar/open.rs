//! Opening a projection: its manifest, its base segment and its delta segments.
use super::block::{self, LazyGroupView, LazyRowGroup};
use super::delta;
use super::error::ColumnarError;
use super::group::{self, GroupView, RowGroup};
use super::indexed::{self, LazyDeltaSegment, LazyProjection, LazyView};
use super::lazy_delta::{self, DeltaTotals, LAZY_DELTA_HEADER_BYTES};
use super::lazy_segment::{self, FooterRange, LAZY_SEGMENT_HEADER_BYTES};
use super::manifest::{self, Manifest, ManifestView};
use super::metadata::{
    self, ColumnarDeltaSegmentMetadata, ColumnarProjectionMetadata, DeltaSegmentView,
    IncrementalView, MetadataView, LAZY_FORMAT_VERSION,
};
use super::overlay::{
    self, DeltaDescriptor, DeltaMutation, DeltaOverlay, DeltaRowRef, OverlayView,
    ProjectedDeltaMutation,
};
use super::projection::{ColumnarProjection, IndexedView, ProjectionView};
use super::reader;
use super::scan;
use super::segment::{self, DecodedSegment};
use super::sound;
use crate::bytes;
use crate::ids::{ColumnarSegmentId, SchemaFingerprint, StorageDataVersion, TableId};
use crate::value::{ScalarValue, ScalarView};
use vstd::prelude::*;

verus! {

/// The bytes of a file, or why they could not be read.
pub type FileBytes = Result<Vec<u8>, ColumnarError>;

/// The parts of an indexed segment's file, or why they could not be read.
#[derive(Debug)]
pub struct FileParts {
    pub file_bytes: Result<u64, ColumnarError>,
    pub header: FileBytes,
    pub footer: FileBytes,
}

// ---------------------------------------------------------------------------
// Manifests
// ---------------------------------------------------------------------------
/// The manifest of a projection of an expected table.
pub open spec fn manifest_opened(
    s: Seq<u8>,
    table_id: Option<TableId>,
    fingerprint: Option<SchemaFingerprint>,
) -> Result<ManifestView, ColumnarError> {
    match manifest::manifest_of(s) {
        Err(error) => Err(error),
        Ok(known) => if table_id is Some && known.metadata.table_id != table_id->0 {
            Err(ColumnarError::IdentityMismatch("table"))
        } else if fingerprint is Some && known.metadata.schema_fingerprint != fingerprint->0 {
            Err(ColumnarError::IdentityMismatch("schema fingerprint"))
        } else {
            Ok(known)
        },
    }
}

/// Checks the length of a file that is read as a whole.
pub fn check_file_size(file_bytes: u64) -> (checked: Result<(), ColumnarError>)
    ensures
        checked == if file_bytes > lazy_segment::MAX_FILE_BYTES {
            Err::<(), ColumnarError>(
                ColumnarError::ResourceLimit { resource: "file bytes", value: file_bytes },
            )
        } else {
            Ok(())
        },
{
    if file_bytes > lazy_segment::MAX_FILE_BYTES {
        return Err(ColumnarError::ResourceLimit { resource: "file bytes", value: file_bytes });
    }
    Ok(())
}

/// Whether a manifest is that of an indexed projection. Others are read as a whole.
pub fn is_indexed(known: &Manifest) -> (indexed: bool)
    ensures
        indexed == (known@.version == LAZY_FORMAT_VERSION),
{
    known.version == LAZY_FORMAT_VERSION
}

/// Reads the manifest of a projection of an expected table.
pub fn open_manifest(
    s: &[u8],
    table_id: Option<TableId>,
    fingerprint: Option<SchemaFingerprint>,
) -> (opened: Result<Manifest, ColumnarError>)
    ensures
        match manifest_opened(s@, table_id, fingerprint) {
            Ok(known) => opened is Ok && opened->Ok_0@ == known,
            Err(error) => opened == Err::<Manifest, ColumnarError>(error),
        },
{
    let known: Manifest = manifest::decode_manifest(s)?;
    if let Some(expected) = table_id {
        if known.metadata.table_id != expected {
            return Err(ColumnarError::IdentityMismatch("table"));
        }
    }
    if let Some(expected) = fingerprint {
        if !known.metadata.schema_fingerprint.same_as(&expected) {
            return Err(ColumnarError::IdentityMismatch("schema fingerprint"));
        }
    }
    Ok(known)
}

/// Whether a delta segment follows a place in the change stream.
pub open spec fn follows(delta: DeltaSegmentView, frontier: StorageDataVersion) -> bool {
    delta.before == frontier && delta.after.0 > delta.before.0
}

fn check_follows(delta: &ColumnarDeltaSegmentMetadata, frontier: StorageDataVersion) -> (valid:
    Result<(), ColumnarError>)
    ensures
        if follows(delta@, frontier) {
            valid is Ok
        } else {
            valid == Err::<(), ColumnarError>(
                ColumnarError::Corrupt("broken delta frontier chain"),
            )
        },
{
    if delta.before != frontier || delta.after.0 <= delta.before.0 {
        return Err(ColumnarError::Corrupt("broken delta frontier chain"));
    }
    Ok(())
}

/// Whether the counts in a manifest are those of an overlay at a place in the
/// change stream.
pub open spec fn counts_fit(
    incremental: IncrementalView,
    frontier: StorageDataVersion,
    live: nat,
    suppressed: nat,
) -> bool {
    &&& frontier == incremental.applied_frontier
    &&& live == incremental.delta_live_row_count
    &&& suppressed == incremental.suppressed_version_count
}

// ---------------------------------------------------------------------------
// Segments in memory
// ---------------------------------------------------------------------------
/// The base segment of a projection, out of its file.
pub open spec fn eager_base(known: ManifestView, file: FileBytes, path: String) -> Result<
    Seq<GroupView>,
    ColumnarError,
> {
    match file {
        Err(error) => Err(error),
        Ok(s) => if s@.len() != known.metadata.segment_bytes {
            Err(ColumnarError::Corrupt("segment length differs from manifest"))
        } else if s@.len() < 4 {
            Err(ColumnarError::InvalidFormat("file is missing checksum"))
        } else if bytes::u32_at(s@, s@.len() - 4) != known.segment_checksum {
            Err(ColumnarError::ChecksumMismatch { path })
        } else {
            match segment::segment_of(s@, known.metadata) {
                Err(error) => Err(error),
                Ok((segment_id, groups)) => if segment_id != known.segment_id {
                    Err(ColumnarError::IdentityMismatch("segment"))
                } else {
                    Ok(groups)
                },
            }
        },
    }
}

/// The row changes of a delta segment, out of its file.
pub open spec fn eager_delta(
    known: MetadataView,
    expected: DeltaSegmentView,
    file: FileBytes,
    path: String,
) -> Result<Seq<DeltaMutation<Seq<ScalarView>>>, ColumnarError> {
    match file {
        Err(error) => Err(error),
        Ok(s) => if s@.len() != expected.bytes {
            Err(ColumnarError::ChecksumMismatch { path })
        } else if s@.len() < 4 {
            Err(ColumnarError::InvalidFormat("file is missing checksum"))
        } else if bytes::u32_at(s@, s@.len() - 4) != expected.checksum {
            Err(ColumnarError::ChecksumMismatch { path })
        } else {
            delta::delta_of(s@, known, expected)
        },
    }
}

/// The overlay of the first `n` delta segments, and the place in the change
/// stream behind them.
pub open spec fn eager_deltas(
    known: MetadataView,
    deltas: Seq<DeltaSegmentView>,
    files: Seq<FileBytes>,
    paths: Seq<String>,
    frontier: StorageDataVersion,
    n: int,
) -> Result<(OverlayView<Seq<ScalarView>>, StorageDataVersion), ColumnarError>
    decreases n,
{
    if n <= 0 {
        Ok((overlay::no_overlay(), frontier))
    } else {
        match eager_deltas(known, deltas, files, paths, frontier, n - 1) {
            Err(error) => Err(error),
            Ok((added, at)) => if !follows(deltas[n - 1], at) {
                Err(ColumnarError::Corrupt("broken delta frontier chain"))
            } else {
                match eager_delta(known, deltas[n - 1], files[n - 1], paths[n]) {
                    Err(error) => Err(error),
                    Ok(mutations) => match overlay::steps(
                        added,
                        mutations,
                        "invalid delta mutation image",
                        mutations.len() as int,
                    ) {
                        Err(error) => Err(error),
                        Ok(next) => Ok((next, deltas[n - 1].after)),
                    },
                }
            },
        }
    }
}

/// The overlay of a projection's delta segments.
pub open spec fn eager_overlay(known: MetadataView, files: Seq<FileBytes>, paths: Seq<String>)
    -> Result<OverlayView<Seq<ScalarView>>, ColumnarError> {
    match known.incremental {
        None => Ok(overlay::no_overlay()),
        Some(incremental) => match eager_deltas(
            known,
            incremental.delta_segments,
            files,
            paths,
            incremental.base_frontier,
            incremental.delta_segments.len() as int,
        ) {
            Err(error) => Err(error),
            Ok((added, frontier)) => if counts_fit(
                incremental,
                frontier,
                added.live_keys.len(),
                added.suppressed.len(),
            ) {
                Ok(added)
            } else {
                Err(ColumnarError::Corrupt("delta manifest statistics mismatch"))
            },
        },
    }
}

/// A projection in memory, out of its files. The base segment's path comes first.
pub open spec fn eager_opened(
    known: ManifestView,
    base: FileBytes,
    deltas: Seq<FileBytes>,
    paths: Seq<String>,
) -> Result<ProjectionView, ColumnarError> {
    match eager_base(known, base, paths[0]) {
        Err(error) => Err(error),
        Ok(groups) => match eager_overlay(known.metadata, deltas, paths) {
            Err(error) => Err(error),
            Ok(added) => Ok(
                ProjectionView {
                    metadata: known.metadata,
                    segment_id: known.segment_id,
                    segment_file: known.segment_file,
                    groups,
                    added,
                    manifest_format_version: known.version,
                    base_format_version: known.base_format_version,
                    delta_format_version: known.delta_format_version,
                    lazy: None,
                },
            ),
        },
    }
}

/// Whether opening ended as it must.
pub open spec fn opens(
    result: Result<ColumnarProjection, ColumnarError>,
    expected: Result<ProjectionView, ColumnarError>,
) -> bool {
    match expected {
        Ok(view) => result is Ok && result->Ok_0@ == view && result->Ok_0.wf(),
        Err(error) => result == Err::<ColumnarProjection, ColumnarError>(error),
    }
}

proof fn lemma_eager_deltas_stop(
    known: MetadataView,
    deltas: Seq<DeltaSegmentView>,
    files: Seq<FileBytes>,
    paths: Seq<String>,
    frontier: StorageDataVersion,
    n: int,
    m: int,
)
    requires
        n <= m,
        eager_deltas(known, deltas, files, paths, frontier, n) is Err,
    ensures
        eager_deltas(known, deltas, files, paths, frontier, m) == eager_deltas(
            known,
            deltas,
            files,
            paths,
            frontier,
            n,
        ),
    decreases m - n,
{
    if n < m {
        lemma_eager_deltas_stop(known, deltas, files, paths, frontier, n, m - 1);
    }
}

fn open_eager_base(known: &Manifest, file: &FileBytes, path: &String) -> (opened: Result<
    Vec<RowGroup>,
    ColumnarError,
>)
    ensures
        match eager_base(known@, *file, *path) {
            Ok(groups) => {
                &&& opened is Ok
                &&& group::groups_view(opened->Ok_0@) == groups
                &&& forall|i: int|
                    0 <= i < opened->Ok_0@.len() ==> scan::group_sound(
                        (#[trigger] opened->Ok_0@[i])@,
                    )
            },
            Err(error) => opened == Err::<Vec<RowGroup>, ColumnarError>(error),
        },
{
    let s: &Vec<u8> = match file {
        Ok(s) => s,
        Err(error) => {
            return Err(error.same());
        },
    };
    if s.len() as u64 != known.metadata.segment_bytes {
        return Err(ColumnarError::Corrupt("segment length differs from manifest"));
    }
    let stored: u32 = reader::stored_checksum(s.as_slice())?;
    if stored != known.segment_checksum {
        return Err(ColumnarError::ChecksumMismatch { path: path.clone() });
    }
    proof {
        sound::law_read_segment_is_sound(s@, known@.metadata);
    }
    let decoded: DecodedSegment = segment::decode_segment(s.as_slice(), &known.metadata)?;
    if decoded.segment_id != known.segment_id {
        return Err(ColumnarError::IdentityMismatch("segment"));
    }
    let ghost shown = group::groups_view(decoded.row_groups@);
    assert forall|i: int| 0 <= i < decoded.row_groups@.len() implies scan::group_sound(
        (#[trigger] decoded.row_groups@[i])@,
    ) by {
        assert(scan::group_sound(shown[i]));
    }
    Ok(decoded.row_groups)
}

fn open_eager_delta(
    metadata: &ColumnarProjectionMetadata,
    expected: &ColumnarDeltaSegmentMetadata,
    file: &FileBytes,
    path: &String,
) -> (opened: Result<Vec<ProjectedDeltaMutation>, ColumnarError>)
    ensures
        match eager_delta(metadata@, expected@, *file, *path) {
            Ok(mutations) => {
                &&& opened is Ok
                &&& overlay::mutations_view(opened->Ok_0@) == mutations
            },
            Err(error) => opened == Err::<Vec<ProjectedDeltaMutation>, ColumnarError>(error),
        },
{
    let s: &Vec<u8> = match file {
        Ok(s) => s,
        Err(error) => {
            return Err(error.same());
        },
    };
    if s.len() as u64 != expected.bytes {
        return Err(ColumnarError::ChecksumMismatch { path: path.clone() });
    }
    let stored: u32 = reader::stored_checksum(s.as_slice())?;
    if stored != expected.checksum {
        return Err(ColumnarError::ChecksumMismatch { path: path.clone() });
    }
    delta::decode_delta(s.as_slice(), metadata, expected)
}

fn open_eager_overlay(
    metadata: &ColumnarProjectionMetadata,
    files: &[FileBytes],
    paths: &[String],
) -> (opened: Result<DeltaOverlay<Vec<ScalarValue>>, ColumnarError>)
    requires
        metadata.incremental matches Some(incremental) ==> {
            &&& files@.len() == incremental.delta_segments@.len()
            &&& paths@.len() == files@.len() + 1
        },
    ensures
        match eager_overlay(metadata@, files@, paths@) {
            Ok(added) => {
                &&& opened is Ok
                &&& overlay::values_overlay(opened->Ok_0@) == added
                &&& overlay::overlay_kept(opened->Ok_0@)
                &&& scan::rows_sound(added.live_rows, metadata@.columns.len())
            },
            Err(error) => opened == Err::<DeltaOverlay<Vec<ScalarValue>>, ColumnarError>(error),
        },
{
    let mut added: DeltaOverlay<Vec<ScalarValue>> = DeltaOverlay::new();
    assert(overlay::values_overlay(added@).live_rows =~= Seq::empty());
    let incremental = match &metadata.incremental {
        None => {
            return Ok(added);
        },
        Some(incremental) => incremental,
    };
    let ghost known = metadata@;
    let ghost deltas = metadata::deltas_view(incremental.delta_segments@);
    let ghost width = known.columns.len();
    let ghost n = deltas.len() as int;
    let ghost start = incremental.base_frontier;
    let mut frontier: StorageDataVersion = incremental.base_frontier;
    let mut i: usize = 0;
    while i < incremental.delta_segments.len()
        invariant
            i <= incremental.delta_segments@.len(),
            known == metadata@,
            known.incremental == Some(incremental@),
            deltas == metadata::deltas_view(incremental.delta_segments@),
            n == deltas.len(),
            width == known.columns.len(),
            start == incremental.base_frontier,
            files@.len() == deltas.len(),
            paths@.len() == files@.len() + 1,
            overlay::overlay_kept(added@),
            scan::rows_sound(overlay::values_overlay(added@).live_rows, width),
            eager_deltas(known, deltas, files@, paths@, start, i as int) == Ok::<
                (OverlayView<Seq<ScalarView>>, StorageDataVersion),
                ColumnarError,
            >((overlay::values_overlay(added@), frontier)),
        decreases incremental.delta_segments@.len() - i,
    {
        let expected: &ColumnarDeltaSegmentMetadata = &incremental.delta_segments[i];
        let ghost before = overlay::values_overlay(added@);
        proof {
            assert(deltas[i as int] == expected@);
            if eager_deltas(known, deltas, files@, paths@, start, i + 1) is Err {
                lemma_eager_deltas_stop(known, deltas, files@, paths@, start, i + 1, n);
            }
        }
        check_follows(expected, frontier)?;
        let mutations: Vec<ProjectedDeltaMutation> = open_eager_delta(
            metadata,
            expected,
            &files[i],
            &paths[i + 1],
        )?;
        let ghost list = overlay::mutations_view(mutations@);
        proof {
            let s = files@[i as int]->Ok_0@;
            sound::law_read_delta_is_sound(s, known, expected@);
            lemma_values_kept(added@);
            sound::lemma_steps_keep_widths(
                before,
                list,
                "invalid delta mutation image",
                width,
                list.len() as int,
            );
        }
        overlay::apply_overlay(&mut added, mutations.as_slice())?;
        frontier = expected.after;
        i = i + 1;
    }
    if frontier != incremental.applied_frontier || added.live_keys.len() as u64
        != incremental.delta_live_row_count || added.suppressed.len() as u64
        != incremental.suppressed_version_count {
        return Err(ColumnarError::Corrupt("delta manifest statistics mismatch"));
    }
    Ok(added)
}

proof fn lemma_values_kept(added: OverlayView<Vec<ScalarValue>>)
    requires
        overlay::overlay_kept(added),
    ensures
        overlay::overlay_kept(overlay::values_overlay(added)),
{
    let shown = overlay::values_overlay(added);
    assert forall|key: crate::change_stream::types::StorageVersionKey| shown.suppressed.contains(
        key,
    ) implies !#[trigger] shown.live_keys.contains(key) by {
        assert(added.suppressed.contains(key));
        assert(!added.live_keys.contains(key));
    }
}

/// Opens a projection whose segments are read into memory. There is a file for
/// each delta segment, and a path for each segment, the base segment's first.
pub fn open_eager(
    known: Manifest,
    base: FileBytes,
    deltas: Vec<FileBytes>,
    paths: Vec<String>,
) -> (opened: Result<ColumnarProjection, ColumnarError>)
    requires
        paths@.len() == deltas@.len() + 1,
        known.metadata.incremental matches Some(incremental) ==> deltas@.len()
            == incremental.delta_segments@.len(),
    ensures
        opens(opened, eager_opened(known@, base, deltas@, paths@)),
{
    let row_groups: Vec<RowGroup> = open_eager_base(&known, &base, &paths[0])?;
    let added: DeltaOverlay<Vec<ScalarValue>> = open_eager_overlay(
        &known.metadata,
        deltas.as_slice(),
        paths.as_slice(),
    )?;
    Ok(
        ColumnarProjection {
            metadata: known.metadata,
            segment_id: known.segment_id,
            segment_file: known.segment_file,
            row_groups,
            overlay: added,
            manifest_format_version: known.version,
            base_format_version: known.base_format_version,
            delta_format_version: known.delta_format_version,
            lazy: None,
        },
    )
}

// ---------------------------------------------------------------------------
// Indexed segments
// ---------------------------------------------------------------------------
/// The directory of a base segment, and how many bytes it took.
pub open spec fn lazy_base(known: ManifestView, parts: FileParts, path: String) -> Result<
    (Seq<LazyGroupView>, u64),
    ColumnarError,
> {
    match parts.file_bytes {
        Err(error) => Err(error),
        Ok(file_bytes) => if file_bytes != known.metadata.segment_bytes {
            Err(ColumnarError::Corrupt("segment length differs from manifest"))
        } else {
            match lazy_segment::size_error(file_bytes) {
                Some(error) => Err(error),
                None => match parts.header {
                    Err(error) => Err(error),
                    Ok(header) => match lazy_segment::footer_range_of(
                        header@,
                        known.metadata,
                        known.segment_id,
                        known.segment_checksum,
                        file_bytes,
                    ) {
                        Err(error) => Err(error),
                        Ok(range) => lazy_base_footer(known, range, parts.footer, path),
                    },
                },
            }
        },
    }
}

/// The directory in the footer of a base segment.
pub open spec fn lazy_base_footer(
    known: ManifestView,
    range: FooterRange,
    footer: FileBytes,
    path: String,
) -> Result<(Seq<LazyGroupView>, u64), ColumnarError> {
    match footer {
        Err(error) => Err(error),
        Ok(s) => match lazy_segment::footer_check(s@, known.segment_checksum) {
            Err(error) => Err(error),
            Ok(same) => if !same {
                Err(ColumnarError::ChecksumMismatch { path })
            } else {
                match lazy_segment::footer_read(
                    reader::payload_of(s@),
                    known.metadata,
                    known.segment_id,
                    range,
                ) {
                    Err(error) => Err(error),
                    Ok(groups) => Ok(
                        (groups, scan::grown(range.length, LAZY_SEGMENT_HEADER_BYTES as int)),
                    ),
                }
            },
        },
    }
}

/// The directory and the row changes of a delta segment, and how many bytes they
/// took.
pub open spec fn lazy_delta_opened(
    known: MetadataView,
    expected: DeltaSegmentView,
    parts: FileParts,
    path: String,
) -> Result<(Seq<LazyGroupView>, Seq<DeltaDescriptor>, u64), ColumnarError> {
    match parts.file_bytes {
        Err(error) => Err(error),
        Ok(file_bytes) => match lazy_delta::delta_size_error(file_bytes, expected) {
            Some(error) => Err(error),
            None => match parts.header {
                Err(error) => Err(error),
                Ok(header) => match lazy_delta::totals_of(header@, known, expected, file_bytes) {
                    Err(error) => Err(error),
                    Ok(totals) => lazy_delta_footer(known, expected, totals, parts.footer, path),
                },
            },
        },
    }
}

/// The directory and the row changes in the footer of a delta segment.
pub open spec fn lazy_delta_footer(
    known: MetadataView,
    expected: DeltaSegmentView,
    totals: DeltaTotals,
    footer: FileBytes,
    path: String,
) -> Result<(Seq<LazyGroupView>, Seq<DeltaDescriptor>, u64), ColumnarError> {
    match footer {
        Err(error) => Err(error),
        Ok(s) => match lazy_segment::footer_check(s@, expected.checksum) {
            Err(error) => Err(error),
            Ok(same) => if !same {
                Err(ColumnarError::ChecksumMismatch { path })
            } else {
                match lazy_delta::footer_read(reader::payload_of(s@), known, totals) {
                    Err(error) => Err(error),
                    Ok((groups, list)) => Ok(
                        (
                            groups,
                            list,
                            scan::grown(totals.footer.length, LAZY_DELTA_HEADER_BYTES as int),
                        ),
                    ),
                }
            },
        },
    }
}

/// Delta segments that were opened: the place in the change stream behind them,
/// their directories, the overlay, and how many bytes they took.
pub struct DeltasOpened {
    pub frontier: StorageDataVersion,
    pub groups: Seq<Seq<LazyGroupView>>,
    pub added: OverlayView<DeltaRowRef>,
    pub resident: u64,
    pub descriptor_bytes: u64,
}

/// How many bytes a count is left with.
pub open spec fn less(count: u64, by: int) -> u64 {
    if count < by {
        0
    } else {
        (count - by) as u64
    }
}

/// How many bytes so many row changes take in memory.
pub open spec fn descriptors_size(count: nat) -> int {
    let size = count * vstd::layout::size_of::<DeltaDescriptor>();
    if size > u64::MAX {
        u64::MAX as int
    } else {
        size as int
    }
}

/// The first `n` delta segments.
pub open spec fn lazy_deltas(
    known: MetadataView,
    deltas: Seq<DeltaSegmentView>,
    parts: Seq<FileParts>,
    paths: Seq<String>,
    start: DeltasOpened,
    n: int,
) -> Result<DeltasOpened, ColumnarError>
    decreases n,
{
    if n <= 0 {
        Ok(start)
    } else {
        match lazy_deltas(known, deltas, parts, paths, start, n - 1) {
            Err(error) => Err(error),
            Ok(so_far) => if !follows(deltas[n - 1], so_far.frontier) {
                Err(ColumnarError::Corrupt("broken delta frontier chain"))
            } else {
                match lazy_delta_opened(known, deltas[n - 1], parts[n - 1], paths[n]) {
                    Err(error) => Err(error),
                    Ok((groups, list, taken)) => if n - 1 >= u32::MAX {
                        Err(
                            ColumnarError::ResourceLimit {
                                resource: "delta segment count",
                                value: (n - 1) as u64,
                            },
                        )
                    } else {
                        match overlay::steps(
                            so_far.added,
                            overlay::all_located(list, (n - 1) as u32),
                            "invalid lazy delta mutation image",
                            list.len() as int,
                        ) {
                            Err(error) => Err(error),
                            Ok(next) => Ok(
                                DeltasOpened {
                                    frontier: deltas[n - 1].after,
                                    groups: so_far.groups.push(groups),
                                    added: next,
                                    resident: scan::grown(
                                        scan::grown(so_far.resident, taken as int),
                                        descriptors_size(list.len()),
                                    ),
                                    descriptor_bytes: scan::grown(
                                        so_far.descriptor_bytes,
                                        less(taken, LAZY_DELTA_HEADER_BYTES as int) as int,
                                    ),
                                },
                            ),
                        }
                    },
                }
            },
        }
    }
}

/// What is known before the first delta segment.
pub open spec fn no_deltas(frontier: StorageDataVersion, resident: u64) -> DeltasOpened {
    DeltasOpened {
        frontier,
        groups: Seq::empty(),
        added: overlay::no_overlay(),
        resident,
        descriptor_bytes: 0,
    }
}

/// A projection's delta segments.
pub open spec fn lazy_overlay(
    known: MetadataView,
    parts: Seq<FileParts>,
    paths: Seq<String>,
    resident: u64,
) -> Result<DeltasOpened, ColumnarError> {
    match known.incremental {
        None => Ok(no_deltas(StorageDataVersion(0), resident)),
        Some(incremental) => match lazy_deltas(
            known,
            incremental.delta_segments,
            parts,
            paths,
            no_deltas(incremental.base_frontier, resident),
            incremental.delta_segments.len() as int,
        ) {
            Err(error) => Err(error),
            Ok(all) => if counts_fit(
                incremental,
                all.frontier,
                all.added.live_keys.len(),
                all.added.suppressed.len(),
            ) {
                Ok(all)
            } else {
                Err(ColumnarError::Corrupt("delta manifest statistics mismatch"))
            },
        },
    }
}

/// An indexed projection, out of parts of its files. The base segment's path
/// comes first.
pub open spec fn lazy_opened(
    known: ManifestView,
    manifest_bytes: u64,
    base: FileParts,
    deltas: Seq<FileParts>,
    paths: Seq<String>,
) -> Result<ProjectionView, ColumnarError> {
    match lazy_base(known, base, paths[0]) {
        Err(error) => Err(error),
        Ok((groups, taken)) => match lazy_overlay(
            known.metadata,
            deltas,
            paths,
            scan::grown(manifest_bytes, taken as int),
        ) {
            Err(error) => Err(error),
            Ok(all) => Ok(
                ProjectionView {
                    metadata: known.metadata,
                    segment_id: known.segment_id,
                    segment_file: known.segment_file,
                    groups: Seq::empty(),
                    added: overlay::no_overlay(),
                    manifest_format_version: known.version,
                    base_format_version: known.base_format_version,
                    delta_format_version: known.delta_format_version,
                    lazy: Some(
                        IndexedView {
                            parts: LazyView {
                                base_groups: groups,
                                deltas: all.groups,
                                added: all.added,
                                paths: lazy_paths(known.metadata, paths),
                            },
                            resident_metadata_bytes: all.resident,
                            base_index_bytes: less(taken, LAZY_SEGMENT_HEADER_BYTES as int),
                            delta_descriptor_bytes: all.descriptor_bytes,
                        },
                    ),
                },
            ),
        },
    }
}

/// The paths of a projection's segments: a snapshot projection has only the base
/// segment.
pub open spec fn lazy_paths(known: MetadataView, paths: Seq<String>) -> Seq<String> {
    if known.incremental is None {
        paths.take(1)
    } else {
        paths
    }
}

proof fn lemma_lazy_deltas_stop(
    known: MetadataView,
    deltas: Seq<DeltaSegmentView>,
    parts: Seq<FileParts>,
    paths: Seq<String>,
    start: DeltasOpened,
    n: int,
    m: int,
)
    requires
        n <= m,
        lazy_deltas(known, deltas, parts, paths, start, n) is Err,
    ensures
        lazy_deltas(known, deltas, parts, paths, start, m) == lazy_deltas(
            known,
            deltas,
            parts,
            paths,
            start,
            n,
        ),
    decreases m - n,
{
    if n < m {
        lemma_lazy_deltas_stop(known, deltas, parts, paths, start, n, m - 1);
    }
}

/// Opens an indexed base segment, out of parts of its file.
pub fn open_lazy_segment(known: &Manifest, parts: &FileParts, path: &String) -> (opened: Result<
    (Vec<LazyRowGroup>, u64),
    ColumnarError,
>)
    ensures
        match lazy_base(known@, *parts, *path) {
            Ok((groups, taken)) => {
                &&& opened is Ok
                &&& block::lazy_groups_view(opened->Ok_0.0@) == groups
                &&& opened->Ok_0.1 == taken
                &&& forall|i: int| 0 <= i < groups.len() ==> (#[trigger] groups[i]).rows > 0
            },
            Err(error) => opened == Err::<(Vec<LazyRowGroup>, u64), ColumnarError>(error),
        },
{
    let file_bytes: u64 = match &parts.file_bytes {
        Ok(file_bytes) => *file_bytes,
        Err(error) => {
            return Err(error.same());
        },
    };
    if file_bytes != known.metadata.segment_bytes {
        return Err(ColumnarError::Corrupt("segment length differs from manifest"));
    }
    lazy_segment::check_segment_size(file_bytes)?;
    let header: &Vec<u8> = match &parts.header {
        Ok(header) => header,
        Err(error) => {
            return Err(error.same());
        },
    };
    let range: FooterRange = lazy_segment::decode_lazy_segment_header(
        header.as_slice(),
        &known.metadata,
        known.segment_id,
        known.segment_checksum,
        file_bytes,
    )?;
    let footer: &Vec<u8> = match &parts.footer {
        Ok(footer) => footer,
        Err(error) => {
            return Err(error.same());
        },
    };
    let same: bool = lazy_segment::check_footer(footer.as_slice(), known.segment_checksum)?;
    if !same {
        return Err(ColumnarError::ChecksumMismatch { path: path.clone() });
    }
    proof {
        lemma_footer_rows(
            reader::payload_of(footer@),
            known@.metadata,
            known.segment_id,
            range,
        );
    }
    let groups: Vec<LazyRowGroup> = lazy_segment::decode_lazy_segment_footer(
        footer.as_slice(),
        &known.metadata,
        known.segment_id,
        range,
    )?;
    Ok((groups, range.length.saturating_add(LAZY_SEGMENT_HEADER_BYTES)))
}

proof fn lemma_footer_rows(
    s: Seq<u8>,
    known: MetadataView,
    segment_id: ColumnarSegmentId,
    range: FooterRange,
)
    ensures
        lazy_segment::footer_read(s, known, segment_id, range) matches Ok(groups) ==> forall|i: int|
            0 <= i < groups.len() ==> (#[trigger] groups[i]).rows > 0,
{
    if lazy_segment::footer_read(s, known, segment_id, range) is Ok {
        let (_, at) = reader::magic_read(s, 0, lazy_segment::footer_magic())->Ok_0;
        let (_, at2) = lazy_segment::footer_head_read(s, at, known, segment_id)->Ok_0;
        sound::lemma_directories_rows(
            s,
            at2,
            known.columns,
            known.incremental is Some,
            "indexed row count overflow",
            known.row_group_count as int,
        );
    }
}

/// Opens an indexed delta segment, out of parts of its file.
pub fn open_lazy_delta(
    metadata: &ColumnarProjectionMetadata,
    expected: &ColumnarDeltaSegmentMetadata,
    parts: &FileParts,
    path: &String,
) -> (opened: Result<(Vec<LazyRowGroup>, Vec<DeltaDescriptor>, u64), ColumnarError>)
    ensures
        match lazy_delta_opened(metadata@, expected@, *parts, *path) {
            Ok((groups, list, taken)) => {
                &&& opened is Ok
                &&& block::lazy_groups_view(opened->Ok_0.0@) == groups
                &&& opened->Ok_0.1@ == list
                &&& opened->Ok_0.2 == taken
            },
            Err(error) => opened == Err::<
                (Vec<LazyRowGroup>, Vec<DeltaDescriptor>, u64),
                ColumnarError,
            >(error),
        },
{
    let file_bytes: u64 = match &parts.file_bytes {
        Ok(file_bytes) => *file_bytes,
        Err(error) => {
            return Err(error.same());
        },
    };
    lazy_delta::check_delta_size(file_bytes, expected)?;
    let header: &Vec<u8> = match &parts.header {
        Ok(header) => header,
        Err(error) => {
            return Err(error.same());
        },
    };
    let totals: DeltaTotals = lazy_delta::decode_lazy_delta_header(
        header.as_slice(),
        metadata,
        expected,
        file_bytes,
    )?;
    let footer: &Vec<u8> = match &parts.footer {
        Ok(footer) => footer,
        Err(error) => {
            return Err(error.same());
        },
    };
    let same: bool = lazy_segment::check_footer(footer.as_slice(), expected.checksum)?;
    if !same {
        return Err(ColumnarError::ChecksumMismatch { path: path.clone() });
    }
    let (groups, list) = lazy_delta::decode_lazy_delta_footer(
        footer.as_slice(),
        metadata,
        &totals,
    )?;
    Ok((groups, list, totals.footer.length.saturating_add(LAZY_DELTA_HEADER_BYTES)))
}

/// Delta segments that were opened.
struct OpenedDeltas {
    frontier: StorageDataVersion,
    deltas: Vec<LazyDeltaSegment>,
    added: DeltaOverlay<DeltaRowRef>,
    resident: u64,
    descriptor_bytes: u64,
}

impl View for OpenedDeltas {
    type V = DeltasOpened;

    closed spec fn view(&self) -> DeltasOpened {
        DeltasOpened {
            frontier: self.frontier,
            groups: indexed::delta_groups_view(self.deltas@),
            added: self.added@,
            resident: self.resident,
            descriptor_bytes: self.descriptor_bytes,
        }
    }
}

fn size_of_descriptors(count: usize) -> (size: u64)
    ensures
        size == descriptors_size(count as nat),
{
    let one: usize = core::mem::size_of::<DeltaDescriptor>();
    let ghost product = count as nat * one as nat;
    assert(product == count as nat * vstd::layout::size_of::<DeltaDescriptor>());
    let wide: u128 = count as u128;
    let unit: u128 = one as u128;
    assert(wide * unit <= u128::MAX) by (nonlinear_arith)
        requires
            wide <= u64::MAX,
            unit <= u64::MAX,
    ;
    let total: u128 = wide * unit;
    if total > u64::MAX as u128 {
        u64::MAX
    } else {
        total as u64
    }
}

fn open_one_delta(
    metadata: &ColumnarProjectionMetadata,
    expected: &ColumnarDeltaSegmentMetadata,
    parts: &FileParts,
    path: &String,
    ordinal: usize,
    so_far: &mut OpenedDeltas,
    Ghost(start): Ghost<DeltasOpened>,
    Ghost(deltas): Ghost<Seq<DeltaSegmentView>>,
    Ghost(all_parts): Ghost<Seq<FileParts>>,
    Ghost(paths): Ghost<Seq<String>>,
) -> (opened: Result<(), ColumnarError>)
    requires
        overlay::overlay_kept(old(so_far).added@),
        ordinal < deltas.len(),
        ordinal < all_parts.len(),
        ordinal + 1 < paths.len(),
        deltas[ordinal as int] == expected@,
        all_parts[ordinal as int] == *parts,
        paths[ordinal + 1] == *path,
        lazy_deltas(metadata@, deltas, all_parts, paths, start, ordinal as int) == Ok::<
            DeltasOpened,
            ColumnarError,
        >(old(so_far)@),
    ensures
        match lazy_deltas(metadata@, deltas, all_parts, paths, start, ordinal + 1) {
            Ok(next) => {
                &&& opened is Ok
                &&& final(so_far)@ == next
                &&& overlay::overlay_kept(final(so_far).added@)
                &&& final(so_far).deltas@.len() == old(so_far).deltas@.len() + 1
                &&& ordinal < u32::MAX
            },
            Err(error) => opened == Err::<(), ColumnarError>(error),
        },
{
    check_follows(expected, so_far.frontier)?;
    let (groups, list, taken) = open_lazy_delta(metadata, expected, parts, path)?;
    if ordinal as u64 >= u32::MAX as u64 {
        return Err(
            ColumnarError::ResourceLimit {
                resource: "delta segment count",
                value: ordinal as u64,
            },
        );
    }
    overlay::apply_lazy_descriptors(&mut so_far.added, list.as_slice(), ordinal as u32)?;
    so_far.resident = so_far.resident.saturating_add(taken).saturating_add(
        size_of_descriptors(list.len()),
    );
    so_far.descriptor_bytes = so_far.descriptor_bytes.saturating_add(
        taken.saturating_sub(LAZY_DELTA_HEADER_BYTES),
    );
    let ghost before = indexed::delta_groups_view(so_far.deltas@);
    let ghost last = block::lazy_groups_view(groups@);
    so_far.deltas.push(LazyDeltaSegment { groups });
    assert(indexed::delta_groups_view(so_far.deltas@) =~= before.push(last));
    so_far.frontier = expected.after;
    Ok(())
}

fn open_lazy_overlay(
    metadata: &ColumnarProjectionMetadata,
    parts: &[FileParts],
    paths: &[String],
    resident: u64,
) -> (opened: Result<OpenedDeltas, ColumnarError>)
    requires
        metadata.incremental matches Some(incremental) ==> {
            &&& parts@.len() == incremental.delta_segments@.len()
            &&& paths@.len() == parts@.len() + 1
        },
    ensures
        match lazy_overlay(metadata@, parts@, paths@, resident) {
            Ok(all) => {
                &&& opened is Ok
                &&& opened->Ok_0@ == all
                &&& overlay::overlay_kept(opened->Ok_0.added@)
                &&& opened->Ok_0.deltas@.len() <= u32::MAX
                &&& match metadata.incremental {
                    Some(incremental) => opened->Ok_0.deltas@.len()
                        == incremental.delta_segments@.len(),
                    None => opened->Ok_0.deltas@.len() == 0,
                }
            },
            Err(error) => opened == Err::<OpenedDeltas, ColumnarError>(error),
        },
{
    let none: Vec<LazyDeltaSegment> = Vec::new();
    assert(indexed::delta_groups_view(none@) =~= Seq::empty());
    let incremental = match &metadata.incremental {
        None => {
            return Ok(
                OpenedDeltas {
                    frontier: StorageDataVersion(0),
                    deltas: none,
                    added: DeltaOverlay::new(),
                    resident,
                    descriptor_bytes: 0,
                },
            );
        },
        Some(incremental) => incremental,
    };
    let mut so_far: OpenedDeltas = OpenedDeltas {
        frontier: incremental.base_frontier,
        deltas: none,
        added: DeltaOverlay::new(),
        resident,
        descriptor_bytes: 0,
    };
    let ghost deltas = metadata::deltas_view(incremental.delta_segments@);
    let ghost start = no_deltas(incremental.base_frontier, resident);
    let ghost n = deltas.len() as int;
    let mut i: usize = 0;
    while i < incremental.delta_segments.len()
        invariant
            i <= incremental.delta_segments@.len(),
            metadata@.incremental == Some(incremental@),
            deltas == metadata::deltas_view(incremental.delta_segments@),
            start == no_deltas(incremental.base_frontier, resident),
            n == deltas.len(),
            parts@.len() == n,
            paths@.len() == n + 1,
            overlay::overlay_kept(so_far.added@),
            so_far.deltas@.len() == i,
            i <= u32::MAX,
            lazy_deltas(metadata@, deltas, parts@, paths@, start, i as int) == Ok::<
                DeltasOpened,
                ColumnarError,
            >(so_far@),
        decreases incremental.delta_segments@.len() - i,
    {
        proof {
            assert(deltas[i as int] == incremental.delta_segments@[i as int]@);
            if lazy_deltas(metadata@, deltas, parts@, paths@, start, i + 1) is Err {
                lemma_lazy_deltas_stop(metadata@, deltas, parts@, paths@, start, i + 1, n);
            }
        }
        open_one_delta(
            metadata,
            &incremental.delta_segments[i],
            &parts[i],
            &paths[i + 1],
            i,
            &mut so_far,
            Ghost(start),
            Ghost(deltas),
            Ghost(parts@),
            Ghost(paths@),
        )?;
        i = i + 1;
    }
    if so_far.frontier != incremental.applied_frontier || so_far.added.live_keys.len() as u64
        != incremental.delta_live_row_count || so_far.added.suppressed.len() as u64
        != incremental.suppressed_version_count {
        return Err(ColumnarError::Corrupt("delta manifest statistics mismatch"));
    }
    Ok(so_far)
}

fn first_path(paths: &[String]) -> (first: Vec<String>)
    requires
        paths@.len() > 0,
    ensures
        first@ == paths@.take(1),
{
    let mut first: Vec<String> = Vec::new();
    first.push(paths[0].clone());
    assert(first@ =~= paths@.take(1));
    first
}

/// Opens an indexed projection. There are parts of a file for each delta segment,
/// and a path for each segment, the base segment's first.
pub fn open_lazy(
    known: Manifest,
    manifest_bytes: u64,
    base: FileParts,
    deltas: Vec<FileParts>,
    paths: Vec<String>,
) -> (opened: Result<ColumnarProjection, ColumnarError>)
    requires
        paths@.len() == deltas@.len() + 1,
        known.metadata.incremental matches Some(incremental) ==> deltas@.len()
            == incremental.delta_segments@.len(),
    ensures
        opens(opened, lazy_opened(known@, manifest_bytes, base, deltas@, paths@)),
{
    let (base_groups, taken) = open_lazy_segment(&known, &base, &paths[0])?;
    let resident: u64 = manifest_bytes.saturating_add(taken);
    let all: OpenedDeltas = open_lazy_overlay(
        &known.metadata,
        deltas.as_slice(),
        paths.as_slice(),
        resident,
    )?;
    let kept: Vec<String> = if known.metadata.incremental.is_none() {
        first_path(paths.as_slice())
    } else {
        paths
    };
    let row_groups: Vec<RowGroup> = Vec::new();
    let added: DeltaOverlay<Vec<ScalarValue>> = DeltaOverlay::new();
    assert(group::groups_view(row_groups@) =~= Seq::empty());
    assert(overlay::values_overlay(added@).live_rows =~= Seq::empty());
    Ok(
        ColumnarProjection {
            metadata: known.metadata,
            segment_id: known.segment_id,
            segment_file: known.segment_file,
            row_groups,
            overlay: added,
            manifest_format_version: known.version,
            base_format_version: known.base_format_version,
            delta_format_version: known.delta_format_version,
            lazy: Some(
                LazyProjection {
                    base_groups,
                    deltas: all.deltas,
                    overlay: all.added,
                    paths: kept,
                    resident_metadata_bytes: all.resident,
                    base_index_bytes: taken.saturating_sub(LAZY_SEGMENT_HEADER_BYTES),
                    delta_descriptor_bytes: all.descriptor_bytes,
                },
            ),
        },
    )
}

} // verus!
