//! What is known of a projection: its identity, columns, base segment and
//! delta segments.
use super::vector::ColumnarColumnSpec;
use super::version::StorageSnapshotToken;
use crate::bytes;
use crate::ids::{
    ChangeStreamGeneration, ColumnarGeneration, ColumnarProjectionId, ColumnarSegmentId,
    SchemaFingerprint, StorageDataVersion, StorageId, TableId,
};
use crate::text;
use vstd::prelude::*;
use vstd::utf8;

verus! {

/// The format of snapshot projections.
pub const SNAPSHOT_FORMAT_VERSION: u16 = 1;

/// The first format of incremental projections.
pub const INCREMENTAL_FORMAT_VERSION: u16 = 2;

/// The indexed format.
pub const LAZY_FORMAT_VERSION: u16 = 3;

/// The first format of delta segments.
pub const DELTA_FORMAT_VERSION: u16 = 1;

/// The indexed format of delta segments.
pub const LAZY_DELTA_FORMAT_VERSION: u16 = 2;

/// The most row groups, and delta segments, of a projection.
pub const MAX_ROW_GROUPS: u32 = 0x100_0000;

/// How many rows a group has unless the caller says otherwise.
pub const DEFAULT_ROW_GROUP_ROWS: usize = 256;

/// The name of the manifest's file.
pub const MANIFEST_FILE: &'static str = "projection.nbcmanifest";

/// One delta segment of a projection.
#[derive(Debug, Clone, PartialEq, Eq)]
pub struct ColumnarDeltaSegmentMetadata {
    pub file: String,
    pub before: StorageDataVersion,
    pub after: StorageDataVersion,
    pub mutation_count: u64,
    pub after_row_count: u64,
    pub bytes: u64,
    pub checksum: u32,
}

/// How far an incremental projection has followed its change stream.
#[derive(Debug, Clone, PartialEq, Eq)]
pub struct ColumnarIncrementalMetadata {
    pub stream_generation: ChangeStreamGeneration,
    pub base_frontier: StorageDataVersion,
    pub applied_frontier: StorageDataVersion,
    pub delta_segments: Vec<ColumnarDeltaSegmentMetadata>,
    pub delta_mutation_count: u64,
    pub delta_live_row_count: u64,
    pub suppressed_version_count: u64,
    pub delta_bytes: u64,
}

/// What is known of a projection.
#[derive(Debug, Clone, PartialEq, Eq)]
pub struct ColumnarProjectionMetadata {
    pub id: ColumnarProjectionId,
    pub generation: ColumnarGeneration,
    pub table_id: TableId,
    pub source_storage_id: StorageId,
    pub source_token: StorageSnapshotToken,
    pub schema_fingerprint: SchemaFingerprint,
    pub columns: Vec<ColumnarColumnSpec>,
    pub row_count: u64,
    pub row_group_count: u64,
    pub segment_count: u64,
    pub segment_bytes: u64,
    pub incremental: Option<ColumnarIncrementalMetadata>,
}

/// What a delta segment's metadata says. A name is its UTF-8 bytes.
pub struct DeltaSegmentView {
    pub file: Seq<u8>,
    pub before: StorageDataVersion,
    pub after: StorageDataVersion,
    pub mutation_count: u64,
    pub after_row_count: u64,
    pub bytes: u64,
    pub checksum: u32,
}

/// What incremental metadata says.
pub struct IncrementalView {
    pub stream_generation: ChangeStreamGeneration,
    pub base_frontier: StorageDataVersion,
    pub applied_frontier: StorageDataVersion,
    pub delta_segments: Seq<DeltaSegmentView>,
    pub delta_mutation_count: u64,
    pub delta_live_row_count: u64,
    pub suppressed_version_count: u64,
    pub delta_bytes: u64,
}

/// What metadata says.
pub struct MetadataView {
    pub id: ColumnarProjectionId,
    pub generation: ColumnarGeneration,
    pub table_id: TableId,
    pub source_storage_id: StorageId,
    pub source_token: StorageSnapshotToken,
    pub schema_fingerprint: SchemaFingerprint,
    pub columns: Seq<ColumnarColumnSpec>,
    pub row_count: u64,
    pub row_group_count: u64,
    pub segment_count: u64,
    pub segment_bytes: u64,
    pub incremental: Option<IncrementalView>,
}

impl View for ColumnarDeltaSegmentMetadata {
    type V = DeltaSegmentView;

    open spec fn view(&self) -> DeltaSegmentView {
        DeltaSegmentView {
            file: utf8::encode_utf8(self.file@),
            before: self.before,
            after: self.after,
            mutation_count: self.mutation_count,
            after_row_count: self.after_row_count,
            bytes: self.bytes,
            checksum: self.checksum,
        }
    }
}

/// What a list of delta segments says.
pub open spec fn deltas_view(deltas: Seq<ColumnarDeltaSegmentMetadata>) -> Seq<DeltaSegmentView> {
    deltas.map_values(|delta: ColumnarDeltaSegmentMetadata| delta@)
}

impl View for ColumnarIncrementalMetadata {
    type V = IncrementalView;

    open spec fn view(&self) -> IncrementalView {
        IncrementalView {
            stream_generation: self.stream_generation,
            base_frontier: self.base_frontier,
            applied_frontier: self.applied_frontier,
            delta_segments: deltas_view(self.delta_segments@),
            delta_mutation_count: self.delta_mutation_count,
            delta_live_row_count: self.delta_live_row_count,
            suppressed_version_count: self.suppressed_version_count,
            delta_bytes: self.delta_bytes,
        }
    }
}

/// What incremental metadata says, if there is any.
pub open spec fn incremental_view(incremental: Option<ColumnarIncrementalMetadata>) -> Option<
    IncrementalView,
> {
    match incremental {
        Some(known) => Some(known@),
        None => None,
    }
}

impl View for ColumnarProjectionMetadata {
    type V = MetadataView;

    open spec fn view(&self) -> MetadataView {
        MetadataView {
            id: self.id,
            generation: self.generation,
            table_id: self.table_id,
            source_storage_id: self.source_storage_id,
            source_token: self.source_token,
            schema_fingerprint: self.schema_fingerprint,
            columns: self.columns@,
            row_count: self.row_count,
            row_group_count: self.row_group_count,
            segment_count: self.segment_count,
            segment_bytes: self.segment_bytes,
            incremental: incremental_view(self.incremental),
        }
    }
}

/// The identity of one segment of a projection.
#[derive(Debug, Clone, Copy, PartialEq, Eq)]
pub struct SegmentIdentity {
    pub projection_id: ColumnarProjectionId,
    pub generation: ColumnarGeneration,
    pub segment_id: ColumnarSegmentId,
    pub table_id: TableId,
    pub storage_id: StorageId,
    pub fingerprint: SchemaFingerprint,
}

// ---------------------------------------------------------------------------
// File names
// ---------------------------------------------------------------------------
/// The byte that separates the components of a path.
pub const SEPARATOR: u8 = 0x2f;

/// The byte of the component that names the current directory.
pub const DOT: u8 = 0x2e;

/// Whether the piece at `i` is the current directory.
pub open spec fn dot_at(s: Seq<u8>, i: int) -> bool {
    s[i] == DOT && (i + 1 == s.len() || s[i + 1] == SEPARATOR)
}

/// Whether a named component starts at `i`: a piece between separators that is
/// neither empty nor the current directory.
pub open spec fn named_at(s: Seq<u8>, i: int) -> bool {
    s[i] != SEPARATOR && (i == 0 || s[i - 1] == SEPARATOR) && !dot_at(s, i)
}

/// How many named components start in the first `n` bytes of a path.
pub open spec fn named(s: Seq<u8>, n: int) -> int
    decreases n,
{
    if n <= 0 {
        0
    } else {
        named(s, n - 1) + if named_at(s, n - 1) {
            1int
        } else {
            0
        }
    }
}

/// Whether a path starts with a root or with the current directory.
pub open spec fn led(s: Seq<u8>) -> bool {
    s.len() > 0 && (s[0] == SEPARATOR || dot_at(s, 0))
}

/// How many components a path has: a root or a leading current directory, and
/// the named ones.
pub open spec fn components(s: Seq<u8>) -> int {
    named(s, s.len() as int) + if led(s) {
        1int
    } else {
        0
    }
}

fn is_dot(s: &[u8], i: usize) -> (dot: bool)
    requires
        i < s@.len(),
    ensures
        dot == dot_at(s@, i as int),
{
    s[i] == DOT && (i == s.len() - 1 || s[i + 1] == SEPARATOR)
}

/// Whether a path has exactly one component.
pub fn single_component(s: &[u8]) -> (single: bool)
    ensures
        single == (components(s@) == 1),
{
    let mut count: usize = 0;
    let mut i: usize = 0;
    while i < s.len()
        invariant
            count <= i <= s@.len(),
            count == named(s@, i as int),
        decreases s@.len() - i,
    {
        if s[i] != SEPARATOR && (i == 0 || s[i - 1] == SEPARATOR) && !is_dot(s, i) {
            count = count + 1;
        }
        i = i + 1;
    }
    if s.len() > 0 && (s[0] == SEPARATOR || is_dot(s, 0)) {
        count == 0
    } else {
        count == 1
    }
}

/// The name of a base segment's file.
pub open spec fn segment_name(id: ColumnarProjectionId, generation: ColumnarGeneration) -> Seq<
    char,
> {
    "projection-"@ + text::decimal(id.0 as nat) + "-g"@ + text::decimal(generation.0 as nat)
        + ".nbcs"@
}

/// The name of a delta segment's file.
pub open spec fn delta_name(
    id: ColumnarProjectionId,
    generation: ColumnarGeneration,
    after: StorageDataVersion,
) -> Seq<char> {
    "projection-"@ + text::decimal(id.0 as nat) + "-g"@ + text::decimal(generation.0 as nat) + "-d"@
        + text::decimal(after.0 as nat) + ".nbcd"@
}

/// The name of a base segment's file.
pub fn segment_file_name(id: ColumnarProjectionId, generation: ColumnarGeneration) -> (name: String)
    ensures
        name@ == segment_name(id, generation),
{
    let mut name: String = String::new();
    name.append("projection-");
    text::push_decimal(&mut name, id.0);
    name.append("-g");
    text::push_decimal(&mut name, generation.0);
    name.append(".nbcs");
    assert(name@ =~= segment_name(id, generation));
    name
}

/// The name of a delta segment's file.
pub fn delta_file_name(
    id: ColumnarProjectionId,
    generation: ColumnarGeneration,
    after: StorageDataVersion,
) -> (name: String)
    ensures
        name@ == delta_name(id, generation, after),
{
    let mut name: String = String::new();
    name.append("projection-");
    text::push_decimal(&mut name, id.0);
    name.append("-g");
    text::push_decimal(&mut name, generation.0);
    name.append("-d");
    text::push_decimal(&mut name, after.0);
    name.append(".nbcd");
    assert(name@ =~= delta_name(id, generation, after));
    name
}

// ---------------------------------------------------------------------------
// Copies
// ---------------------------------------------------------------------------
/// A copy of a delta segment's metadata.
pub fn copy_delta(delta: &ColumnarDeltaSegmentMetadata) -> (copy: ColumnarDeltaSegmentMetadata)
    ensures
        copy == *delta,
{
    ColumnarDeltaSegmentMetadata {
        file: delta.file.clone(),
        before: delta.before,
        after: delta.after,
        mutation_count: delta.mutation_count,
        after_row_count: delta.after_row_count,
        bytes: delta.bytes,
        checksum: delta.checksum,
    }
}

/// A copy of a list of delta segments.
pub fn copy_deltas(deltas: &[ColumnarDeltaSegmentMetadata]) -> (copy: Vec<
    ColumnarDeltaSegmentMetadata,
>)
    ensures
        copy@ == deltas@,
{
    let mut copy: Vec<ColumnarDeltaSegmentMetadata> = Vec::new();
    let mut i: usize = 0;
    while i < deltas.len()
        invariant
            i <= deltas@.len(),
            copy@ == deltas@.take(i as int),
        decreases deltas@.len() - i,
    {
        copy.push(copy_delta(&deltas[i]));
        i = i + 1;
        assert(copy@ =~= deltas@.take(i as int));
    }
    assert(copy@ =~= deltas@);
    copy
}

/// A copy of a list of projected columns.
pub fn copy_columns(columns: &[ColumnarColumnSpec]) -> (copy: Vec<ColumnarColumnSpec>)
    ensures
        copy@ == columns@,
{
    let mut copy: Vec<ColumnarColumnSpec> = Vec::new();
    let mut i: usize = 0;
    while i < columns.len()
        invariant
            i <= columns@.len(),
            copy@ == columns@.take(i as int),
        decreases columns@.len() - i,
    {
        copy.push(columns[i]);
        i = i + 1;
        assert(copy@ =~= columns@.take(i as int));
    }
    assert(copy@ =~= columns@);
    copy
}

} // verus!
