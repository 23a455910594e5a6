//! Manifests are read back as they were written.
use super::error::ColumnarError;
use super::manifest::{self, DeltaRun, ManifestHead, ManifestView};
use super::metadata::{
    self, DeltaSegmentView, IncrementalView, MetadataView, DELTA_FORMAT_VERSION,
    INCREMENTAL_FORMAT_VERSION, LAZY_DELTA_FORMAT_VERSION, LAZY_FORMAT_VERSION, MAX_ROW_GROUPS,
    SNAPSHOT_FORMAT_VERSION,
};
use super::reader;
use super::scalar;
use super::vector::ColumnarColumnSpec;
use super::version;
use crate::bytes;
use crate::ids::{SchemaFingerprint, StorageDataVersion};
use vstd::prelude::*;
use vstd::utf8;

verus! {

broadcast use crate::bytes::group_le_len;

/// Where the first `n` delta segments end.
pub open spec fn frontier_after(
    deltas: Seq<DeltaSegmentView>,
    base: StorageDataVersion,
    n: int,
) -> StorageDataVersion {
    if n <= 0 {
        base
    } else {
        deltas[n - 1].after
    }
}

/// The bytes of the first `n` delta segments.
pub open spec fn total_bytes(deltas: Seq<DeltaSegmentView>, n: int) -> int
    decreases n,
{
    if n <= 0 {
        0
    } else {
        total_bytes(deltas, n - 1) + deltas[n - 1].bytes
    }
}

/// The mutations of the first `n` delta segments.
pub open spec fn total_mutations(deltas: Seq<DeltaSegmentView>, n: int) -> int
    decreases n,
{
    if n <= 0 {
        0
    } else {
        total_mutations(deltas, n - 1) + deltas[n - 1].mutation_count
    }
}

/// Whether a name can be written and names one file.
pub open spec fn name_kept(name: Seq<u8>) -> bool {
    0 < name.len() <= u32::MAX && utf8::valid_utf8(name) && metadata::components(name) == 1
}

/// Whether a delta segment can stand where it does.
pub open spec fn delta_kept(
    deltas: Seq<DeltaSegmentView>,
    base: StorageDataVersion,
    segment_file: Seq<u8>,
    i: int,
) -> bool {
    name_kept(deltas[i].file) && manifest::delta_follows(
        deltas[i],
        deltas.take(i),
        frontier_after(deltas, base, i),
        segment_file,
    )
}

/// Whether frontiers, delta segments and totals go together.
pub open spec fn incremental_kept(known: IncrementalView, segment_file: Seq<u8>) -> bool {
    let n = known.delta_segments.len() as int;
    &&& known.stream_generation.0 != 0
    &&& known.applied_frontier.0 >= known.base_frontier.0
    &&& n <= MAX_ROW_GROUPS
    &&& forall|i: int|
        0 <= i < n ==> #[trigger] delta_kept(
            known.delta_segments,
            known.base_frontier,
            segment_file,
            i,
        )
    &&& frontier_after(known.delta_segments, known.base_frontier, n) == known.applied_frontier
    &&& total_bytes(known.delta_segments, n) == known.delta_bytes
    &&& total_mutations(known.delta_segments, n) == known.delta_mutation_count
}

/// Whether the formats of a manifest go with what it describes.
pub open spec fn formats_kept(known: ManifestView) -> bool {
    if known.version == LAZY_FORMAT_VERSION {
        known.base_format_version == LAZY_FORMAT_VERSION && known.delta_format_version
            == if known.metadata.incremental is Some {
            Some(LAZY_DELTA_FORMAT_VERSION)
        } else {
            None
        }
    } else if known.version == INCREMENTAL_FORMAT_VERSION {
        known.base_format_version == INCREMENTAL_FORMAT_VERSION && known.delta_format_version
            == Some(DELTA_FORMAT_VERSION) && known.metadata.incremental is Some
    } else {
        known.version == SNAPSHOT_FORMAT_VERSION && known.base_format_version
            == SNAPSHOT_FORMAT_VERSION && known.delta_format_version is None
            && known.metadata.incremental is None
    }
}

/// Whether a manifest describes a projection.
pub open spec fn manifest_kept(known: ManifestView) -> bool {
    &&& formats_kept(known)
    &&& known.metadata.source_token.storage_id == known.metadata.source_storage_id
    &&& 0 < known.metadata.columns.len() <= manifest::MAX_COLUMNS
    &&& forall|i: int, j: int|
        0 <= i < j < known.metadata.columns.len() ==> (#[trigger] known.metadata.columns[i]).column_id
            != (#[trigger] known.metadata.columns[j]).column_id
    &&& name_kept(known.segment_file)
    &&& manifest::segment_name_valid(known.segment_file)
    &&& match known.metadata.incremental {
        Some(incremental) => {
            &&& incremental_kept(incremental, known.segment_file)
            &&& known.metadata.segment_count == incremental.delta_segments.len() + 1
        },
        None => known.metadata.segment_count == 1,
    }
}

proof fn lemma_identity(s: Seq<u8>, version: u16, known: MetadataView)
    requires
        reader::holds(s, 0, manifest::identity_le(version, known)),
        s.len() <= usize::MAX,
        manifest::version_known(version),
    ensures
        manifest::identity_le(version, known).len() == 72,
        manifest::version_read(s, 0) == Ok::<(u16, int), ColumnarError>((version, 8)),
        manifest::owner_read(s, 8) == Ok::<_, ColumnarError>(
            ((known.id, known.generation, known.table_id, known.source_storage_id), 40int),
        ),
        reader::fingerprint_read(s, 40) == Ok::<(SchemaFingerprint, int), ColumnarError>(
            (known.schema_fingerprint, 72),
        ),
{
    let p1 = manifest::manifest_magic();
    let p2 = p1 + bytes::u16_le(version);
    let p3 = p2 + bytes::u16_le(0);
    let p4 = p3 + bytes::u64_le(known.id.0);
    let p5 = p4 + bytes::u64_le(known.generation.0);
    let p6 = p5 + bytes::u64_le(known.table_id.0);
    let p7 = p6 + bytes::u64_le(known.source_storage_id.0);
    reader::lemma_holds(s, 0, p7, known.schema_fingerprint.bytes@);
    reader::lemma_holds(s, 0, p6, bytes::u64_le(known.source_storage_id.0));
    reader::lemma_holds(s, 0, p5, bytes::u64_le(known.table_id.0));
    reader::lemma_holds(s, 0, p4, bytes::u64_le(known.generation.0));
    reader::lemma_holds(s, 0, p3, bytes::u64_le(known.id.0));
    reader::lemma_holds(s, 0, p2, bytes::u16_le(0));
    reader::lemma_holds(s, 0, p1, bytes::u16_le(version));
    reader::lemma_u16_read(s, 4, version);
    reader::lemma_u16_read(s, 6, 0);
    reader::lemma_u64_read(s, 8, known.id.0);
    reader::lemma_u64_read(s, 16, known.generation.0);
    reader::lemma_u64_read(s, 24, known.table_id.0);
    reader::lemma_u64_read(s, 32, known.source_storage_id.0);
    reader::lemma_fingerprint_read(s, 40, known.schema_fingerprint);
}

proof fn lemma_counts(s: Seq<u8>, at: int, version: u16, known: MetadataView)
    requires
        reader::holds(s, at, manifest::counts_le(known)),
        s.len() <= usize::MAX,
        known.source_token.storage_id == known.source_storage_id,
        version == SNAPSHOT_FORMAT_VERSION ==> known.segment_count == 1,
    ensures
        manifest::counts_le(known).len() == 56,
        manifest::token_read(s, at, known.source_storage_id) == Ok::<_, ColumnarError>(
            (known.source_token, at + 24),
        ),
        manifest::counts_read(s, at + 24, version) == Ok::<_, ColumnarError>(
            (
                (known.row_count, known.row_group_count, known.segment_count, known.segment_bytes),
                at + 56,
            ),
        ),
{
    let token = known.source_token;
    let p1 = seq![version::kind_tag(token.kind)];
    let p2 = p1 + bytes::zeros(7);
    let p3 = p2 + bytes::u64_le(token.epoch);
    let p4 = p3 + bytes::u64_le(token.sequence);
    let p5 = p4 + bytes::u64_le(known.row_count);
    let p6 = p5 + bytes::u64_le(known.row_group_count);
    let p7 = p6 + bytes::u64_le(known.segment_count);
    reader::lemma_holds(s, at, p7, bytes::u64_le(known.segment_bytes));
    reader::lemma_holds(s, at, p6, bytes::u64_le(known.segment_count));
    reader::lemma_holds(s, at, p5, bytes::u64_le(known.row_group_count));
    reader::lemma_holds(s, at, p4, bytes::u64_le(known.row_count));
    reader::lemma_holds(s, at, p3, bytes::u64_le(token.sequence));
    reader::lemma_holds(s, at, p2, bytes::u64_le(token.epoch));
    reader::lemma_holds(s, at, p1, bytes::zeros(7));
    reader::lemma_u8_read(s, at, p1[0]);
    reader::lemma_u64_read(s, at + 8, token.epoch);
    reader::lemma_u64_read(s, at + 16, token.sequence);
    reader::lemma_u64_read(s, at + 24, known.row_count);
    reader::lemma_u64_read(s, at + 32, known.row_group_count);
    reader::lemma_u64_read(s, at + 40, known.segment_count);
    reader::lemma_u64_read(s, at + 48, known.segment_bytes);
}

proof fn lemma_column(
    s: Seq<u8>,
    at: int,
    column: ColumnarColumnSpec,
    before: Seq<ColumnarColumnSpec>,
)
    requires
        reader::holds(s, at, manifest::column_le(column)),
        s.len() <= usize::MAX,
        !manifest::column_known(before, column.column_id),
    ensures
        manifest::column_le(column).len() == 8,
        manifest::column_read(s, at, before) == Ok::<_, ColumnarError>((column, at + 8)),
{
    let tag = scalar::tag_of(column.physical_type);
    let flag = manifest::flag_byte(column.nullable);
    let p1 = bytes::u32_le(column.column_id.0);
    let p2 = p1 + seq![tag, flag];
    assert(seq![tag, flag] =~= seq![tag] + seq![flag]);
    reader::lemma_holds(s, at, p2, bytes::u16_le(0));
    reader::lemma_holds(s, at, p1, seq![tag] + seq![flag]);
    reader::lemma_holds(s, at + 4, seq![tag], seq![flag]);
    reader::lemma_u32_read(s, at, column.column_id.0);
    reader::lemma_u8_read(s, at + 4, tag);
    reader::lemma_u8_read(s, at + 5, flag);
    reader::lemma_u16_read(s, at + 6, 0);
}

proof fn lemma_columns_len(columns: Seq<ColumnarColumnSpec>, n: int)
    requires
        0 <= n <= columns.len(),
    ensures
        manifest::columns_le(columns, n).len() == 8 * n,
    decreases n,
{
    if n > 0 {
        lemma_columns_len(columns, n - 1);
    }
}

proof fn lemma_columns(s: Seq<u8>, at: int, columns: Seq<ColumnarColumnSpec>, n: int)
    requires
        0 <= n <= columns.len(),
        reader::holds(s, at, manifest::columns_le(columns, n)),
        s.len() <= usize::MAX,
        forall|i: int, j: int|
            0 <= i < j < columns.len() ==> (#[trigger] columns[i]).column_id != (
            #[trigger] columns[j]).column_id,
    ensures
        manifest::columns_read(s, at, n) == Ok::<_, ColumnarError>((columns.take(n), at + 8 * n)),
    decreases n,
{
    if n > 0 {
        lemma_columns_len(columns, n - 1);
        reader::lemma_holds(
            s,
            at,
            manifest::columns_le(columns, n - 1),
            manifest::column_le(columns[n - 1]),
        );
        lemma_columns(s, at, columns, n - 1);
        lemma_column(s, at + 8 * (n - 1), columns[n - 1], columns.take(n - 1));
        assert(columns.take(n - 1).push(columns[n - 1]) =~= columns.take(n));
    } else {
        assert(columns.take(0) =~= Seq::empty());
    }
}

proof fn lemma_segment(s: Seq<u8>, at: int, known: ManifestView)
    requires
        reader::holds(
            s,
            at,
            manifest::segment_le(known.segment_id, known.segment_file, known.segment_checksum),
        ),
        s.len() <= usize::MAX,
        name_kept(known.segment_file),
        manifest::segment_name_valid(known.segment_file),
    ensures
        manifest::segment_read(s, at) == Ok::<_, ColumnarError>(
            (
                (known.segment_id, known.segment_file, known.segment_checksum),
                at + manifest::segment_le(
                    known.segment_id,
                    known.segment_file,
                    known.segment_checksum,
                ).len(),
            ),
        ),
{
    let p1 = bytes::u64_le(known.segment_id.0);
    let p2 = p1 + reader::string_le(known.segment_file);
    reader::lemma_holds(s, at, p2, bytes::u32_le(known.segment_checksum));
    reader::lemma_holds(s, at, p1, reader::string_le(known.segment_file));
    reader::lemma_u64_read(s, at, known.segment_id.0);
    reader::lemma_string_read(s, at + 8, known.segment_file);
    reader::lemma_u32_read(s, at + p2.len(), known.segment_checksum);
}

proof fn lemma_formats(s: Seq<u8>, at: int, known: ManifestView)
    requires
        reader::holds(
            s,
            at,
            manifest::formats_le(known.version, known.metadata.incremental is Some),
        ),
        s.len() <= usize::MAX,
        formats_kept(known),
    ensures
        manifest::formats_read(s, at, known.version) == Ok::<_, ColumnarError>(
            (
                (known.base_format_version, known.delta_format_version),
                at + manifest::formats_le(
                    known.version,
                    known.metadata.incremental is Some,
                ).len(),
            ),
        ),
{
    if known.version == LAZY_FORMAT_VERSION {
        let delta = if known.metadata.incremental is Some {
            LAZY_DELTA_FORMAT_VERSION
        } else {
            0
        };
        let p1 = bytes::u16_le(LAZY_FORMAT_VERSION);
        let p2 = p1 + bytes::u16_le(delta);
        let p3 = p2 + seq![1u8];
        reader::lemma_holds(s, at, p3, bytes::zeros(3));
        reader::lemma_holds(s, at, p2, seq![1u8]);
        reader::lemma_holds(s, at, p1, bytes::u16_le(delta));
        reader::lemma_u16_read(s, at, LAZY_FORMAT_VERSION);
        reader::lemma_u16_read(s, at + 2, delta);
        reader::lemma_u8_read(s, at + 4, 1);
    }
}

proof fn lemma_delta(s: Seq<u8>, at: int, delta: DeltaSegmentView)
    requires
        reader::holds(s, at, manifest::delta_le(delta)),
        s.len() <= usize::MAX,
        name_kept(delta.file),
    ensures
        manifest::delta_read(s, at) == Ok::<_, ColumnarError>(
            (delta, at + manifest::delta_le(delta).len()),
        ),
{
    let p1 = reader::string_le(delta.file);
    let p2 = p1 + bytes::u64_le(delta.before.0);
    let p3 = p2 + bytes::u64_le(delta.after.0);
    let p4 = p3 + bytes::u64_le(delta.mutation_count);
    let p5 = p4 + bytes::u64_le(delta.after_row_count);
    let p6 = p5 + bytes::u64_le(delta.bytes);
    reader::lemma_holds(s, at, p6, bytes::u32_le(delta.checksum));
    reader::lemma_holds(s, at, p5, bytes::u64_le(delta.bytes));
    reader::lemma_holds(s, at, p4, bytes::u64_le(delta.after_row_count));
    reader::lemma_holds(s, at, p3, bytes::u64_le(delta.mutation_count));
    reader::lemma_holds(s, at, p2, bytes::u64_le(delta.after.0));
    reader::lemma_holds(s, at, p1, bytes::u64_le(delta.before.0));
    reader::lemma_string_read(s, at, delta.file);
    reader::lemma_u64_read(s, at + p1.len(), delta.before.0);
    reader::lemma_u64_read(s, at + p2.len(), delta.after.0);
    reader::lemma_u64_read(s, at + p3.len(), delta.mutation_count);
    reader::lemma_u64_read(s, at + p4.len(), delta.after_row_count);
    reader::lemma_u64_read(s, at + p5.len(), delta.bytes);
    reader::lemma_u32_read(s, at + p6.len(), delta.checksum);
}

proof fn lemma_totals_grow(deltas: Seq<DeltaSegmentView>, n: int, m: int)
    requires
        0 <= n <= m <= deltas.len(),
    ensures
        0 <= total_bytes(deltas, n) <= total_bytes(deltas, m),
        0 <= total_mutations(deltas, n) <= total_mutations(deltas, m),
    decreases m,
{
    if n < m {
        lemma_totals_grow(deltas, n, m - 1);
    } else if n > 0 {
        lemma_totals_grow(deltas, n - 1, n - 1);
    }
}

proof fn lemma_deltas(
    s: Seq<u8>,
    at: int,
    deltas: Seq<DeltaSegmentView>,
    base: StorageDataVersion,
    segment_file: Seq<u8>,
    n: int,
)
    requires
        0 <= n <= deltas.len(),
        reader::holds(s, at, manifest::deltas_le(deltas, n)),
        s.len() <= usize::MAX,
        forall|i: int|
            0 <= i < deltas.len() ==> #[trigger] delta_kept(deltas, base, segment_file, i),
        total_bytes(deltas, deltas.len() as int) <= u64::MAX,
        total_mutations(deltas, deltas.len() as int) <= u64::MAX,
    ensures
        manifest::deltas_read(s, at, base, segment_file, n) == Ok::<_, ColumnarError>(
            (
                DeltaRun {
                    deltas: deltas.take(n),
                    frontier: frontier_after(deltas, base, n),
                    bytes: total_bytes(deltas, n),
                    mutations: total_mutations(deltas, n),
                },
                at + manifest::deltas_le(deltas, n).len(),
            ),
        ),
    decreases n,
{
    if n > 0 {
        let before = manifest::deltas_le(deltas, n - 1);
        reader::lemma_holds(s, at, before, manifest::delta_le(deltas[n - 1]));
        lemma_deltas(s, at, deltas, base, segment_file, n - 1);
        assert(delta_kept(deltas, base, segment_file, n - 1));
        lemma_delta(s, at + before.len(), deltas[n - 1]);
        lemma_totals_grow(deltas, n, deltas.len() as int);
        assert(deltas.take(n - 1).push(deltas[n - 1]) =~= deltas.take(n));
    } else {
        assert(deltas.take(0) =~= Seq::empty());
    }
}

proof fn lemma_frontiers(s: Seq<u8>, at: int, known: IncrementalView)
    requires
        reader::holds(s, at, manifest::frontiers_le(known)),
        s.len() <= usize::MAX,
        known.delta_segments.len() <= u32::MAX,
    ensures
        manifest::frontiers_le(known).len() == 60,
        manifest::frontiers_read(s, at) == Ok::<_, ColumnarError>(
            (
                (
                    IncrementalView { delta_segments: Seq::empty(), ..known },
                    known.delta_segments.len() as u32,
                ),
                at + 60,
            ),
        ),
{
    let count = known.delta_segments.len() as u32;
    let p1 = bytes::u64_le(known.stream_generation.0);
    let p2 = p1 + bytes::u64_le(known.base_frontier.0);
    let p3 = p2 + bytes::u64_le(known.applied_frontier.0);
    let p4 = p3 + bytes::u64_le(known.delta_mutation_count);
    let p5 = p4 + bytes::u64_le(known.delta_live_row_count);
    let p6 = p5 + bytes::u64_le(known.suppressed_version_count);
    let p7 = p6 + bytes::u64_le(known.delta_bytes);
    reader::lemma_holds(s, at, p7, bytes::u32_le(count));
    reader::lemma_holds(s, at, p6, bytes::u64_le(known.delta_bytes));
    reader::lemma_holds(s, at, p5, bytes::u64_le(known.suppressed_version_count));
    reader::lemma_holds(s, at, p4, bytes::u64_le(known.delta_live_row_count));
    reader::lemma_holds(s, at, p3, bytes::u64_le(known.delta_mutation_count));
    reader::lemma_holds(s, at, p2, bytes::u64_le(known.applied_frontier.0));
    reader::lemma_holds(s, at, p1, bytes::u64_le(known.base_frontier.0));
    reader::lemma_u64_read(s, at, known.stream_generation.0);
    reader::lemma_u64_read(s, at + 8, known.base_frontier.0);
    reader::lemma_u64_read(s, at + 16, known.applied_frontier.0);
    reader::lemma_u64_read(s, at + 24, known.delta_mutation_count);
    reader::lemma_u64_read(s, at + 32, known.delta_live_row_count);
    reader::lemma_u64_read(s, at + 40, known.suppressed_version_count);
    reader::lemma_u64_read(s, at + 48, known.delta_bytes);
    reader::lemma_u32_read(s, at + 56, count);
}

proof fn lemma_incremental(s: Seq<u8>, at: int, known: IncrementalView, segment_file: Seq<u8>)
    requires
        reader::holds(s, at, manifest::incremental_le(Some(known))),
        s.len() <= usize::MAX,
        incremental_kept(known, segment_file),
    ensures
        manifest::incremental_read(
            s,
            at,
            (known.delta_segments.len() + 1) as u64,
            segment_file,
        ) == Ok::<_, ColumnarError>((known, at + manifest::incremental_le(Some(known)).len())),
{
    let deltas = known.delta_segments;
    let n = deltas.len() as int;
    let p1 = manifest::frontiers_le(known);
    reader::lemma_holds(s, at, p1, manifest::deltas_le(deltas, n));
    lemma_frontiers(s, at, known);
    lemma_deltas(s, at + 60, deltas, known.base_frontier, segment_file, n);
    assert(deltas.take(n) =~= deltas);
}

/// A written manifest is read back.
pub proof fn law_manifest_round_trip(known: ManifestView)
    requires
        manifest_kept(known),
        manifest::payload_le(
            known.metadata,
            known.segment_id,
            known.segment_file,
            known.segment_checksum,
            known.version,
        ).len() <= usize::MAX,
    ensures
        manifest::manifest_of(
            manifest::manifest_le(
                known.metadata,
                known.segment_id,
                known.segment_file,
                known.segment_checksum,
                known.version,
            ),
        ) == Ok::<ManifestView, ColumnarError>(known),
{
    let m = known.metadata;
    let n = m.columns.len() as int;
    let s = manifest::payload_le(
        m,
        known.segment_id,
        known.segment_file,
        known.segment_checksum,
        known.version,
    );
    reader::lemma_checked(s);
    let p1 = manifest::identity_le(known.version, m);
    let p2 = p1 + manifest::counts_le(m);
    let p3 = p2 + bytes::u32_le(n as u32);
    let p4 = p3 + manifest::columns_le(m.columns, n);
    let base = manifest::segment_le(
        known.segment_id,
        known.segment_file,
        known.segment_checksum,
    );
    let p5 = p4 + base;
    let formats = manifest::formats_le(known.version, m.incremental is Some);
    let p6 = p5 + formats;
    assert(s.subrange(0, s.len() as int) =~= s);
    assert(reader::holds(s, 0, s));
    reader::lemma_holds(s, 0, p6, manifest::incremental_le(m.incremental));
    reader::lemma_holds(s, 0, p5, formats);
    reader::lemma_holds(s, 0, p4, base);
    reader::lemma_holds(s, 0, p3, manifest::columns_le(m.columns, n));
    reader::lemma_holds(s, 0, p2, bytes::u32_le(n as u32));
    reader::lemma_holds(s, 0, p1, manifest::counts_le(m));
    lemma_identity(s, known.version, m);
    lemma_counts(s, 72, known.version, m);
    reader::lemma_u32_read(s, 128, n as u32);
    lemma_columns_len(m.columns, n);
    lemma_columns(s, 132, m.columns, n);
    assert(m.columns.take(n) =~= m.columns);
    lemma_segment(s, p4.len() as int, known);
    lemma_formats(s, p5.len() as int, known);
    if let Some(incremental) = m.incremental {
        lemma_incremental(s, p6.len() as int, incremental, known.segment_file);
    }
    let head = ManifestHead {
        version: known.version,
        id: m.id,
        generation: m.generation,
        table_id: m.table_id,
        source_token: m.source_token,
        schema_fingerprint: m.schema_fingerprint,
        row_count: m.row_count,
        row_group_count: m.row_group_count,
        segment_count: m.segment_count,
        segment_bytes: m.segment_bytes,
    };
    assert(manifest::head_read(s, 0) == Ok::<_, ColumnarError>((head, 128int)));
    assert(manifest::column_list_read(s, 128) == Ok::<_, ColumnarError>(
        (m.columns, p4.len() as int),
    ));
    assert(manifest::metadata_of(head, m.columns, m.incremental) == m);
}

} // verus!
