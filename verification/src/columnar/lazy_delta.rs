//! Indexed delta segments: blocks with the rows, and a footer with the row
//! changes and the directory.
use super::block::{self, BlockRef, LazyGroupView, LazyRowGroup};
use super::delta;
use super::descriptor::{self, DescriptorContext};
use super::error::ColumnarError;
use super::lazy_segment::{self, FooterRange, INDEX_FORMAT_VERSION, MAX_INDEX_BYTES};
use super::metadata::{
    self, ColumnarDeltaSegmentMetadata, ColumnarProjectionMetadata, DeltaSegmentView, MetadataView,
    SegmentIdentity, DEFAULT_ROW_GROUP_ROWS, LAZY_DELTA_FORMAT_VERSION, MAX_ROW_GROUPS,
};
use super::overlay::{self, DeltaDescriptor, DeltaMutation, ProjectedDeltaMutation};
use super::project::{self, RowBatch, RowBatchView};
use super::ranges;
use super::reader::{self, Parsed, Reader};
use super::segment;
use super::writer::{self, Piece, SegmentPlan, SegmentWriter};
use crate::bytes;
use crate::ids::{ChangeStreamGeneration, ColumnarSegmentId, StorageDataVersion};
use crate::value::{self, ScalarValue, ScalarView};
use vstd::prelude::*;

verus! {

broadcast use crate::bytes::group_le_len;

/// How many bytes the header of an indexed delta segment has.
pub const LAZY_DELTA_HEADER_BYTES: u64 = 156;

/// The first bytes of a delta segment's footer: `NBDF`.
pub open spec fn delta_footer_magic() -> Seq<u8> {
    seq![0x4e, 0x42, 0x44, 0x46]
}

// ---------------------------------------------------------------------------
// Writing
// ---------------------------------------------------------------------------
/// What the rows of a delta segment are written for.
pub open spec fn delta_plan(known: MetadataView, after: StorageDataVersion) -> SegmentPlan {
    SegmentPlan {
        identity: SegmentIdentity {
            projection_id: known.id,
            generation: known.generation,
            segment_id: ColumnarSegmentId(after.0),
            table_id: known.table_id,
            storage_id: known.source_storage_id,
            fingerprint: known.schema_fingerprint,
        },
        kind: known.source_token.kind,
        columns: known.columns,
        versioned: false,
        group_rows: DEFAULT_ROW_GROUP_ROWS,
        start: LAZY_DELTA_HEADER_BYTES,
    }
}

/// The rows of a delta segment as blocks, and the directory.
pub open spec fn rows_written(plan: SegmentPlan, rows: Seq<Seq<ScalarView>>) -> Result<
    (Seq<u8>, Seq<LazyGroupView>),
    ColumnarError,
> {
    match writer::fed(
        plan,
        Seq::empty(),
        rows,
        writer::no_refusals(rows.len()),
        rows.len() as int,
    ) {
        Err(error) => Err(error),
        Ok((pieces, pending)) => writer::pieces_written(
            plan,
            writer::completed(pieces, pending),
            writer::completed(pieces, pending).len() as int,
        ),
    }
}

/// The identity in the footer of a delta segment.
pub open spec fn footer_context(known: MetadataView) -> Seq<u8> {
    delta_footer_magic() + bytes::u16_le(INDEX_FORMAT_VERSION) + bytes::u16_le(0) + bytes::u64_le(
        known.id.0,
    ) + bytes::u64_le(known.generation.0) + bytes::u64_le(known.table_id.0) + bytes::u64_le(
        known.source_storage_id.0,
    ) + known.schema_fingerprint.bytes@
}

/// The bounds and counts in the footer of a delta segment.
pub open spec fn footer_counts(
    generation: ChangeStreamGeneration,
    before: StorageDataVersion,
    after: StorageDataVersion,
    batches: nat,
    mutations: nat,
    rows: nat,
    columns: nat,
    groups: nat,
) -> Seq<u8> {
    delta::counts_le(generation, before, after, batches, mutations, rows, columns) + bytes::u32_le(
        groups as u32,
    )
}

/// The payload of the footer of a delta segment.
pub open spec fn footer_payload(
    known: MetadataView,
    batches: Seq<RowBatchView>,
    mutations: Seq<DeltaMutation<Seq<ScalarView>>>,
    groups: Seq<LazyGroupView>,
) -> Seq<u8> {
    footer_context(known) + footer_counts(
        known.incremental->0.stream_generation,
        batches[0].before,
        batches.last().after,
        batches.len(),
        mutations.len(),
        descriptor::brought(mutations, mutations.len() as int) as nat,
        known.columns.len(),
        groups.len(),
    ) + descriptor::batches_le(batches, mutations, batches.len() as int) + block::directories_le(
        groups,
        groups.len() as int,
    )
}

/// The bounds and counts in the header of a delta segment, and where the footer
/// is.
pub open spec fn header_counts(
    generation: ChangeStreamGeneration,
    before: StorageDataVersion,
    after: StorageDataVersion,
    batches: nat,
    columns: nat,
    mutations: nat,
    rows: nat,
    footer: BlockRef,
) -> Seq<u8> {
    bytes::u64_le(generation.0) + bytes::u64_le(before.0) + bytes::u64_le(after.0) + bytes::u32_le(
        batches as u32,
    ) + bytes::u32_le(columns as u32) + bytes::u64_le(mutations as u64) + bytes::u64_le(rows as u64)
        + bytes::u64_le(footer.offset) + bytes::u64_le(footer.length) + bytes::u32_le(
        footer.checksum,
    ) + bytes::u32_le(0)
}

/// The payload of the header of a delta segment.
pub open spec fn header_payload(
    known: MetadataView,
    batches: Seq<RowBatchView>,
    mutations: Seq<DeltaMutation<Seq<ScalarView>>>,
    footer: BlockRef,
) -> Seq<u8> {
    delta::context_le(known, LAZY_DELTA_FORMAT_VERSION) + header_counts(
        known.incremental->0.stream_generation,
        batches[0].before,
        batches.last().after,
        batches.len(),
        known.columns.len(),
        mutations.len(),
        descriptor::brought(mutations, mutations.len() as int) as nat,
        footer,
    )
}

/// A written delta segment.
pub struct DeltaFile {
    pub payload: Seq<u8>,
    pub footer: Seq<u8>,
    pub header: Seq<u8>,
    pub groups: Seq<LazyGroupView>,
}

/// The bytes of a written delta segment's file.
pub open spec fn delta_file_of(file: DeltaFile) -> Seq<u8> {
    file.header + file.payload + file.footer
}

/// Where the footer of a written delta segment is.
pub open spec fn footer_place(payload: Seq<u8>, footer: Seq<u8>) -> BlockRef {
    BlockRef {
        offset: (LAZY_DELTA_HEADER_BYTES + payload.len()) as u64,
        length: footer.len() as u64,
        checksum: bytes::u32_at(footer, footer.len() - 4),
    }
}

/// The delta segment that batches and their row changes make.
pub open spec fn delta_made(
    known: MetadataView,
    batches: Seq<RowBatchView>,
    mutations: Seq<DeltaMutation<Seq<ScalarView>>>,
) -> Result<DeltaFile, ColumnarError> {
    if batches.len() == 0 {
        Err(ColumnarError::InvalidInput("empty delta"))
    } else {
        match rows_written(
            delta_plan(known, batches.last().after),
            delta::rows_brought(mutations, mutations.len() as int),
        ) {
            Err(error) => Err(error),
            Ok((payload, groups)) => if known.incremental is None {
                Err(ColumnarError::InvalidInput("snapshot projection cannot encode delta"))
            } else {
                match descriptor::descriptors_error(batches, mutations, known.source_storage_id) {
                    Some(error) => Err(error),
                    None => match block::directories_error(groups, groups.len() as int) {
                        Some(error) => Err(error),
                        None => {
                            let footer = reader::checked(
                                footer_payload(known, batches, mutations, groups),
                            );
                            if LAZY_DELTA_HEADER_BYTES + payload.len() + footer.len() > u64::MAX {
                                Err(
                                    ColumnarError::ResourceLimit {
                                        resource: "segment bytes",
                                        value: u64::MAX,
                                    },
                                )
                            } else if batches.len() > u32::MAX {
                                Err(ColumnarError::InvalidInput("batch count overflow"))
                            } else {
                                Ok(
                                    DeltaFile {
                                        payload,
                                        footer,
                                        header: reader::checked(
                                            header_payload(
                                                known,
                                                batches,
                                                mutations,
                                                footer_place(payload, footer),
                                            ),
                                        ),
                                        groups,
                                    },
                                )
                            }
                        },
                    },
                }
            },
        }
    }
}

/// A delta segment's file to be written: its header, and what follows it.
#[derive(Debug)]
pub struct EncodedDelta {
    pub header: Vec<u8>,
    pub body: Vec<u8>,
    pub bytes: u64,
    pub checksum: u32,
}

fn write_rows(
    metadata: &ColumnarProjectionMetadata,
    after: StorageDataVersion,
    mutations: &[ProjectedDeltaMutation],
) -> (written: Result<(Vec<u8>, Vec<LazyRowGroup>), ColumnarError>)
    ensures
        match rows_written(
            delta_plan(metadata@, after),
            delta::rows_brought(overlay::mutations_view(mutations@), mutations@.len() as int),
        ) {
            Ok((payload, groups)) => {
                &&& written is Ok
                &&& written->Ok_0.0@ == payload
                &&& block::lazy_groups_view(written->Ok_0.1@) == groups
                &&& LAZY_DELTA_HEADER_BYTES + payload.len() <= u64::MAX
            },
            Err(error) => written == Err::<(Vec<u8>, Vec<LazyRowGroup>), ColumnarError>(error),
        },
{
    let identity: SegmentIdentity = SegmentIdentity {
        projection_id: metadata.id,
        generation: metadata.generation,
        segment_id: ColumnarSegmentId(after.0),
        table_id: metadata.table_id,
        storage_id: metadata.source_storage_id,
        fingerprint: metadata.schema_fingerprint,
    };
    let ghost plan = delta_plan(metadata@, after);
    let ghost known = overlay::mutations_view(mutations@);
    let ghost rows = delta::rows_brought(known, mutations@.len() as int);
    let ghost refusals = writer::no_refusals(rows.len());
    let ghost none = Seq::<crate::change_stream::types::StorageVersionKey>::empty();
    let mut output: Vec<u8> = Vec::new();
    let mut segment_writer: SegmentWriter = SegmentWriter::new(
        identity,
        metadata.source_token.kind,
        metadata::copy_columns(metadata.columns.as_slice()),
        false,
        DEFAULT_ROW_GROUP_ROWS,
        LAZY_DELTA_HEADER_BYTES,
        "delta row count overflow",
    );
    let mut i: usize = 0;
    while i < mutations.len()
        invariant
            i <= mutations@.len(),
            plan == delta_plan(metadata@, after),
            known == overlay::mutations_view(mutations@),
            rows == delta::rows_brought(known, mutations@.len() as int),
            refusals == writer::no_refusals(rows.len()),
            none == Seq::<crate::change_stream::types::StorageVersionKey>::empty(),
            segment_writer.wf(),
            segment_writer.plan() == plan,
            segment_writer.row_count == delta::rows_brought(known, i as int).len(),
            segment_writer.row_count <= i,
            output@ == segment_writer.written(),
            writer::fed(
                plan,
                none,
                rows,
                refusals,
                delta::rows_brought(known, i as int).len() as int,
            ) == Ok::<(Seq<Piece>, Piece), ColumnarError>(
                (segment_writer.pieces@, segment_writer.pending()),
            ),
        decreases mutations@.len() - i,
    {
        assert(known[i as int] == overlay::mutation_view(mutations@[i as int]));
        proof {
            lemma_rows_prefix(known, i + 1, known.len() as int);
        }
        if let Some(row) = &mutations[i].after {
            let ghost n = delta::rows_brought(known, i as int).len() as int;
            let copy: Vec<ScalarValue> = value::copy_row(row.as_slice());
            proof {
                assert(delta::rows_brought(known, i + 1)[n] == value::row_view(copy@));
                assert(rows[n] == value::row_view(copy@));
                if writer::fed(plan, none, rows, refusals, n + 1) is Err {
                    writer::lemma_fed_prefix(
                        plan,
                        none,
                        rows,
                        refusals,
                        n + 1,
                        rows.len() as int,
                    );
                }
            }
            let appended: Vec<u8> = segment_writer.push(None, copy)?;
            bytes::push_bytes(&mut output, appended.as_slice());
        }
        i = i + 1;
    }
    assert(segment_writer.all_pieces() == writer::completed(
        segment_writer.pieces@,
        segment_writer.pending(),
    ));
    let (tail, directory) = segment_writer.close()?;
    bytes::push_bytes(&mut output, tail.as_slice());
    Ok((output, directory))
}

proof fn lemma_rows_prefix(mutations: Seq<DeltaMutation<Seq<ScalarView>>>, n: int, m: int)
    requires
        0 <= n <= m <= mutations.len(),
    ensures
        delta::rows_brought(mutations, n).len() <= delta::rows_brought(mutations, m).len(),
        forall|i: int|
            0 <= i < delta::rows_brought(mutations, n).len() ==> delta::rows_brought(
                mutations,
                m,
            )[i] == #[trigger] delta::rows_brought(mutations, n)[i],
    decreases m - n,
{
    if n < m {
        lemma_rows_prefix(mutations, n, m - 1);
    }
}

fn encode_footer(
    metadata: &ColumnarProjectionMetadata,
    generation: ChangeStreamGeneration,
    batches: &[RowBatch],
    mutations: &[ProjectedDeltaMutation],
    groups: &[LazyRowGroup],
    rows: u64,
) -> (written: Result<Vec<u8>, ColumnarError>)
    requires
        batches@.len() > 0,
        metadata@.incremental is Some,
        generation == metadata@.incremental->0.stream_generation,
        rows == descriptor::brought(
            overlay::mutations_view(mutations@),
            mutations@.len() as int,
        ),
    ensures
        match descriptor::descriptors_error(
            project::batches_view(batches@),
            overlay::mutations_view(mutations@),
            metadata.source_storage_id,
        ) {
            Some(error) => written == Err::<Vec<u8>, ColumnarError>(error),
            None => match block::directories_error(
                block::lazy_groups_view(groups@),
                groups@.len() as int,
            ) {
                Some(error) => written == Err::<Vec<u8>, ColumnarError>(error),
                None => written is Ok && written->Ok_0@ == reader::checked(
                    footer_payload(
                        metadata@,
                        project::batches_view(batches@),
                        overlay::mutations_view(mutations@),
                        block::lazy_groups_view(groups@),
                    ),
                ),
            },
        },
{
    let ghost frames = project::batches_view(batches@);
    let ghost known = overlay::mutations_view(mutations@);
    let ghost entries = block::lazy_groups_view(groups@);
    assert(frames[0] == batches@[0]@ && frames.last() == batches@.last()@);
    let mut output: Vec<u8> = Vec::new();
    let magic: [u8; 4] = [0x4e, 0x42, 0x44, 0x46];
    assert(magic@ =~= delta_footer_magic());
    bytes::push_bytes(&mut output, &magic);
    bytes::push_u16(&mut output, INDEX_FORMAT_VERSION);
    bytes::push_u16(&mut output, 0);
    bytes::push_u64(&mut output, metadata.id.0);
    bytes::push_u64(&mut output, metadata.generation.0);
    bytes::push_u64(&mut output, metadata.table_id.0);
    bytes::push_u64(&mut output, metadata.source_storage_id.0);
    bytes::push_bytes(&mut output, metadata.schema_fingerprint.as_bytes());
    let ghost p1 = footer_context(metadata@);
    assert(output@ =~= p1);
    bytes::push_u64(&mut output, generation.0);
    bytes::push_u64(&mut output, batches[0].before.0);
    bytes::push_u64(&mut output, batches[batches.len() - 1].after.0);
    bytes::push_u32(&mut output, #[verifier::truncate] (batches.len() as u32));
    bytes::push_u64(&mut output, mutations.len() as u64);
    bytes::push_u64(&mut output, rows);
    bytes::push_u32(&mut output, #[verifier::truncate] (metadata.columns.len() as u32));
    bytes::push_u32(&mut output, #[verifier::truncate] (groups.len() as u32));
    let ghost p2 = p1 + footer_counts(
        generation,
        frames[0].before,
        frames.last().after,
        frames.len(),
        known.len(),
        rows as nat,
        metadata@.columns.len(),
        entries.len(),
    );
    assert(output@ =~= p2);
    descriptor::encode_delta_descriptors(
        &mut output,
        metadata.source_storage_id,
        batches,
        mutations,
    )?;
    block::encode_directories(&mut output, groups)?;
    reader::append_checksum(&mut output);
    Ok(output)
}

/// Writes the header of an indexed delta segment.
fn encode_lazy_delta_header(
    metadata: &ColumnarProjectionMetadata,
    generation: ChangeStreamGeneration,
    batches: &[RowBatch],
    mutations: &[ProjectedDeltaMutation],
    rows: u64,
    footer: BlockRef,
) -> (written: Result<Vec<u8>, ColumnarError>)
    requires
        batches@.len() > 0,
        metadata@.incremental is Some,
        generation == metadata@.incremental->0.stream_generation,
        rows == descriptor::brought(
            overlay::mutations_view(mutations@),
            mutations@.len() as int,
        ),
    ensures
        if batches@.len() > u32::MAX {
            written == Err::<Vec<u8>, ColumnarError>(
                ColumnarError::InvalidInput("batch count overflow"),
            )
        } else {
            written is Ok && written->Ok_0@ == reader::checked(
                header_payload(
                    metadata@,
                    project::batches_view(batches@),
                    overlay::mutations_view(mutations@),
                    footer,
                ),
            )
        },
{
    let ghost frames = project::batches_view(batches@);
    let ghost known = overlay::mutations_view(mutations@);
    assert(frames[0] == batches@[0]@ && frames.last() == batches@.last()@);
    let mut output: Vec<u8> = Vec::new();
    delta::push_context(&mut output, metadata, LAZY_DELTA_FORMAT_VERSION);
    let ghost p1 = delta::context_le(metadata@, LAZY_DELTA_FORMAT_VERSION);
    assert(output@ =~= p1);
    bytes::push_u64(&mut output, generation.0);
    bytes::push_u64(&mut output, batches[0].before.0);
    bytes::push_u64(&mut output, batches[batches.len() - 1].after.0);
    if batches.len() > u32::MAX as usize {
        return Err(ColumnarError::InvalidInput("batch count overflow"));
    }
    bytes::push_u32(&mut output, batches.len() as u32);
    bytes::push_u32(&mut output, #[verifier::truncate] (metadata.columns.len() as u32));
    bytes::push_u64(&mut output, mutations.len() as u64);
    bytes::push_u64(&mut output, rows);
    bytes::push_u64(&mut output, footer.offset);
    bytes::push_u64(&mut output, footer.length);
    bytes::push_u32(&mut output, footer.checksum);
    bytes::push_u32(&mut output, 0);
    assert(output@ =~= p1 + header_counts(
        generation,
        frames[0].before,
        frames.last().after,
        frames.len(),
        metadata@.columns.len(),
        known.len(),
        rows as nat,
        footer,
    ));
    reader::append_checksum(&mut output);
    Ok(output)
}

/// The header of an indexed delta segment takes its fixed number of bytes.
pub proof fn lemma_delta_header_len(
    known: MetadataView,
    batches: Seq<RowBatchView>,
    mutations: Seq<DeltaMutation<Seq<ScalarView>>>,
    footer: BlockRef,
)
    ensures
        reader::checked(header_payload(known, batches, mutations, footer)).len()
            == LAZY_DELTA_HEADER_BYTES,
{
}

/// Row changes bring as many rows as what they say.
pub proof fn lemma_brought_view(mutations: Seq<ProjectedDeltaMutation>, n: int)
    requires
        0 <= n <= mutations.len(),
    ensures
        descriptor::brought(overlay::mutations_view(mutations), n) == descriptor::brought(
            mutations,
            n,
        ),
    decreases n,
{
    if n > 0 {
        lemma_brought_view(mutations, n - 1);
        assert(overlay::mutations_view(mutations)[n - 1] == overlay::mutation_view(
            mutations[n - 1],
        ));
    }
}

/// Writes an indexed delta segment.
pub fn encode_lazy_delta(
    metadata: &ColumnarProjectionMetadata,
    batches: &[RowBatch],
    mutations: &[ProjectedDeltaMutation],
) -> (written: Result<EncodedDelta, ColumnarError>)
    ensures
        match delta_made(
            metadata@,
            project::batches_view(batches@),
            overlay::mutations_view(mutations@),
        ) {
            Ok(file) => {
                &&& written is Ok
                &&& written->Ok_0.header@ == file.header
                &&& written->Ok_0.body@ == file.payload + file.footer
                &&& written->Ok_0.bytes == delta_file_of(file).len()
                &&& written->Ok_0.checksum == bytes::u32_at(
                    file.footer,
                    file.footer.len() - 4,
                )
            },
            Err(error) => written == Err::<EncodedDelta, ColumnarError>(error),
        },
{
    if batches.len() == 0 {
        return Err(ColumnarError::InvalidInput("empty delta"));
    }
    let ghost frames = project::batches_view(batches@);
    let ghost known = overlay::mutations_view(mutations@);
    assert(frames.last() == batches@.last()@);
    let after: StorageDataVersion = batches[batches.len() - 1].after;
    let (payload, groups) = write_rows(metadata, after, mutations)?;
    let generation: ChangeStreamGeneration = match &metadata.incremental {
        Some(incremental) => incremental.stream_generation,
        None => {
            return Err(ColumnarError::InvalidInput("snapshot projection cannot encode delta"));
        },
    };
    let rows: u64 = descriptor::count_brought(mutations);
    proof {
        lemma_brought_view(mutations@, mutations@.len() as int);
    }
    let footer: Vec<u8> = encode_footer(
        metadata,
        generation,
        batches,
        mutations,
        groups.as_slice(),
        rows,
    )?;
    let offset: u64 = LAZY_DELTA_HEADER_BYTES + payload.len() as u64;
    let length: u64 = footer.len() as u64;
    if length > u64::MAX - offset {
        return Err(ColumnarError::ResourceLimit { resource: "segment bytes", value: u64::MAX });
    }
    let checksum: u32 = match reader::stored_checksum(footer.as_slice()) {
        Ok(stored) => stored,
        Err(error) => {
            return Err(error);
        },
    };
    let place: BlockRef = BlockRef { offset, length, checksum };
    let header: Vec<u8> = encode_lazy_delta_header(
        metadata,
        generation,
        batches,
        mutations,
        rows,
        place,
    )?;
    proof {
        lemma_delta_header_len(metadata@, frames, known, place);
    }
    let mut body: Vec<u8> = payload;
    bytes::push_bytes(&mut body, footer.as_slice());
    Ok(EncodedDelta { header, body, bytes: offset + length, checksum })
}

// ---------------------------------------------------------------------------
// Reading headers
// ---------------------------------------------------------------------------
/// What the header of a delta segment says behind its identity.
#[derive(Debug, Clone, Copy, PartialEq, Eq)]
pub struct DeltaTotals {
    pub generation: ChangeStreamGeneration,
    pub before: StorageDataVersion,
    pub after: StorageDataVersion,
    pub batches: u32,
    pub columns: u32,
    pub mutations: u64,
    pub rows: u64,
    pub footer: FooterRange,
}

/// Why a file cannot be an expected delta segment for its size, if it cannot.
pub open spec fn delta_size_error(file_bytes: u64, expected: DeltaSegmentView) -> Option<
    ColumnarError,
> {
    if file_bytes != expected.bytes || file_bytes < LAZY_DELTA_HEADER_BYTES {
        Some(ColumnarError::Corrupt("lazy delta length differs from manifest"))
    } else {
        None
    }
}

/// The bounds in the header of a delta segment.
pub open spec fn header_bounds_read(s: Seq<u8>, at: int) -> Parsed<
    (ChangeStreamGeneration, StorageDataVersion, StorageDataVersion),
> {
    match reader::u64_read(s, at) {
        Err(error) => Err(error),
        Ok((generation, at)) => match reader::u64_read(s, at) {
            Err(error) => Err(error),
            Ok((before, at)) => match reader::u64_read(s, at) {
                Err(error) => Err(error),
                Ok((after, at)) => Ok(
                    (
                        (
                            ChangeStreamGeneration(generation),
                            StorageDataVersion(before),
                            StorageDataVersion(after),
                        ),
                        at,
                    ),
                ),
            },
        },
    }
}

/// Where the header of a delta segment says that the footer is, which must have
/// an expected check value.
pub open spec fn header_footer_read(s: Seq<u8>, at: int, expected_checksum: u32) -> Parsed<
    FooterRange,
> {
    match reader::u64_read(s, at) {
        Err(error) => Err(error),
        Ok((offset, at)) => match reader::u64_read(s, at) {
            Err(error) => Err(error),
            Ok((length, at)) => match reader::u32_read(s, at) {
                Err(error) => Err(error),
                Ok((check, at)) => match reader::u32_read(s, at) {
                    Err(error) => Err(error),
                    Ok((gap, at)) => if gap != 0 || check != expected_checksum {
                        Err(ColumnarError::Corrupt("lazy delta footer checksum header mismatch"))
                    } else {
                        Ok((FooterRange { offset, length }, at))
                    },
                },
            },
        },
    }
}

/// What the header of a delta segment says behind its identity.
pub open spec fn totals_read(s: Seq<u8>, at: int, expected_checksum: u32) -> Parsed<DeltaTotals> {
    match header_bounds_read(s, at) {
        Err(error) => Err(error),
        Ok(((generation, before, after), at)) => match reader::u32_read(s, at) {
            Err(error) => Err(error),
            Ok((batches, at)) => match reader::u32_read(s, at) {
                Err(error) => Err(error),
                Ok((columns, at)) => match reader::u64_read(s, at) {
                    Err(error) => Err(error),
                    Ok((mutations, at)) => match reader::u64_read(s, at) {
                        Err(error) => Err(error),
                        Ok((rows, at)) => match header_footer_read(s, at, expected_checksum) {
                            Err(error) => Err(error),
                            Ok((footer, at)) => Ok(
                                (
                                    DeltaTotals {
                                        generation,
                                        before,
                                        after,
                                        batches,
                                        columns,
                                        mutations,
                                        rows,
                                        footer,
                                    },
                                    at,
                                ),
                            ),
                        },
                    },
                },
            },
        },
    }
}

/// Whether the totals of a delta segment are the expected ones, and its footer
/// ends the file.
pub open spec fn totals_fit(
    known: MetadataView,
    expected: DeltaSegmentView,
    totals: DeltaTotals,
    file_bytes: u64,
) -> bool {
    &&& totals.generation == known.incremental->0.stream_generation
    &&& totals.before == expected.before
    &&& totals.after == expected.after
    &&& totals.mutations == expected.mutation_count
    &&& totals.rows == expected.after_row_count
    &&& totals.columns == known.columns.len()
    &&& totals.batches != 0
    &&& totals.footer.offset >= LAZY_DELTA_HEADER_BYTES
    &&& totals.footer.length <= MAX_INDEX_BYTES
    &&& totals.footer.offset + totals.footer.length == file_bytes
}

/// What the header of an expected delta segment says.
pub open spec fn header_read(
    s: Seq<u8>,
    known: MetadataView,
    expected: DeltaSegmentView,
    file_bytes: u64,
) -> Result<DeltaTotals, ColumnarError> {
    let context = "lazy delta context";
    match delta::start_read(s, 0, LAZY_DELTA_FORMAT_VERSION, "invalid lazy delta flags") {
        Err(error) => Err(error),
        Ok((_, at)) => match delta::owner_read(s, at, known, context) {
            Err(error) => Err(error),
            Ok((_, at)) => match delta::engine_read(s, at, known, context) {
                Err(error) => Err(error),
                Ok((_, at)) => if known.incremental is None {
                    Err(ColumnarError::Corrupt("lazy delta on snapshot projection"))
                } else {
                    match totals_read(s, at, expected.checksum) {
                        Err(error) => Err(error),
                        Ok((totals, at)) => match reader::end_error(s, at) {
                            Some(error) => Err(error),
                            None => if !totals_fit(known, expected, totals, file_bytes) {
                                Err(ColumnarError::Corrupt("lazy delta header mismatch"))
                            } else {
                                Ok(totals)
                            },
                        },
                    }
                },
            },
        },
    }
}

/// What the header of an expected delta segment's file says.
pub open spec fn totals_of(
    header: Seq<u8>,
    known: MetadataView,
    expected: DeltaSegmentView,
    file_bytes: u64,
) -> Result<DeltaTotals, ColumnarError> {
    match reader::checksum_error(header) {
        Some(error) => Err(error),
        None => header_read(reader::payload_of(header), known, expected, file_bytes),
    }
}

/// Checks that a file can be an expected delta segment for its size.
pub fn check_delta_size(file_bytes: u64, expected: &ColumnarDeltaSegmentMetadata) -> (valid: Result<
    (),
    ColumnarError,
>)
    ensures
        match delta_size_error(file_bytes, expected@) {
            Some(error) => valid == Err::<(), ColumnarError>(error),
            None => valid is Ok,
        },
{
    if file_bytes != expected.bytes || file_bytes < LAZY_DELTA_HEADER_BYTES {
        return Err(ColumnarError::Corrupt("lazy delta length differs from manifest"));
    }
    Ok(())
}

fn decode_totals(reader: &mut Reader<'_>, expected_checksum: u32) -> (read: Result<
    DeltaTotals,
    ColumnarError,
>)
    requires
        old(reader).wf(),
    ensures
        final(reader).wf(),
        final(reader).bytes == old(reader).bytes,
        reader::reads(
            read,
            final(reader).offset as int,
            totals_read(old(reader).bytes@, old(reader).offset as int, expected_checksum),
        ),
{
    let generation: u64 = reader.u64()?;
    let before: u64 = reader.u64()?;
    let after: u64 = reader.u64()?;
    let batches: u32 = reader.u32()?;
    let columns: u32 = reader.u32()?;
    let mutations: u64 = reader.u64()?;
    let rows: u64 = reader.u64()?;
    let offset: u64 = reader.u64()?;
    let length: u64 = reader.u64()?;
    let check: u32 = reader.u32()?;
    let gap: u32 = reader.u32()?;
    if gap != 0 || check != expected_checksum {
        return Err(ColumnarError::Corrupt("lazy delta footer checksum header mismatch"));
    }
    Ok(
        DeltaTotals {
            generation: ChangeStreamGeneration(generation),
            before: StorageDataVersion(before),
            after: StorageDataVersion(after),
            batches,
            columns,
            mutations,
            rows,
            footer: FooterRange { offset, length },
        },
    )
}

/// Reads the header of an expected delta segment.
pub fn decode_lazy_delta_header(
    header: &[u8],
    metadata: &ColumnarProjectionMetadata,
    expected: &ColumnarDeltaSegmentMetadata,
    file_bytes: u64,
) -> (read: Result<DeltaTotals, ColumnarError>)
    ensures
        read == totals_of(header@, metadata@, expected@, file_bytes),
{
    let context: &'static str = "lazy delta context";
    let payload: &[u8] = reader::validate_checksum(header)?;
    let mut reader: Reader<'_> = Reader::new(payload);
    delta::decode_start(&mut reader, LAZY_DELTA_FORMAT_VERSION, "invalid lazy delta flags")?;
    delta::decode_owner(&mut reader, metadata, context)?;
    delta::decode_engine(&mut reader, metadata, context)?;
    let generation: ChangeStreamGeneration = match &metadata.incremental {
        Some(incremental) => incremental.stream_generation,
        None => {
            return Err(ColumnarError::Corrupt("lazy delta on snapshot projection"));
        },
    };
    let totals: DeltaTotals = decode_totals(&mut reader, expected.checksum)?;
    reader.finish()?;
    let footer: FooterRange = totals.footer;
    if totals.generation != generation || totals.before != expected.before || totals.after
        != expected.after || totals.mutations != expected.mutation_count || totals.rows
        != expected.after_row_count || totals.columns as usize != metadata.columns.len()
        || totals.batches == 0 || footer.offset < LAZY_DELTA_HEADER_BYTES || footer.length
        > MAX_INDEX_BYTES || footer.length > u64::MAX - footer.offset || footer.offset
        + footer.length != file_bytes {
        return Err(ColumnarError::Corrupt("lazy delta header mismatch"));
    }
    Ok(totals)
}

// ---------------------------------------------------------------------------
// Reading footers
// ---------------------------------------------------------------------------
/// The bounds and counts in the footer of a delta segment, which must be those
/// of the header.
pub open spec fn footer_totals_read(
    s: Seq<u8>,
    at: int,
    totals: DeltaTotals,
    context: &'static str,
) -> Parsed<()> {
    match segment::expected_read(s, at, totals.generation.0, context) {
        Err(error) => Err(error),
        Ok((_, at)) => match segment::expected_read(s, at, totals.before.0, context) {
            Err(error) => Err(error),
            Ok((_, at)) => match segment::expected_read(s, at, totals.after.0, context) {
                Err(error) => Err(error),
                Ok((_, at)) => match lazy_segment::expected_u32(
                    s,
                    at,
                    totals.batches as int,
                    context,
                ) {
                    Err(error) => Err(error),
                    Ok((_, at)) => match segment::expected_read(s, at, totals.mutations, context) {
                        Err(error) => Err(error),
                        Ok((_, at)) => match segment::expected_read(s, at, totals.rows, context) {
                            Err(error) => Err(error),
                            Ok((_, at)) => lazy_segment::expected_u32(
                                s,
                                at,
                                totals.columns as int,
                                context,
                            ),
                        },
                    },
                },
            },
        },
    }
}

/// The start of the footer of a delta segment.
pub open spec fn footer_start_read(s: Seq<u8>, at: int, known: MetadataView, totals: DeltaTotals)
    -> Parsed<()> {
    let context = "lazy delta footer context";
    match reader::magic_read(s, at, delta_footer_magic()) {
        Err(error) => Err(error),
        Ok((_, at)) => match lazy_segment::expected_u16(s, at, INDEX_FORMAT_VERSION, context) {
            Err(error) => Err(error),
            Ok((_, at)) => match lazy_segment::expected_u16(s, at, 0, context) {
                Err(error) => Err(error),
                Ok((_, at)) => match delta::owner_read(s, at, known, context) {
                    Err(error) => Err(error),
                    Ok((_, at)) => footer_totals_read(s, at, totals, context),
                },
            },
        },
    }
}

/// What row changes of a projection's indexed delta segment are read for.
pub open spec fn lazy_context(known: MetadataView, rows: u64) -> DescriptorContext {
    DescriptorContext {
        storage_id: known.source_storage_id,
        kind: known.source_token.kind,
        lazy: true,
        after_count: rows,
    }
}

/// The row changes in the footer of a delta segment.
pub open spec fn descriptors_read(s: Seq<u8>, at: int, known: MetadataView, totals: DeltaTotals)
    -> Parsed<Seq<DeltaDescriptor>> {
    match descriptor::frames_read(
        s,
        at,
        lazy_context(known, totals.rows),
        totals.before,
        totals.batches as int,
    ) {
        Err(error) => Err(error),
        Ok(((list, frontier), at)) => if frontier != totals.after || list.len()
            != totals.mutations || descriptor::brought(list, list.len() as int) != totals.rows {
            Err(ColumnarError::Corrupt("lazy delta descriptor totals mismatch"))
        } else {
            Ok((list, at))
        },
    }
}

/// The directory and the row changes in the payload of a footer.
pub open spec fn footer_read(s: Seq<u8>, known: MetadataView, totals: DeltaTotals) -> Result<
    (Seq<LazyGroupView>, Seq<DeltaDescriptor>),
    ColumnarError,
> {
    match footer_start_read(s, 0, known, totals) {
        Err(error) => Err(error),
        Ok((_, at)) => match reader::u32_read(s, at) {
            Err(error) => Err(error),
            Ok((count, at)) => if count > MAX_ROW_GROUPS {
                Err(
                    ColumnarError::ResourceLimit {
                        resource: "delta row groups",
                        value: count as u64,
                    },
                )
            } else {
                match descriptors_read(s, at, known, totals) {
                    Err(error) => Err(error),
                    Ok((list, at)) => match block::directories_read(
                        s,
                        at,
                        known.columns,
                        false,
                        "delta indexed row count overflow",
                        count as int,
                    ) {
                        Err(error) => Err(error),
                        Ok(((groups, rows), at)) => match reader::end_error(s, at) {
                            Some(error) => Err(error),
                            None => if rows != totals.rows {
                                Err(ColumnarError::Corrupt("delta indexed row count mismatch"))
                            } else {
                                match ranges::ranges_error(
                                    ranges::all_blocks(groups, groups.len() as int),
                                    LAZY_DELTA_HEADER_BYTES,
                                    totals.footer.offset,
                                ) {
                                    Some(error) => Err(error),
                                    None => Ok((groups, list)),
                                }
                            },
                        },
                    },
                }
            },
        },
    }
}

fn decode_footer_start(
    reader: &mut Reader<'_>,
    metadata: &ColumnarProjectionMetadata,
    totals: &DeltaTotals,
) -> (read: Result<(), ColumnarError>)
    requires
        old(reader).wf(),
    ensures
        final(reader).wf(),
        final(reader).bytes == old(reader).bytes,
        reader::reads(
            read,
            final(reader).offset as int,
            footer_start_read(old(reader).bytes@, old(reader).offset as int, metadata@, *totals),
        ),
{
    let context: &'static str = "lazy delta footer context";
    let magic: [u8; 4] = [0x4e, 0x42, 0x44, 0x46];
    assert(magic@ =~= delta_footer_magic());
    reader.expect(&magic)?;
    lazy_segment::expect_u16(reader, INDEX_FORMAT_VERSION, context)?;
    lazy_segment::expect_u16(reader, 0, context)?;
    delta::decode_owner(reader, metadata, context)?;
    segment::expect_u64(reader, totals.generation.0, context)?;
    segment::expect_u64(reader, totals.before.0, context)?;
    segment::expect_u64(reader, totals.after.0, context)?;
    lazy_segment::expect_u32(reader, totals.batches as u64, context)?;
    segment::expect_u64(reader, totals.mutations, context)?;
    segment::expect_u64(reader, totals.rows, context)?;
    lazy_segment::expect_u32(reader, totals.columns as u64, context)
}

/// Reads the row changes in the footer of a delta segment.
pub fn decode_lazy_delta_descriptors(
    reader: &mut Reader<'_>,
    metadata: &ColumnarProjectionMetadata,
    totals: &DeltaTotals,
) -> (read: Result<Vec<DeltaDescriptor>, ColumnarError>)
    requires
        old(reader).wf(),
    ensures
        final(reader).wf(),
        final(reader).bytes == old(reader).bytes,
        match descriptors_read(
            old(reader).bytes@,
            old(reader).offset as int,
            metadata@,
            *totals,
        ) {
            Ok((list, next)) => {
                &&& read is Ok
                &&& read->Ok_0@ == list
                &&& final(reader).offset == next
            },
            Err(error) => read == Err::<Vec<DeltaDescriptor>, ColumnarError>(error),
        },
{
    let context: DescriptorContext = DescriptorContext {
        storage_id: metadata.source_storage_id,
        kind: metadata.source_token.kind,
        lazy: true,
        after_count: totals.rows,
    };
    let (list, frontier) = descriptor::decode_frames(
        reader,
        &context,
        totals.before,
        totals.batches,
    )?;
    if frontier != totals.after || list.len() as u64 != totals.mutations
        || descriptor::count_brought(list.as_slice()) != totals.rows {
        return Err(ColumnarError::Corrupt("lazy delta descriptor totals mismatch"));
    }
    Ok(list)
}

/// Reads the footer of a delta segment, whose check value was found to be the
/// expected one.
pub fn decode_lazy_delta_footer(
    footer: &[u8],
    metadata: &ColumnarProjectionMetadata,
    totals: &DeltaTotals,
) -> (read: Result<(Vec<LazyRowGroup>, Vec<DeltaDescriptor>), ColumnarError>)
    requires
        footer@.len() >= 4,
    ensures
        match footer_read(reader::payload_of(footer@), metadata@, *totals) {
            Ok((groups, list)) => {
                &&& read is Ok
                &&& block::lazy_groups_view(read->Ok_0.0@) == groups
                &&& read->Ok_0.1@ == list
            },
            Err(error) => read == Err::<
                (Vec<LazyRowGroup>, Vec<DeltaDescriptor>),
                ColumnarError,
            >(error),
        },
{
    let payload: &[u8] = &footer[0..footer.len() - 4];
    let mut reader: Reader<'_> = Reader::new(payload);
    decode_footer_start(&mut reader, metadata, totals)?;
    let count: u32 = reader.u32()?;
    if count > MAX_ROW_GROUPS {
        return Err(
            ColumnarError::ResourceLimit { resource: "delta row groups", value: count as u64 },
        );
    }
    let list: Vec<DeltaDescriptor> = decode_lazy_delta_descriptors(
        &mut reader,
        metadata,
        totals,
    )?;
    let overflow: &'static str = "delta indexed row count overflow";
    let (groups, rows) = block::decode_directories(
        &mut reader,
        metadata.columns.as_slice(),
        false,
        overflow,
        count,
    )?;
    reader.finish()?;
    if rows != totals.rows {
        return Err(ColumnarError::Corrupt("delta indexed row count mismatch"));
    }
    ranges::validate_block_ranges(
        groups.as_slice(),
        LAZY_DELTA_HEADER_BYTES,
        totals.footer.offset,
    )?;
    Ok((groups, list))
}

} // verus!
