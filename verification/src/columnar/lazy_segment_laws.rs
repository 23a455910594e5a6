//! Indexed base segments open as they were written, and their blocks hold the
//! rows.
use super::block::{self, BlockRef, LazyChunkView, LazyGroupView};
use super::chunk;
use super::chunk_laws;
use super::error::ColumnarError;
use super::group::GroupView;
use super::lazy_segment::{self, FooterRange, LAZY_SEGMENT_HEADER_BYTES};
use super::metadata::MetadataView;
use super::ranges;
use super::reader;
use super::segment;
use super::segment_laws;
use super::statistics::StatisticsView;
use super::validity;
use super::vector::{self, ColumnarColumnSpec, VectorView};
use super::version;
use super::writer::{self, Piece, SegmentPlan};
use crate::bytes;
use crate::change_stream::types::StorageVersionKey;
use crate::checksum;
use crate::ids::StorageId;
use vstd::prelude::*;

verus! {

broadcast use crate::bytes::group_le_len;

// ---------------------------------------------------------------------------
// Blocks in a file
// ---------------------------------------------------------------------------
/// Whether a file holds a payload where a reference says.
pub open spec fn block_holds(file: Seq<u8>, at: BlockRef, payload: Seq<u8>) -> bool {
    &&& reader::holds(file, at.offset as int, payload)
    &&& at.length == payload.len()
    &&& at.checksum == checksum::crc32c_of(payload)
}

/// Whether a file holds the column of a group where a directory says.
pub open spec fn column_holds(
    file: Seq<u8>,
    columns: Seq<ColumnarColumnSpec>,
    known: GroupView,
    entry: LazyChunkView,
    i: int,
) -> bool {
    &&& entry.spec == columns[i]
    &&& segment::statistics_for(known.statistics, columns[i].column_id) == Some(entry.statistics)
    &&& block_holds(file, entry.block, segment::group_chunk_le(columns, known, i))
}

/// Whether a file holds a group where a directory says.
pub open spec fn group_holds(
    file: Seq<u8>,
    columns: Seq<ColumnarColumnSpec>,
    known: GroupView,
    entry: LazyGroupView,
) -> bool {
    &&& entry.rows == known.rows
    &&& entry.columns.len() == columns.len()
    &&& forall|i: int|
        0 <= i < columns.len() ==> column_holds(
            file,
            columns,
            known,
            #[trigger] entry.columns[i],
            i,
        )
    &&& match entry.source_versions {
        Some(at) => {
            &&& known.source_versions is Some
            &&& block_holds(
                file,
                at,
                version::keys_le(
                    known.source_versions->0,
                    known.source_versions->0.len() as int,
                ),
            )
        },
        None => known.source_versions is None,
    }
}

/// How many bytes the first `n` blocks have.
pub open spec fn length_of(blocks: Seq<BlockRef>, n: int) -> int
    decreases n,
{
    if n <= 0 {
        0
    } else {
        length_of(blocks, n - 1) + blocks[n - 1].length
    }
}

/// Whether blocks follow each other from a place on.
pub open spec fn contiguous(blocks: Seq<BlockRef>, start: int) -> bool {
    forall|i: int|
        0 <= i < blocks.len() ==> (#[trigger] blocks[i]).offset == start + length_of(blocks, i)
}

proof fn lemma_length_grows(blocks: Seq<BlockRef>, n: int, m: int)
    requires
        0 <= n <= m <= blocks.len(),
    ensures
        0 <= length_of(blocks, n) <= length_of(blocks, m),
    decreases m,
{
    if n < m {
        lemma_length_grows(blocks, n, m - 1);
    } else if n > 0 {
        lemma_length_grows(blocks, n - 1, n - 1);
    }
}

proof fn lemma_length_append(left: Seq<BlockRef>, right: Seq<BlockRef>, n: int)
    requires
        0 <= n <= right.len(),
    ensures
        length_of(left + right, left.len() + n) == length_of(left, left.len() as int) + length_of(
            right,
            n,
        ),
    decreases n,
{
    if n > 0 {
        lemma_length_append(left, right, n - 1);
    } else {
        lemma_length_prefix(left, right, left.len() as int);
    }
}

proof fn lemma_length_prefix(left: Seq<BlockRef>, right: Seq<BlockRef>, n: int)
    requires
        0 <= n <= left.len(),
    ensures
        length_of(left + right, n) == length_of(left, n),
    decreases n,
{
    if n > 0 {
        lemma_length_prefix(left, right, n - 1);
    }
}

proof fn lemma_contiguous_append(left: Seq<BlockRef>, right: Seq<BlockRef>, start: int)
    requires
        contiguous(left, start),
        contiguous(right, start + length_of(left, left.len() as int)),
    ensures
        contiguous(left + right, start),
        length_of(left + right, (left + right).len() as int) == length_of(left, left.len() as int)
            + length_of(right, right.len() as int),
{
    let all = left + right;
    assert forall|i: int| 0 <= i < all.len() implies (#[trigger] all[i]).offset == start
        + length_of(all, i) by {
        if i < left.len() {
            lemma_length_prefix(left, right, i);
            assert(all[i] == left[i]);
        } else {
            lemma_length_append(left, right, i - left.len());
            assert(all[i] == right[i - left.len()]);
        }
    }
    lemma_length_append(left, right, right.len() as int);
}

/// Blocks with bytes that follow each other up to the end of a data area stand in
/// it and apart.
pub proof fn lemma_contiguous_ranges(blocks: Seq<BlockRef>, start: u64, end: u64)
    requires
        contiguous(blocks, start as int),
        start + length_of(blocks, blocks.len() as int) == end,
    ensures
        ranges::ranges_error(blocks, start, end) is None,
{
    lemma_contiguous_bounds(blocks, start, end, blocks.len() as int);
    assert forall|i: int, j: int| 0 <= i < j < blocks.len() implies !ranges::touch(
        #[trigger] blocks[i],
        #[trigger] blocks[j],
    ) by {
        lemma_length_grows(blocks, i + 1, j);
    }
}

proof fn lemma_contiguous_bounds(blocks: Seq<BlockRef>, start: u64, end: u64, n: int)
    requires
        0 <= n <= blocks.len(),
        contiguous(blocks, start as int),
        start + length_of(blocks, blocks.len() as int) == end,
    ensures
        ranges::bounds_error(blocks, start, end, n) is None,
    decreases n,
{
    if n > 0 {
        lemma_contiguous_bounds(blocks, start, end, n - 1);
        assert(blocks[n - 1].offset == start + length_of(blocks, n - 1));
        lemma_length_grows(blocks, n - 1, n);
        lemma_length_grows(blocks, n, blocks.len() as int);
    }
}

// ---------------------------------------------------------------------------
// Written groups
// ---------------------------------------------------------------------------
/// The blocks of the first `n` columns.
pub open spec fn entry_blocks(chunks: Seq<LazyChunkView>) -> Seq<BlockRef> {
    chunks.map_values(|entry: LazyChunkView| entry.block)
}

proof fn lemma_chunks_written(
    file: Seq<u8>,
    columns: Seq<ColumnarColumnSpec>,
    known: GroupView,
    offset: int,
    n: int,
)
    requires
        0 <= offset,
        0 <= n <= segment::chunk_count(columns, known),
        lazy_segment::lazy_chunks(columns, known, offset, n) is Ok,
        reader::holds(
            file,
            offset,
            lazy_segment::lazy_chunks(columns, known, offset, n)->Ok_0.0,
        ),
    ensures
        ({
            let (payload, chunks) = lazy_segment::lazy_chunks(columns, known, offset, n)->Ok_0;
            &&& chunks.len() == n
            &&& forall|i: int|
                0 <= i < n ==> column_holds(file, columns, known, #[trigger] chunks[i], i)
            &&& contiguous(entry_blocks(chunks), offset)
            &&& length_of(entry_blocks(chunks), n) == payload.len()
        }),
    decreases n,
{
    let (payload, chunks) = lazy_segment::lazy_chunks(columns, known, offset, n)->Ok_0;
    if n > 0 {
        let (before, earlier) = lazy_segment::lazy_chunks(columns, known, offset, n - 1)->Ok_0;
        let last = segment::group_chunk_le(columns, known, n - 1);
        reader::lemma_holds(file, offset, before, last);
        lemma_chunks_written(file, columns, known, offset, n - 1);
        assert forall|i: int| 0 <= i < n implies column_holds(
            file,
            columns,
            known,
            #[trigger] chunks[i],
            i,
        ) by {
            if i < n - 1 {
                assert(chunks[i] == earlier[i]);
            }
        }
        let tail = seq![lazy_segment::block_of(offset + before.len(), last)];
        assert(entry_blocks(chunks) =~= entry_blocks(earlier) + tail);
        assert(length_of(tail, 0) == 0);
        assert(length_of(tail, 1) == length_of(tail, 0) + tail[0].length);
        lemma_contiguous_append(entry_blocks(earlier), tail, offset);
    }
}

/// Whether a piece makes a group that can be written and read back.
pub open spec fn piece_kept(plan: SegmentPlan, piece: Piece) -> bool {
    &&& piece.rows.len() > 0
    &&& segment_laws::distinct(plan.columns)
    &&& segment_laws::table_valid(plan.columns, piece.rows)
    &&& segment_laws::table_fits(plan.columns, piece.rows)
    &&& plan.versioned ==> piece.keys.len() == piece.rows.len() && forall|i: int|
        0 <= i < piece.keys.len() ==> version::key_error(
            #[trigger] piece.keys[i],
            plan.identity.storage_id,
            plan.kind,
        ) is None
}

proof fn lemma_piece_written(
    file: Seq<u8>,
    plan: SegmentPlan,
    piece: Piece,
    offset: int,
)
    requires
        0 <= offset,
        piece_kept(plan, piece),
        plan.columns.len() <= u32::MAX,
        writer::piece_written(plan, piece, offset) is Ok,
        reader::holds(file, offset, writer::piece_written(plan, piece, offset)->Ok_0.0),
    ensures
        ({
            let (payload, entry) = writer::piece_written(plan, piece, offset)->Ok_0;
            &&& group_holds(file, plan.columns, writer::piece_group(plan, piece), entry)
            &&& block::directory_kept(entry, plan.columns, plan.versioned)
            &&& contiguous(ranges::group_blocks(entry), offset)
            &&& length_of(
                ranges::group_blocks(entry),
                ranges::group_blocks(entry).len() as int,
            ) == payload.len()
            &&& entry.rows == piece.rows.len()
        }),
{
    let known = writer::piece_group(plan, piece);
    let (payload, entry) = writer::piece_written(plan, piece, offset)->Ok_0;
    let versions = if plan.versioned {
        Some(piece.keys)
    } else {
        None
    };
    segment_laws::lemma_group_kept(plan.columns, piece.rows, versions);
    let n = plan.columns.len() as int;
    let (front, source_versions) = lazy_segment::lazy_versions(
        plan.identity.storage_id,
        known,
        plan.versioned,
        offset,
    )->Ok_0;
    let back = lazy_segment::lazy_chunks(plan.columns, known, offset + front.len(), n)->Ok_0.0;
    reader::lemma_holds(file, offset, front, back);
    lemma_chunks_written(file, plan.columns, known, offset + front.len(), n);
    if plan.versioned {
        version::lemma_keys_len(piece.keys, piece.keys.len() as int);
    }
    let head = match source_versions {
        Some(at) => seq![at],
        None => Seq::empty(),
    };
    let blocks = entry_blocks(entry.columns);
    assert(ranges::column_blocks(entry) =~= blocks);
    assert(ranges::group_blocks(entry) =~= head + blocks);
    if plan.versioned {
        assert(length_of(head, 0) == 0);
        assert(length_of(head, 1) == length_of(head, 0) + head[0].length);
    } else {
        assert(length_of(head, 0) == 0);
    }
    lemma_contiguous_append(head, blocks, offset);
    assert forall|i: int| 0 <= i < n implies {
        &&& (#[trigger] entry.columns[i]).spec == plan.columns[i]
        &&& block::entry_kept(entry.columns[i], entry.rows)
    } by {
        assert(column_holds(file, plan.columns, known, entry.columns[i], i));
        segment_laws::lemma_statistics_found(plan.columns, known, i);
        assert(known.columns[i].0 == plan.columns[i].column_id);
        assert(known.statistics[i].0 == plan.columns[i].column_id);
        let bits = vector::validity_of(known.columns[i].1);
        validity::lemma_nulls_bound(bits, known.rows as int);
        lemma_chunk_nonempty(plan.columns[i], known.columns[i].1, known.statistics[i].1);
        lemma_chunk_block(plan.columns, known, offset + front.len(), n, i);
    }
}

proof fn lemma_chunk_nonempty(
    column: ColumnarColumnSpec,
    vector: VectorView,
    statistics: StatisticsView,
)
    ensures
        chunk::chunk_le(column, vector, statistics).len() > 0,
{
    assert(chunk::chunk_head(column, statistics).len() == 16);
}

proof fn lemma_chunk_block(
    columns: Seq<ColumnarColumnSpec>,
    known: GroupView,
    offset: int,
    n: int,
    i: int,
)
    requires
        lazy_segment::lazy_chunks(columns, known, offset, n) is Ok,
        0 <= i < n,
    ensures
        segment::group_chunk_le(columns, known, i).len() <= block::MAX_LAZY_BLOCK_BYTES,
    decreases n,
{
    if i < n - 1 {
        lemma_chunk_block(columns, known, offset, n - 1, i);
    }
}

/// Whether each piece makes a group that can be written and read back.
pub open spec fn pieces_kept(plan: SegmentPlan, pieces: Seq<Piece>) -> bool {
    forall|i: int| 0 <= i < pieces.len() ==> piece_kept(plan, #[trigger] pieces[i])
}

/// The rows of the first `n` pieces.
pub open spec fn piece_rows(pieces: Seq<Piece>, n: int) -> int
    decreases n,
{
    if n <= 0 {
        0
    } else {
        piece_rows(pieces, n - 1) + pieces[n - 1].rows.len()
    }
}

/// Written pieces stand in a file one behind the other, each where the directory
/// says.
pub proof fn lemma_pieces_written(file: Seq<u8>, plan: SegmentPlan, pieces: Seq<Piece>, n: int)
    requires
        0 <= n <= pieces.len(),
        pieces_kept(plan, pieces),
        plan.columns.len() <= u32::MAX,
        writer::pieces_written(plan, pieces, n) is Ok,
        reader::holds(
            file,
            plan.start as int,
            writer::pieces_written(plan, pieces, n)->Ok_0.0,
        ),
    ensures
        ({
            let (payload, groups) = writer::pieces_written(plan, pieces, n)->Ok_0;
            &&& groups.len() == n
            &&& forall|i: int|
                0 <= i < n ==> {
                    &&& group_holds(
                        file,
                        plan.columns,
                        writer::piece_group(plan, pieces[i]),
                        #[trigger] groups[i],
                    )
                    &&& block::directory_kept(groups[i], plan.columns, plan.versioned)
                }
            &&& contiguous(
                ranges::all_blocks(groups, n),
                plan.start as int,
            )
            &&& length_of(
                ranges::all_blocks(groups, n),
                ranges::all_blocks(groups, n).len() as int,
            ) == payload.len()
            &&& block::lazy_rows(groups, n) == piece_rows(pieces, n)
        }),
    decreases n,
{
    let start = plan.start as int;
    let (payload, groups) = writer::pieces_written(plan, pieces, n)->Ok_0;
    if n > 0 {
        let (before, earlier) = writer::pieces_written(plan, pieces, n - 1)->Ok_0;
        let (last, entry) = writer::piece_written(plan, pieces[n - 1], start + before.len())->Ok_0;
        reader::lemma_holds(file, start, before, last);
        lemma_pieces_written(file, plan, pieces, n - 1);
        assert(piece_kept(plan, pieces[n - 1]));
        lemma_piece_written(file, plan, pieces[n - 1], start + before.len());
        lemma_blocks_same(groups, earlier, n - 1);
        lemma_contiguous_append(
            ranges::all_blocks(groups, n - 1),
            ranges::group_blocks(entry),
            start,
        );
        lemma_rows_same(groups, earlier, n - 1);
        assert forall|i: int| 0 <= i < n implies {
            &&& group_holds(
                file,
                plan.columns,
                writer::piece_group(plan, pieces[i]),
                #[trigger] groups[i],
            )
            &&& block::directory_kept(groups[i], plan.columns, plan.versioned)
        } by {
            if i < n - 1 {
                assert(groups[i] == earlier[i]);
            }
        }
    }
}

proof fn lemma_blocks_same(left: Seq<LazyGroupView>, right: Seq<LazyGroupView>, n: int)
    requires
        0 <= n <= left.len(),
        n <= right.len(),
        forall|i: int| 0 <= i < n ==> left[i] == right[i],
    ensures
        ranges::all_blocks(left, n) == ranges::all_blocks(right, n),
    decreases n,
{
    if n > 0 {
        lemma_blocks_same(left, right, n - 1);
    }
}

proof fn lemma_rows_same(left: Seq<LazyGroupView>, right: Seq<LazyGroupView>, n: int)
    requires
        0 <= n <= left.len(),
        n <= right.len(),
        forall|i: int| 0 <= i < n ==> left[i] == right[i],
    ensures
        block::lazy_rows(left, n) == block::lazy_rows(right, n),
    decreases n,
{
    if n > 0 {
        lemma_rows_same(left, right, n - 1);
    }
}

// ---------------------------------------------------------------------------
// Headers and footers
// ---------------------------------------------------------------------------
/// Whether a projection is the one that a segment was written for.
pub open spec fn metadata_fits(known: MetadataView, plan: SegmentPlan, groups: nat, rows: u64) -> bool {
    &&& plan.identity == segment_laws::identity_of(known, plan.identity.segment_id)
    &&& plan.kind == known.source_token.kind
    &&& plan.columns == known.columns
    &&& plan.versioned == known.incremental is Some
    &&& known.row_group_count == groups
    &&& known.row_count == rows
}

proof fn lemma_header(
    s: Seq<u8>,
    known: MetadataView,
    plan: SegmentPlan,
    groups: nat,
    rows: u64,
    footer: BlockRef,
    file_bytes: u64,
)
    requires
        s == lazy_segment::header_payload(
            plan.identity,
            plan.kind,
            plan.versioned,
            plan.columns.len(),
            groups,
            rows,
            footer,
        ),
        s.len() <= usize::MAX,
        metadata_fits(known, plan, groups, rows),
        plan.columns.len() <= u32::MAX,
        groups <= u32::MAX,
        footer.offset >= LAZY_SEGMENT_HEADER_BYTES,
        footer.length <= lazy_segment::MAX_INDEX_BYTES,
        footer.offset + footer.length == file_bytes,
    ensures
        lazy_segment::header_read(
            s,
            known,
            plan.identity.segment_id,
            footer.checksum,
            file_bytes,
        ) == Ok::<FooterRange, ColumnarError>(
            FooterRange { offset: footer.offset, length: footer.length },
        ),
{
    let identity = plan.identity;
    let flags = if plan.versioned {
        1u16
    } else {
        0u16
    };
    let tag = version::kind_tag(plan.kind);
    let head = lazy_segment::header_identity(identity, plan.kind, plan.versioned);
    let tail = lazy_segment::header_counts(plan.columns.len(), groups, rows, footer);
    assert(s.subrange(0, s.len() as int) =~= s);
    reader::lemma_holds(s, 0, head, tail);
    let p1 = segment::segment_magic();
    let p2 = p1 + bytes::u16_le(super::metadata::LAZY_FORMAT_VERSION);
    let p3 = p2 + bytes::u16_le(flags);
    let p4 = p3 + bytes::u64_le(identity.projection_id.0);
    let p5 = p4 + bytes::u64_le(identity.generation.0);
    let p6 = p5 + bytes::u64_le(identity.segment_id.0);
    let p7 = p6 + bytes::u64_le(identity.table_id.0);
    let p8 = p7 + bytes::u64_le(identity.storage_id.0);
    let p9 = p8 + identity.fingerprint.bytes@;
    let p10 = p9 + seq![tag];
    reader::lemma_holds(s, 0, p10, bytes::zeros(7));
    reader::lemma_holds(s, 0, p9, seq![tag]);
    reader::lemma_holds(s, 0, p8, identity.fingerprint.bytes@);
    reader::lemma_holds(s, 0, p7, bytes::u64_le(identity.storage_id.0));
    reader::lemma_holds(s, 0, p6, bytes::u64_le(identity.table_id.0));
    reader::lemma_holds(s, 0, p5, bytes::u64_le(identity.segment_id.0));
    reader::lemma_holds(s, 0, p4, bytes::u64_le(identity.generation.0));
    reader::lemma_holds(s, 0, p3, bytes::u64_le(identity.projection_id.0));
    reader::lemma_holds(s, 0, p2, bytes::u16_le(flags));
    reader::lemma_holds(s, 0, p1, bytes::u16_le(super::metadata::LAZY_FORMAT_VERSION));
    reader::lemma_u16_read(s, 4, super::metadata::LAZY_FORMAT_VERSION);
    reader::lemma_u16_read(s, 6, flags);
    reader::lemma_u64_read(s, 8, identity.projection_id.0);
    reader::lemma_u64_read(s, 16, identity.generation.0);
    reader::lemma_u64_read(s, 24, identity.segment_id.0);
    reader::lemma_u64_read(s, 32, identity.table_id.0);
    reader::lemma_u64_read(s, 40, identity.storage_id.0);
    reader::lemma_fingerprint_read(s, 48, identity.fingerprint);
    reader::lemma_u8_read(s, 80, tag);
    let columns = plan.columns.len() as u32;
    let q1 = bytes::u32_le(columns);
    let q2 = q1 + bytes::u32_le(groups as u32);
    let q3 = q2 + bytes::u64_le(rows);
    let q4 = q3 + bytes::u64_le(footer.offset);
    let q5 = q4 + bytes::u64_le(footer.length);
    let q6 = q5 + bytes::u32_le(footer.checksum);
    reader::lemma_holds(s, 88, q6, bytes::u32_le(0));
    reader::lemma_holds(s, 88, q5, bytes::u32_le(footer.checksum));
    reader::lemma_holds(s, 88, q4, bytes::u64_le(footer.length));
    reader::lemma_holds(s, 88, q3, bytes::u64_le(footer.offset));
    reader::lemma_holds(s, 88, q2, bytes::u64_le(rows));
    reader::lemma_holds(s, 88, q1, bytes::u32_le(groups as u32));
    reader::lemma_u32_read(s, 88, columns);
    reader::lemma_u32_read(s, 92, groups as u32);
    reader::lemma_u64_read(s, 96, rows);
    reader::lemma_u64_read(s, 104, footer.offset);
    reader::lemma_u64_read(s, 112, footer.length);
    reader::lemma_u32_read(s, 120, footer.checksum);
    reader::lemma_u32_read(s, 124, 0);
    assert(lazy_segment::mode_read(s, 0, known) == Ok::<((), int), ColumnarError>(((), 8)));
    assert(lazy_segment::context_read(s, 8, known, identity.segment_id) == Ok::<
        ((), int),
        ColumnarError,
    >(((), 88)));
    assert(s.len() == 128);
}

proof fn lemma_footer(
    s: Seq<u8>,
    known: MetadataView,
    plan: SegmentPlan,
    groups: Seq<LazyGroupView>,
    rows: u64,
    range: FooterRange,
)
    requires
        s == lazy_segment::footer_payload(plan.identity, plan.columns.len(), groups, rows),
        s.len() <= usize::MAX,
        metadata_fits(known, plan, groups.len(), rows),
        plan.columns.len() <= u32::MAX,
        groups.len() <= u32::MAX,
        forall|i: int|
            0 <= i < groups.len() ==> block::directory_kept(
                #[trigger] groups[i],
                plan.columns,
                plan.versioned,
            ),
        block::lazy_rows(groups, groups.len() as int) == rows,
        ranges::ranges_error(
            ranges::all_blocks(groups, groups.len() as int),
            LAZY_SEGMENT_HEADER_BYTES,
            range.offset,
        ) is None,
    ensures
        lazy_segment::footer_read(s, known, plan.identity.segment_id, range) == Ok::<
            Seq<LazyGroupView>,
            ColumnarError,
        >(groups),
{
    let identity = plan.identity;
    let n = groups.len() as int;
    let head = lazy_segment::footer_head(identity, plan.columns.len(), groups.len(), rows);
    let tail = block::directories_le(groups, n);
    let columns = plan.columns.len() as u32;
    assert(s.subrange(0, s.len() as int) =~= s);
    reader::lemma_holds(s, 0, head, tail);
    let p1 = lazy_segment::footer_magic();
    let p2 = p1 + bytes::u16_le(lazy_segment::INDEX_FORMAT_VERSION);
    let p3 = p2 + bytes::u16_le(0);
    let p4 = p3 + bytes::u64_le(identity.projection_id.0);
    let p5 = p4 + bytes::u64_le(identity.generation.0);
    let p6 = p5 + bytes::u64_le(identity.segment_id.0);
    let p7 = p6 + bytes::u32_le(columns);
    let p8 = p7 + bytes::u32_le(n as u32);
    reader::lemma_holds(s, 0, p8, bytes::u64_le(rows));
    reader::lemma_holds(s, 0, p7, bytes::u32_le(n as u32));
    reader::lemma_holds(s, 0, p6, bytes::u32_le(columns));
    reader::lemma_holds(s, 0, p5, bytes::u64_le(identity.segment_id.0));
    reader::lemma_holds(s, 0, p4, bytes::u64_le(identity.generation.0));
    reader::lemma_holds(s, 0, p3, bytes::u64_le(identity.projection_id.0));
    reader::lemma_holds(s, 0, p2, bytes::u16_le(0));
    reader::lemma_holds(s, 0, p1, bytes::u16_le(lazy_segment::INDEX_FORMAT_VERSION));
    reader::lemma_u16_read(s, 4, lazy_segment::INDEX_FORMAT_VERSION);
    reader::lemma_u16_read(s, 6, 0);
    reader::lemma_u64_read(s, 8, identity.projection_id.0);
    reader::lemma_u64_read(s, 16, identity.generation.0);
    reader::lemma_u64_read(s, 24, identity.segment_id.0);
    reader::lemma_u32_read(s, 32, columns);
    reader::lemma_u32_read(s, 36, n as u32);
    reader::lemma_u64_read(s, 40, rows);
    assert(lazy_segment::footer_head_read(s, 4, known, identity.segment_id) == Ok::<
        ((), int),
        ColumnarError,
    >(((), 48)));
    block::law_directories_round_trip(
        s,
        48,
        groups,
        plan.columns,
        plan.versioned,
        "indexed row count overflow",
        n,
    );
    assert(groups.take(n) =~= groups);
}

/// An indexed segment opens as it was written: its header leads to its footer,
/// its footer gives the directory, and each block of the directory holds its
/// column of its group.
pub proof fn law_written_segment_opens(
    known: MetadataView,
    plan: SegmentPlan,
    pieces: Seq<Piece>,
    rows: u64,
)
    requires
        writer::segment_made(plan, pieces, rows) is Ok,
        plan.start == LAZY_SEGMENT_HEADER_BYTES,
        pieces_kept(plan, pieces),
        piece_rows(pieces, pieces.len() as int) == rows,
        metadata_fits(known, plan, pieces.len(), rows),
        ({
            let file = writer::segment_made(plan, pieces, rows)->Ok_0;
            &&& file.footer.len() <= lazy_segment::MAX_INDEX_BYTES
            &&& writer::file_of(file).len() <= lazy_segment::MAX_FILE_BYTES
            &&& writer::file_of(file).len() <= usize::MAX
        }),
    ensures
        ({
            let file = writer::segment_made(plan, pieces, rows)->Ok_0;
            let whole = writer::file_of(file);
            let check = bytes::u32_at(file.footer, file.footer.len() - 4);
            let range = FooterRange {
                offset: (LAZY_SEGMENT_HEADER_BYTES + file.payload.len()) as u64,
                length: file.footer.len() as u64,
            };
            let segment_id = plan.identity.segment_id;
            &&& lazy_segment::size_error(whole.len() as u64) is None
            &&& whole.subrange(0, LAZY_SEGMENT_HEADER_BYTES as int) == file.header
            &&& lazy_segment::footer_range_of(
                file.header,
                known,
                segment_id,
                check,
                whole.len() as u64,
            ) == Ok::<FooterRange, ColumnarError>(range)
            &&& whole.subrange(range.offset as int, range.offset + range.length) == file.footer
            &&& lazy_segment::footer_check(file.footer, check) == Ok::<bool, ColumnarError>(true)
            &&& lazy_segment::footer_read(
                reader::payload_of(file.footer),
                known,
                segment_id,
                range,
            ) == Ok::<Seq<LazyGroupView>, ColumnarError>(file.groups)
            &&& file.groups.len() == pieces.len()
            &&& forall|i: int|
                0 <= i < pieces.len() ==> group_holds(
                    whole,
                    plan.columns,
                    writer::piece_group(plan, pieces[i]),
                    #[trigger] file.groups[i],
                )
        }),
{
    let file = writer::segment_made(plan, pieces, rows)->Ok_0;
    let whole = writer::file_of(file);
    let n = pieces.len() as int;
    let start = LAZY_SEGMENT_HEADER_BYTES as int;
    let footer_body = lazy_segment::footer_payload(
        plan.identity,
        plan.columns.len(),
        file.groups,
        rows,
    );
    let check = bytes::u32_at(file.footer, file.footer.len() - 4);
    let place = BlockRef {
        offset: (LAZY_SEGMENT_HEADER_BYTES + file.payload.len()) as u64,
        length: file.footer.len() as u64,
        checksum: check,
    };
    let range = FooterRange { offset: place.offset, length: place.length };
    writer::lemma_pieces_len(plan, pieces, n);
    lazy_segment::lemma_header_len(
        plan.identity,
        plan.kind,
        plan.versioned,
        plan.columns.len(),
        file.groups.len(),
        rows,
        place,
    );
    reader::lemma_holds_inside(file.header, file.payload, file.footer);
    assert(whole.subrange(0, start) =~= file.header);
    assert(whole.subrange(range.offset as int, range.offset + range.length) =~= file.footer);
    lemma_pieces_written(whole, plan, pieces, n);
    let header_body = lazy_segment::header_payload(
        plan.identity,
        plan.kind,
        plan.versioned,
        plan.columns.len(),
        file.groups.len(),
        rows,
        place,
    );
    reader::lemma_checked(header_body);
    reader::lemma_checked(footer_body);
    lemma_header(
        header_body,
        known,
        plan,
        file.groups.len(),
        rows,
        place,
        whole.len() as u64,
    );
    lemma_contiguous_ranges(
        ranges::all_blocks(file.groups, n),
        LAZY_SEGMENT_HEADER_BYTES,
        range.offset,
    );
    lemma_footer(footer_body, known, plan, file.groups, rows, range);
}

/// A block that holds the column of a group of rows is read back as that column.
pub proof fn law_column_block_reads_back(
    file: Seq<u8>,
    columns: Seq<ColumnarColumnSpec>,
    known: GroupView,
    entry: LazyChunkView,
    i: int,
)
    requires
        segment_laws::columns_kept(columns, known),
        0 <= i < columns.len(),
        column_holds(file, columns, known, entry, i),
        file.len() <= usize::MAX,
    ensures
        ({
            let payload = file.subrange(
                entry.block.offset as int,
                entry.block.offset + entry.block.length,
            );
            &&& checksum::crc32c_of(payload) == entry.block.checksum
            &&& chunk::chunk_read(payload, 0, columns[i], known.rows) == Ok::<
                ((VectorView, StatisticsView), int),
                ColumnarError,
            >(((known.columns[i].1, entry.statistics), payload.len() as int))
        }),
{
    let payload = segment::group_chunk_le(columns, known, i);
    segment_laws::lemma_statistics_found(columns, known, i);
    assert(known.columns[i].0 == columns[i].column_id);
    assert(known.statistics[i].0 == columns[i].column_id);
    assert(payload.subrange(0, payload.len() as int) =~= payload);
    chunk_laws::law_chunk_round_trip(
        payload,
        0,
        columns[i],
        known.columns[i].1,
        known.statistics[i].1,
    );
}

/// A block that holds row versions is read back as them.
pub proof fn law_version_block_reads_back(
    file: Seq<u8>,
    at: BlockRef,
    keys: Seq<StorageVersionKey>,
    storage_id: StorageId,
    kind: version::SnapshotKind,
)
    requires
        block_holds(file, at, version::keys_le(keys, keys.len() as int)),
        file.len() <= usize::MAX,
        forall|i: int|
            0 <= i < keys.len() ==> version::key_error(
                #[trigger] keys[i],
                storage_id,
                kind,
            ) is None,
    ensures
        ({
            let payload = file.subrange(at.offset as int, at.offset + at.length);
            &&& checksum::crc32c_of(payload) == at.checksum
            &&& version::keys_read(payload, 0, storage_id, kind, keys.len() as int) == Ok::<
                (Seq<StorageVersionKey>, int),
                ColumnarError,
            >((keys, payload.len() as int))
        }),
{
    let payload = version::keys_le(keys, keys.len() as int);
    assert(payload.subrange(0, payload.len() as int) =~= payload);
    version::lemma_keys_len(keys, keys.len() as int);
    version::law_keys_round_trip(payload, 0, keys, storage_id, kind, keys.len() as int);
    assert(keys.take(keys.len() as int) =~= keys);
}

} // verus!
