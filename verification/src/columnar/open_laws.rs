//! What is prepared opens again, and the blocks of what is opened hold the rows.
use super::block::{self, LazyGroupView};
use super::error::ColumnarError;
use super::group::{self, GroupView};
use super::indexed;
use super::lazy_scan;
use super::lazy_segment::{self, FooterRange, LAZY_SEGMENT_HEADER_BYTES};
use super::lazy_segment_laws;
use super::manifest::{self, ManifestView};
use super::manifest_laws;
use super::metadata::{LAZY_DELTA_FORMAT_VERSION, LAZY_FORMAT_VERSION};
use super::open::{self, FileParts};
use super::payload::{self, Fetched};
use super::prepare::{self, BaseOrder, PreparedView};
use super::scan;
use super::segment_laws;
use super::vector::{ColumnarColumnSpec, VectorView};
use super::writer::{self, Piece, SegmentFile};
use crate::bytes;
use crate::ids::ColumnId;
use vstd::prelude::*;
use vstd::utf8;

verus! {

broadcast use crate::bytes::group_le_len;

/// What the manifest of a prepared projection says.
pub open spec fn prepared_manifest(view: PreparedView) -> ManifestView {
    ManifestView {
        metadata: view.metadata,
        segment_id: view.segment_id,
        segment_file: utf8::encode_utf8(view.segment_file),
        segment_checksum: bytes::u32_at(view.file.footer, view.file.footer.len() - 4),
        version: LAZY_FORMAT_VERSION,
        base_format_version: LAZY_FORMAT_VERSION,
        delta_format_version: if view.metadata.incremental is Some {
            Some(LAZY_DELTA_FORMAT_VERSION)
        } else {
            None
        },
    }
}

/// Whether parts were read from the file of a segment.
pub open spec fn parts_of(parts: FileParts, file: SegmentFile) -> bool {
    let whole = writer::file_of(file);
    let start = LAZY_SEGMENT_HEADER_BYTES + file.payload.len();
    &&& parts.file_bytes == Ok::<u64, ColumnarError>(whole.len() as u64)
    &&& parts.header is Ok
    &&& parts.header->Ok_0@ == whole.subrange(0, LAZY_SEGMENT_HEADER_BYTES as int)
    &&& parts.footer is Ok
    &&& parts.footer->Ok_0@ == whole.subrange(start, start + file.footer.len())
}

/// A prepared projection opens: its manifest reads back, and its base segment has
/// the directory that was written, whose blocks hold the groups.
pub proof fn law_prepared_projection_opens(
    order: BaseOrder,
    pieces: Seq<Piece>,
    rows: u64,
    parts: FileParts,
    path: String,
)
    requires
        writer::segment_made(prepare::order_plan(order), pieces, rows) is Ok,
        ({
            let plan = prepare::order_plan(order);
            let file = writer::segment_made(plan, pieces, rows)->Ok_0;
            &&& prepare::prepared(order, file, rows) is Ok
            &&& lazy_segment_laws::pieces_kept(plan, pieces)
            &&& lazy_segment_laws::piece_rows(pieces, pieces.len() as int) == rows
            &&& file.footer.len() <= lazy_segment::MAX_INDEX_BYTES
            &&& writer::file_of(file).len() <= lazy_segment::MAX_FILE_BYTES
            &&& writer::file_of(file).len() <= usize::MAX
            &&& parts_of(parts, file)
            &&& ({
                let known = prepared_manifest(prepare::prepared(order, file, rows)->Ok_0);
                &&& manifest_laws::manifest_kept(known)
                &&& manifest::payload_le(
                    known.metadata,
                    known.segment_id,
                    known.segment_file,
                    known.segment_checksum,
                    known.version,
                ).len() <= usize::MAX
            })
        }),
    ensures
        ({
            let plan = prepare::order_plan(order);
            let file = writer::segment_made(plan, pieces, rows)->Ok_0;
            let view = prepare::prepared(order, file, rows)->Ok_0;
            let known = prepared_manifest(view);
            &&& manifest::manifest_of(view.manifest) == Ok::<ManifestView, ColumnarError>(known)
            &&& open::lazy_base(known, parts, path) == Ok::<
                (Seq<LazyGroupView>, u64),
                ColumnarError,
            >(
                (
                    file.groups,
                    scan::grown(file.footer.len() as u64, LAZY_SEGMENT_HEADER_BYTES as int),
                ),
            )
            &&& file.groups.len() == pieces.len()
            &&& forall|i: int|
                0 <= i < pieces.len() ==> lazy_segment_laws::group_holds(
                    writer::file_of(file),
                    plan.columns,
                    writer::piece_group(plan, pieces[i]),
                    #[trigger] file.groups[i],
                )
        }),
{
    let plan = prepare::order_plan(order);
    let file = writer::segment_made(plan, pieces, rows)->Ok_0;
    let view = prepare::prepared(order, file, rows)->Ok_0;
    let known = prepared_manifest(view);
    writer::lemma_pieces_len(plan, pieces, pieces.len() as int);
    lazy_segment_laws::law_written_segment_opens(known.metadata, plan, pieces, rows);
    manifest_laws::law_manifest_round_trip(known);
    let whole = writer::file_of(file);
    let range = FooterRange {
        offset: (LAZY_SEGMENT_HEADER_BYTES + file.payload.len()) as u64,
        length: file.footer.len() as u64,
    };
    assert(parts.header->Ok_0@ == file.header);
    assert(parts.footer->Ok_0@ == file.footer);
    assert(open::lazy_base_footer(known, range, parts.footer, path) == Ok::<
        (Seq<LazyGroupView>, u64),
        ColumnarError,
    >((file.groups, scan::grown(range.length, LAZY_SEGMENT_HEADER_BYTES as int))));
}

// ---------------------------------------------------------------------------
// Blocks
// ---------------------------------------------------------------------------
/// Whether the blocks of the wanted columns of a group were fetched from a file.
pub open spec fn fetched_from(
    file: Seq<u8>,
    entry: LazyGroupView,
    specs: Seq<ColumnarColumnSpec>,
    columns: Seq<ColumnId>,
    blocks: Seq<Fetched>,
    at: int,
) -> bool {
    forall|k: int|
        0 <= k < columns.len() ==> {
            let place = scan::position_of(specs, #[trigger] columns[k]);
            let want = entry.columns[place].block;
            &&& blocks[at + k] is Ok
            &&& blocks[at + k]->Ok_0@ == file.subrange(
                want.offset as int,
                want.offset + want.length,
            )
        }
}

/// A wanted column stands where the projection has it.
pub proof fn lemma_entry_place(
    file: Seq<u8>,
    entry: LazyGroupView,
    specs: Seq<ColumnarColumnSpec>,
    known: GroupView,
    columns: Seq<ColumnId>,
    k: int,
)
    requires
        lazy_segment_laws::group_holds(file, specs, known, entry),
        scan::unknown_error(specs, columns, columns.len() as int) is None,
        0 <= k < columns.len(),
    ensures
        indexed::chunk_place(entry, columns[k]) == Some(scan::position_of(specs, columns[k])),
        0 <= scan::position_of(specs, columns[k]) < specs.len(),
{
    scan::lemma_known_column(specs, columns, k);
    assert(indexed::chunk_ids(entry) =~= group::spec_ids(specs)) by {
        assert forall|i: int| 0 <= i < specs.len() implies indexed::chunk_ids(entry)[i]
            == group::spec_ids(specs)[i] by {
            assert(lazy_segment_laws::column_holds(file, specs, known, entry.columns[i], i));
        }
    }
}

/// The wanted columns of a group, out of blocks that were fetched from a file that
/// holds the group, are the group's columns.
pub proof fn law_fetched_blocks_give_columns(
    file: Seq<u8>,
    entry: LazyGroupView,
    specs: Seq<ColumnarColumnSpec>,
    known: GroupView,
    columns: Seq<ColumnId>,
    blocks: Seq<Fetched>,
    at: int,
    index: usize,
    path: String,
    missing: &'static str,
    n: int,
)
    requires
        segment_laws::columns_kept(specs, known),
        lazy_segment_laws::group_holds(file, specs, known, entry),
        file.len() <= usize::MAX,
        scan::unknown_error(specs, columns, columns.len() as int) is None,
        fetched_from(file, entry, specs, columns, blocks, at),
        0 <= n <= columns.len(),
    ensures
        indexed::column_requests(entry, columns, index, n).len() == n,
        lazy_scan::vectors_read(entry, columns, blocks, at, index, path, missing, n) == Ok::<
            Seq<VectorView>,
            ColumnarError,
        >(
            Seq::new(
                n as nat,
                |k: int| known.columns[scan::position_of(specs, columns[k])].1,
            ),
        ),
    decreases n,
{
    let whole = Seq::new(
        n as nat,
        |k: int| known.columns[scan::position_of(specs, columns[k])].1,
    );
    if n > 0 {
        law_fetched_blocks_give_columns(
            file,
            entry,
            specs,
            known,
            columns,
            blocks,
            at,
            index,
            path,
            missing,
            n - 1,
        );
        lemma_entry_place(file, entry, specs, known, columns, n - 1);
        let place = scan::position_of(specs, columns[n - 1]);
        let want = entry.columns[place];
        assert(lazy_segment_laws::column_holds(file, specs, known, want, place));
        lazy_segment_laws::law_column_block_reads_back(file, specs, known, want, place);
        let s = file.subrange(want.block.offset as int, want.block.offset + want.block.length);
        let fetched = blocks[at + n - 1];
        assert(columns[n - 1] == columns[n - 1]);
        assert(fetched is Ok && fetched->Ok_0@ == s);
        assert(payload::column_read(fetched, want, entry.rows, path) == Ok::<
            VectorView,
            ColumnarError,
        >(known.columns[place].1));
        assert(whole =~= Seq::new(
            (n - 1) as nat,
            |k: int| known.columns[scan::position_of(specs, columns[k])].1,
        ).push(known.columns[place].1));
    } else {
        assert(whole =~= Seq::empty());
    }
}

/// A group of an indexed projection gives the same columns to a scan as the group
/// in memory does.
pub proof fn law_indexed_batch_is_the_same(
    specs: Seq<ColumnarColumnSpec>,
    known: GroupView,
    columns: Seq<ColumnId>,
    rows: Seq<usize>,
    n: int,
)
    requires
        segment_laws::columns_kept(specs, known),
        scan::unknown_error(specs, columns, columns.len() as int) is None,
        0 <= n <= columns.len(),
    ensures
        scan::picked_columns(known, columns, rows, n) == Ok::<
            Seq<(ColumnId, VectorView)>,
            ColumnarError,
        >(
            lazy_scan::batch_of(
                columns,
                Seq::new(
                    columns.len(),
                    |k: int| known.columns[scan::position_of(specs, columns[k])].1,
                ),
                rows,
            ).columns.take(n),
        ),
    decreases n,
{
    let whole = lazy_scan::batch_of(
        columns,
        Seq::new(
            columns.len(),
            |k: int| known.columns[scan::position_of(specs, columns[k])].1,
        ),
        rows,
    ).columns;
    if n > 0 {
        law_indexed_batch_is_the_same(specs, known, columns, rows, n - 1);
        assert(scan::column_ids(known.columns) =~= group::spec_ids(specs)) by {
            assert forall|i: int| 0 <= i < specs.len() implies scan::column_ids(known.columns)[i]
                == group::spec_ids(specs)[i] by {
                assert(known.columns[i].0 == specs[i].column_id);
            }
        }
        scan::lemma_known_column(specs, columns, n - 1);
        assert(whole.take(n) =~= whole.take(n - 1).push(whole[n - 1]));
    } else {
        assert(whole.take(0) =~= Seq::empty());
    }
}

} // verus!
