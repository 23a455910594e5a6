//! Indexed delta segments open as they were written, and their blocks hold the
//! rows that their changes bring.
use super::block::{self, BlockRef, LazyGroupView};
use super::delta;
use super::delta_laws;
use super::descriptor;
use super::error::ColumnarError;
use super::lazy_delta::{self, DeltaTotals, LAZY_DELTA_HEADER_BYTES};
use super::lazy_segment::{self, FooterRange, INDEX_FORMAT_VERSION};
use super::lazy_segment_laws;
use super::metadata::{
    DeltaSegmentView, MetadataView, LAZY_DELTA_FORMAT_VERSION, MAX_ROW_GROUPS,
};
use super::overlay::{DeltaDescriptor, DeltaMutation};
use super::project::RowBatchView;
use super::ranges;
use super::reader;
use super::writer::{self, Piece, SegmentPlan};
use crate::bytes;
use crate::value::ScalarView;
use vstd::prelude::*;

verus! {

broadcast use crate::bytes::group_le_len;

/// The pieces of the rows that row changes bring.
pub open spec fn delta_pieces(plan: SegmentPlan, rows: Seq<Seq<ScalarView>>) -> Seq<Piece> {
    let (pieces, pending) = writer::fed(
        plan,
        Seq::empty(),
        rows,
        writer::no_refusals(rows.len()),
        rows.len() as int,
    )->Ok_0;
    writer::completed(pieces, pending)
}

/// What the header of a written delta segment says.
pub open spec fn written_totals(
    known: MetadataView,
    expected: DeltaSegmentView,
    batches: nat,
    footer: BlockRef,
) -> DeltaTotals {
    DeltaTotals {
        generation: known.incremental->0.stream_generation,
        before: expected.before,
        after: expected.after,
        batches: batches as u32,
        columns: known.columns.len() as u32,
        mutations: expected.mutation_count,
        rows: expected.after_row_count,
        footer: FooterRange { offset: footer.offset, length: footer.length },
    }
}

proof fn lemma_flattened_len(pieces: Seq<Piece>, n: int)
    ensures
        lazy_segment_laws::piece_rows(pieces, n) == writer::flattened(pieces, n).len(),
    decreases n,
{
    if n > 0 {
        lemma_flattened_len(pieces, n - 1);
    }
}

/// The rows of the pieces of rows that were fed are those rows, in order.
pub proof fn law_pieces_hold_rows(plan: SegmentPlan, rows: Seq<Seq<ScalarView>>)
    requires
        writer::fed(
            plan,
            Seq::empty(),
            rows,
            writer::no_refusals(rows.len()),
            rows.len() as int,
        ) is Ok,
    ensures
        ({
            let pieces = delta_pieces(plan, rows);
            &&& writer::flattened(pieces, pieces.len() as int) == rows
            &&& lazy_segment_laws::piece_rows(pieces, pieces.len() as int) == rows.len()
        }),
{
    let none = Seq::<crate::change_stream::types::StorageVersionKey>::empty();
    let refusals = writer::no_refusals(rows.len());
    let n = rows.len() as int;
    let (pieces, pending) = writer::fed(plan, none, rows, refusals, n)->Ok_0;
    let all = writer::completed(pieces, pending);
    writer::law_fed_rows_are_kept(plan, none, rows, refusals, n);
    assert(rows.take(n) =~= rows);
    if pending.rows.len() == 0 {
        assert(writer::flattened(pieces, pieces.len() as int) + pending.rows =~= writer::flattened(
            pieces,
            pieces.len() as int,
        ));
    } else {
        writer::lemma_flattened_prefix(all, pieces, pieces.len() as int);
    }
    lemma_flattened_len(all, all.len() as int);
}

proof fn lemma_delta_header(
    s: Seq<u8>,
    known: MetadataView,
    expected: DeltaSegmentView,
    batches: Seq<RowBatchView>,
    mutations: Seq<DeltaMutation<Seq<ScalarView>>>,
    footer: BlockRef,
    file_bytes: u64,
)
    requires
        s == lazy_delta::header_payload(known, batches, mutations, footer),
        s.len() <= usize::MAX,
        known.incremental is Some,
        known.columns.len() <= u32::MAX,
        delta_laws::segment_fits(expected, batches, mutations),
        footer.offset >= LAZY_DELTA_HEADER_BYTES,
        footer.length <= lazy_segment::MAX_INDEX_BYTES,
        footer.offset + footer.length == file_bytes,
        footer.checksum == expected.checksum,
    ensures
        lazy_delta::header_read(s, known, expected, file_bytes) == Ok::<DeltaTotals, ColumnarError>(
            written_totals(known, expected, batches.len(), footer),
        ),
{
    let generation = known.incremental->0.stream_generation;
    let head = delta::context_le(known, LAZY_DELTA_FORMAT_VERSION);
    let tail = lazy_delta::header_counts(
        generation,
        expected.before,
        expected.after,
        batches.len(),
        known.columns.len(),
        mutations.len(),
        expected.after_row_count as nat,
        footer,
    );
    descriptor::lemma_brought(mutations, mutations.len() as int);
    assert(s.subrange(0, s.len() as int) =~= s);
    reader::lemma_holds(s, 0, head, tail);
    delta_laws::lemma_context(
        s,
        known,
        LAZY_DELTA_FORMAT_VERSION,
        "invalid lazy delta flags",
        "lazy delta context",
        "lazy delta context",
    );
    let columns = known.columns.len() as u32;
    let count = batches.len() as u32;
    let q1 = bytes::u64_le(generation.0);
    let q2 = q1 + bytes::u64_le(expected.before.0);
    let q3 = q2 + bytes::u64_le(expected.after.0);
    let q4 = q3 + bytes::u32_le(count);
    let q5 = q4 + bytes::u32_le(columns);
    let q6 = q5 + bytes::u64_le(expected.mutation_count);
    let q7 = q6 + bytes::u64_le(expected.after_row_count);
    let q8 = q7 + bytes::u64_le(footer.offset);
    let q9 = q8 + bytes::u64_le(footer.length);
    let q10 = q9 + bytes::u32_le(footer.checksum);
    assert(tail == q10 + bytes::u32_le(0));
    reader::lemma_holds(s, 80, q10, bytes::u32_le(0));
    reader::lemma_holds(s, 80, q9, bytes::u32_le(footer.checksum));
    reader::lemma_holds(s, 80, q8, bytes::u64_le(footer.length));
    reader::lemma_holds(s, 80, q7, bytes::u64_le(footer.offset));
    reader::lemma_holds(s, 80, q6, bytes::u64_le(expected.after_row_count));
    reader::lemma_holds(s, 80, q5, bytes::u64_le(expected.mutation_count));
    reader::lemma_holds(s, 80, q4, bytes::u32_le(columns));
    reader::lemma_holds(s, 80, q3, bytes::u32_le(count));
    reader::lemma_holds(s, 80, q2, bytes::u64_le(expected.after.0));
    reader::lemma_holds(s, 80, q1, bytes::u64_le(expected.before.0));
    reader::lemma_u64_read(s, 80, generation.0);
    reader::lemma_u64_read(s, 88, expected.before.0);
    reader::lemma_u64_read(s, 96, expected.after.0);
    reader::lemma_u32_read(s, 104, count);
    reader::lemma_u32_read(s, 108, columns);
    reader::lemma_u64_read(s, 112, expected.mutation_count);
    reader::lemma_u64_read(s, 120, expected.after_row_count);
    reader::lemma_u64_read(s, 128, footer.offset);
    reader::lemma_u64_read(s, 136, footer.length);
    reader::lemma_u32_read(s, 144, footer.checksum);
    reader::lemma_u32_read(s, 148, 0);
    assert(lazy_delta::totals_read(s, 80, expected.checksum) == Ok::<
        (DeltaTotals, int),
        ColumnarError,
    >((written_totals(known, expected, batches.len(), footer), 152)));
    assert(s.len() == 152);
}

proof fn lemma_footer_start(s: Seq<u8>, known: MetadataView, totals: DeltaTotals, groups: nat)
    requires
        reader::holds(
            s,
            0,
            lazy_delta::footer_context(known) + lazy_delta::footer_counts(
                totals.generation,
                totals.before,
                totals.after,
                totals.batches as nat,
                totals.mutations as nat,
                totals.rows as nat,
                totals.columns as nat,
                groups,
            ),
        ),
        s.len() <= usize::MAX,
        groups <= u32::MAX,
    ensures
        (lazy_delta::footer_context(known) + lazy_delta::footer_counts(
            totals.generation,
            totals.before,
            totals.after,
            totals.batches as nat,
            totals.mutations as nat,
            totals.rows as nat,
            totals.columns as nat,
            groups,
        )).len() == 124,
        lazy_delta::footer_start_read(s, 0, known, totals) == Ok::<((), int), ColumnarError>(
            ((), 120),
        ),
        reader::u32_read(s, 120) == Ok::<(u32, int), ColumnarError>((groups as u32, 124)),
{
    let head = lazy_delta::footer_context(known);
    let counts = lazy_delta::footer_counts(
        totals.generation,
        totals.before,
        totals.after,
        totals.batches as nat,
        totals.mutations as nat,
        totals.rows as nat,
        totals.columns as nat,
        groups,
    );
    reader::lemma_holds(s, 0, head, counts);
    let p1 = lazy_delta::delta_footer_magic();
    let p2 = p1 + bytes::u16_le(INDEX_FORMAT_VERSION);
    let p3 = p2 + bytes::u16_le(0);
    let p4 = p3 + bytes::u64_le(known.id.0);
    let p5 = p4 + bytes::u64_le(known.generation.0);
    let p6 = p5 + bytes::u64_le(known.table_id.0);
    let p7 = p6 + bytes::u64_le(known.source_storage_id.0);
    reader::lemma_holds(s, 0, p7, known.schema_fingerprint.bytes@);
    reader::lemma_holds(s, 0, p6, bytes::u64_le(known.source_storage_id.0));
    reader::lemma_holds(s, 0, p5, bytes::u64_le(known.table_id.0));
    reader::lemma_holds(s, 0, p4, bytes::u64_le(known.generation.0));
    reader::lemma_holds(s, 0, p3, bytes::u64_le(known.id.0));
    reader::lemma_holds(s, 0, p2, bytes::u16_le(0));
    reader::lemma_holds(s, 0, p1, bytes::u16_le(INDEX_FORMAT_VERSION));
    reader::lemma_u16_read(s, 4, INDEX_FORMAT_VERSION);
    reader::lemma_u16_read(s, 6, 0);
    reader::lemma_u64_read(s, 8, known.id.0);
    reader::lemma_u64_read(s, 16, known.generation.0);
    reader::lemma_u64_read(s, 24, known.table_id.0);
    reader::lemma_u64_read(s, 32, known.source_storage_id.0);
    reader::lemma_fingerprint_read(s, 40, known.schema_fingerprint);
    let q1 = bytes::u64_le(totals.generation.0);
    let q2 = q1 + bytes::u64_le(totals.before.0);
    let q3 = q2 + bytes::u64_le(totals.after.0);
    let q4 = q3 + bytes::u32_le(totals.batches);
    let q5 = q4 + bytes::u64_le(totals.mutations);
    let q6 = q5 + bytes::u64_le(totals.rows);
    let q7 = q6 + bytes::u32_le(totals.columns);
    assert(counts == q7 + bytes::u32_le(groups as u32));
    reader::lemma_holds(s, 72, q7, bytes::u32_le(groups as u32));
    reader::lemma_holds(s, 72, q6, bytes::u32_le(totals.columns));
    reader::lemma_holds(s, 72, q5, bytes::u64_le(totals.rows));
    reader::lemma_holds(s, 72, q4, bytes::u64_le(totals.mutations));
    reader::lemma_holds(s, 72, q3, bytes::u32_le(totals.batches));
    reader::lemma_holds(s, 72, q2, bytes::u64_le(totals.after.0));
    reader::lemma_holds(s, 72, q1, bytes::u64_le(totals.before.0));
    reader::lemma_u64_read(s, 72, totals.generation.0);
    reader::lemma_u64_read(s, 80, totals.before.0);
    reader::lemma_u64_read(s, 88, totals.after.0);
    reader::lemma_u32_read(s, 96, totals.batches);
    reader::lemma_u64_read(s, 100, totals.mutations);
    reader::lemma_u64_read(s, 108, totals.rows);
    reader::lemma_u32_read(s, 116, totals.columns);
    reader::lemma_u32_read(s, 120, groups as u32);
    let context = "lazy delta footer context";
    assert(delta::owner_read(s, 8, known, context) == Ok::<((), int), ColumnarError>(((), 72)));
    assert(lazy_delta::footer_totals_read(s, 72, totals, context) == Ok::<((), int), ColumnarError>(
        ((), 120),
    ));
}

proof fn lemma_delta_footer(
    s: Seq<u8>,
    known: MetadataView,
    expected: DeltaSegmentView,
    batches: Seq<RowBatchView>,
    mutations: Seq<DeltaMutation<Seq<ScalarView>>>,
    groups: Seq<LazyGroupView>,
    footer: BlockRef,
)
    requires
        s == lazy_delta::footer_payload(known, batches, mutations, groups),
        s.len() <= usize::MAX,
        known.incremental is Some,
        known.columns.len() <= u32::MAX,
        groups.len() <= MAX_ROW_GROUPS,
        delta_laws::segment_fits(expected, batches, mutations),
        delta_laws::mutations_kept(
            mutations,
            known.source_storage_id,
            known.source_token.kind,
        ),
        forall|i: int|
            0 <= i < groups.len() ==> block::directory_kept(
                #[trigger] groups[i],
                known.columns,
                false,
            ),
        block::lazy_rows(groups, groups.len() as int) == expected.after_row_count,
        ranges::ranges_error(
            ranges::all_blocks(groups, groups.len() as int),
            LAZY_DELTA_HEADER_BYTES,
            footer.offset,
        ) is None,
    ensures
        lazy_delta::footer_read(
            s,
            known,
            written_totals(known, expected, batches.len(), footer),
        ) == Ok::<(Seq<LazyGroupView>, Seq<DeltaDescriptor>), ColumnarError>(
            (groups, delta_laws::descriptors_of(mutations)),
        ),
{
    let totals = written_totals(known, expected, batches.len(), footer);
    let n = mutations.len() as int;
    let count = batches.len() as int;
    descriptor::lemma_brought(mutations, n);
    let p1 = lazy_delta::footer_context(known) + lazy_delta::footer_counts(
        totals.generation,
        totals.before,
        totals.after,
        totals.batches as nat,
        totals.mutations as nat,
        totals.rows as nat,
        totals.columns as nat,
        groups.len(),
    );
    let changes = descriptor::batches_le(batches, mutations, count);
    let p2 = p1 + changes;
    let entries = block::directories_le(groups, groups.len() as int);
    assert(s == p2 + entries);
    assert(s.subrange(0, s.len() as int) =~= s);
    reader::lemma_holds(s, 0, p2, entries);
    reader::lemma_holds(s, 0, p1, changes);
    lemma_footer_start(s, known, totals, groups.len());
    let context = lazy_delta::lazy_context(known, totals.rows);
    delta_laws::law_descriptors_round_trip(
        s,
        124,
        batches,
        mutations,
        context,
        expected.before,
        count,
    );
    let list = delta_laws::descriptors_of(mutations);
    assert(list.take(n) =~= list);
    delta_laws::lemma_brought_same(mutations, n);
    assert(lazy_delta::descriptors_read(s, 124, known, totals) == Ok::<
        (Seq<DeltaDescriptor>, int),
        ColumnarError,
    >((list, p2.len() as int)));
    block::law_directories_round_trip(
        s,
        p2.len() as int,
        groups,
        known.columns,
        false,
        "delta indexed row count overflow",
        groups.len() as int,
    );
    assert(groups.take(groups.len() as int) =~= groups);
}

/// An indexed delta segment opens as it was written: its header leads to its
/// footer, its footer gives the row changes and the directory, and each block of
/// the directory holds its column of its rows.
pub proof fn law_written_delta_opens(
    known: MetadataView,
    expected: DeltaSegmentView,
    batches: Seq<RowBatchView>,
    mutations: Seq<DeltaMutation<Seq<ScalarView>>>,
)
    requires
        lazy_delta::delta_made(known, batches, mutations) is Ok,
        known.columns.len() <= u32::MAX,
        delta_laws::segment_fits(expected, batches, mutations),
        delta_laws::mutations_kept(
            mutations,
            known.source_storage_id,
            known.source_token.kind,
        ),
        ({
            let file = lazy_delta::delta_made(known, batches, mutations)->Ok_0;
            let plan = lazy_delta::delta_plan(known, expected.after);
            let rows = delta::rows_brought(mutations, mutations.len() as int);
            &&& lazy_segment_laws::pieces_kept(plan, delta_pieces(plan, rows))
            &&& file.groups.len() <= MAX_ROW_GROUPS
            &&& file.footer.len() <= lazy_segment::MAX_INDEX_BYTES
            &&& lazy_delta::delta_file_of(file).len() <= usize::MAX
            &&& expected.bytes == lazy_delta::delta_file_of(file).len()
            &&& expected.checksum == bytes::u32_at(file.footer, file.footer.len() - 4)
        }),
    ensures
        ({
            let file = lazy_delta::delta_made(known, batches, mutations)->Ok_0;
            let plan = lazy_delta::delta_plan(known, expected.after);
            let rows = delta::rows_brought(mutations, mutations.len() as int);
            let pieces = delta_pieces(plan, rows);
            let whole = lazy_delta::delta_file_of(file);
            let place = lazy_delta::footer_place(file.payload, file.footer);
            let totals = written_totals(known, expected, batches.len(), place);
            &&& lazy_delta::delta_size_error(whole.len() as u64, expected) is None
            &&& whole.subrange(0, LAZY_DELTA_HEADER_BYTES as int) == file.header
            &&& lazy_delta::totals_of(file.header, known, expected, whole.len() as u64) == Ok::<
                DeltaTotals,
                ColumnarError,
            >(totals)
            &&& whole.subrange(place.offset as int, place.offset + place.length) == file.footer
            &&& lazy_segment::footer_check(file.footer, expected.checksum) == Ok::<
                bool,
                ColumnarError,
            >(true)
            &&& lazy_delta::footer_read(reader::payload_of(file.footer), known, totals) == Ok::<
                (Seq<LazyGroupView>, Seq<DeltaDescriptor>),
                ColumnarError,
            >((file.groups, delta_laws::descriptors_of(mutations)))
            &&& file.groups.len() == pieces.len()
            &&& writer::flattened(pieces, pieces.len() as int) == rows
            &&& forall|i: int|
                0 <= i < pieces.len() ==> lazy_segment_laws::group_holds(
                    whole,
                    known.columns,
                    writer::piece_group(plan, pieces[i]),
                    #[trigger] file.groups[i],
                )
        }),
{
    let file = lazy_delta::delta_made(known, batches, mutations)->Ok_0;
    let plan = lazy_delta::delta_plan(known, expected.after);
    let rows = delta::rows_brought(mutations, mutations.len() as int);
    let pieces = delta_pieces(plan, rows);
    let whole = lazy_delta::delta_file_of(file);
    let place = lazy_delta::footer_place(file.payload, file.footer);
    let n = pieces.len() as int;
    let start = LAZY_DELTA_HEADER_BYTES as int;
    delta::lemma_rows_brought(mutations, mutations.len() as int);
    law_pieces_hold_rows(plan, rows);
    writer::lemma_pieces_len(plan, pieces, n);
    lazy_delta::lemma_delta_header_len(known, batches, mutations, place);
    reader::lemma_holds_inside(file.header, file.payload, file.footer);
    assert(whole.subrange(0, start) =~= file.header);
    assert(whole.subrange(place.offset as int, place.offset + place.length) =~= file.footer);
    lazy_segment_laws::lemma_pieces_written(whole, plan, pieces, n);
    let header_body = lazy_delta::header_payload(known, batches, mutations, place);
    let footer_body = lazy_delta::footer_payload(known, batches, mutations, file.groups);
    reader::lemma_checked(header_body);
    reader::lemma_checked(footer_body);
    lemma_delta_header(
        header_body,
        known,
        expected,
        batches,
        mutations,
        place,
        whole.len() as u64,
    );
    lazy_segment_laws::lemma_contiguous_ranges(
        ranges::all_blocks(file.groups, n),
        LAZY_DELTA_HEADER_BYTES,
        place.offset,
    );
    lemma_delta_footer(
        footer_body,
        known,
        expected,
        batches,
        mutations,
        file.groups,
        place,
    );
}

} // verus!
