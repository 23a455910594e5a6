//! Delta segments are read back as they were written.
use super::delta;
use super::descriptor::{self, DescriptorContext};
use super::error::ColumnarError;
use super::group;
use super::metadata::{DeltaSegmentView, MetadataView, DELTA_FORMAT_VERSION};
use super::overlay::{DeltaDescriptor, DeltaMutation};
use super::project::RowBatchView;
use super::reader;
use super::segment;
use super::segment_laws;
use super::vector::VectorView;
use super::version::{self, SnapshotKind};
use crate::bytes;
use crate::change_stream::log::CHANGE_LOG_MAX_MUTATIONS;
use crate::checksum;
use crate::ids::{StorageDataVersion, StorageId};
use crate::value::ScalarView;
use vstd::prelude::*;

verus! {

broadcast use crate::bytes::group_le_len;

/// Row changes with the places of the rows that they bring, in order.
pub open spec fn descriptors_of<V>(mutations: Seq<DeltaMutation<V>>) -> Seq<DeltaDescriptor> {
    Seq::new(
        mutations.len(),
        |i: int|
            DeltaMutation {
                old_version: mutations[i].old_version,
                new_version: mutations[i].new_version,
                after: match mutations[i].after {
                    Some(_) => Some(descriptor::brought(mutations, i) as u64),
                    None => None,
                },
            },
    )
}

/// Whether a row change inserts, replaces or deletes a row of a storage.
pub open spec fn mutation_kept<V>(
    mutation: DeltaMutation<V>,
    storage_id: StorageId,
    kind: SnapshotKind,
) -> bool {
    match (mutation.old_version, mutation.new_version, mutation.after) {
        (None, Some(new), Some(_)) => version::key_error(new, storage_id, kind) is None,
        (Some(old), Some(new), Some(_)) => {
            &&& old != new
            &&& version::key_error(old, storage_id, kind) is None
            &&& version::key_error(new, storage_id, kind) is None
        },
        (Some(old), None, None) => version::key_error(old, storage_id, kind) is None,
        _ => false,
    }
}

/// Whether row changes are all ones of a storage.
pub open spec fn mutations_kept<V>(
    mutations: Seq<DeltaMutation<V>>,
    storage_id: StorageId,
    kind: SnapshotKind,
) -> bool {
    forall|i: int|
        0 <= i < mutations.len() ==> #[trigger] mutation_kept(mutations[i], storage_id, kind)
}

/// Where the first `n` batches end.
pub open spec fn frontier_of(
    batches: Seq<RowBatchView>,
    before: StorageDataVersion,
    n: int,
) -> StorageDataVersion {
    if n <= 0 {
        before
    } else {
        batches[n - 1].after
    }
}

/// Whether a batch follows the ones before it.
pub open spec fn batch_kept(batches: Seq<RowBatchView>, before: StorageDataVersion, i: int) -> bool {
    &&& batches[i].before == frontier_of(batches, before, i)
    &&& batches[i].after.0 > batches[i].before.0
    &&& batches[i].mutations.len() <= u32::MAX
}

/// Whether batches follow each other from a frontier on.
pub open spec fn batches_kept(batches: Seq<RowBatchView>, before: StorageDataVersion) -> bool {
    forall|i: int| 0 <= i < batches.len() ==> #[trigger] batch_kept(batches, before, i)
}

proof fn lemma_brought_grows<V>(mutations: Seq<DeltaMutation<V>>, n: int, m: int)
    requires
        0 <= n <= m <= mutations.len(),
    ensures
        descriptor::brought(mutations, n) <= descriptor::brought(mutations, m),
        n < m && mutations[n].after is Some ==> descriptor::brought(mutations, n)
            < descriptor::brought(mutations, m),
    decreases m - n,
{
    if n < m {
        lemma_brought_grows(mutations, n, m - 1);
    }
}

/// The rows that row changes bring in order are each brought once.
pub proof fn lemma_rows_free<V>(mutations: Seq<DeltaMutation<V>>, i: int)
    requires
        0 <= i < mutations.len(),
        mutations.len() <= u64::MAX,
    ensures
        descriptor::row_free(
            descriptors_of(mutations).take(i),
            descriptors_of(mutations)[i],
            descriptor::brought(mutations, mutations.len() as int) as u64,
        ),
{
    let list = descriptors_of(mutations);
    let n = mutations.len() as int;
    descriptor::lemma_brought(mutations, n);
    descriptor::lemma_brought(mutations, i);
    if mutations[i].after is Some {
        lemma_brought_grows(mutations, i, n);
        let row = list[i].after->0;
        assert forall|j: int| 0 <= j < i implies (#[trigger] list.take(i)[j]).after != Some(row) by {
            descriptor::lemma_brought(mutations, j);
            lemma_brought_grows(mutations, j, i);
        }
    }
}

proof fn lemma_descriptor<V>(
    s: Seq<u8>,
    at: int,
    mutation: DeltaMutation<V>,
    index: u64,
    context: DescriptorContext,
)
    requires
        reader::holds(s, at, descriptor::descriptor_le(mutation, index)),
        s.len() <= usize::MAX,
        mutation_kept(mutation, context.storage_id, context.kind),
    ensures
        descriptor::descriptor_read(s, at, context) == Ok::<(DeltaDescriptor, int), ColumnarError>(
            (
                DeltaMutation {
                    old_version: mutation.old_version,
                    new_version: mutation.new_version,
                    after: match mutation.after {
                        Some(_) => Some(index),
                        None => None,
                    },
                },
                at + descriptor::descriptor_le(mutation, index).len(),
            ),
        ),
{
    match (mutation.old_version, mutation.new_version) {
        (None, Some(new)) => {
            let p1 = seq![1u8];
            let p2 = p1 + version::key_le(new);
            reader::lemma_holds(s, at, p2, bytes::u64_le(index));
            reader::lemma_holds(s, at, p1, version::key_le(new));
            version::lemma_key_len(new);
            reader::lemma_u8_read(s, at, 1);
            version::law_key_round_trip(s, at + 1, new, context.storage_id, context.kind);
            reader::lemma_u64_read(s, at + 25, index);
        },
        (Some(old), Some(new)) => {
            let p1 = seq![2u8];
            let p2 = p1 + version::key_le(old);
            let p3 = p2 + version::key_le(new);
            reader::lemma_holds(s, at, p3, bytes::u64_le(index));
            reader::lemma_holds(s, at, p2, version::key_le(new));
            reader::lemma_holds(s, at, p1, version::key_le(old));
            version::lemma_key_len(old);
            version::lemma_key_len(new);
            reader::lemma_u8_read(s, at, 2);
            version::law_key_round_trip(s, at + 1, old, context.storage_id, context.kind);
            version::law_key_round_trip(s, at + 25, new, context.storage_id, context.kind);
            reader::lemma_u64_read(s, at + 49, index);
        },
        (Some(old), None) => {
            let p1 = seq![3u8];
            reader::lemma_holds(s, at, p1, version::key_le(old));
            version::lemma_key_len(old);
            reader::lemma_u8_read(s, at, 3);
            version::law_key_round_trip(s, at + 1, old, context.storage_id, context.kind);
        },
        _ => {},
    }
}

proof fn lemma_run<V>(
    s: Seq<u8>,
    at: int,
    mutations: Seq<DeltaMutation<V>>,
    context: DescriptorContext,
    from: int,
    n: int,
)
    requires
        0 <= from,
        0 <= n,
        from + n <= mutations.len() <= u64::MAX,
        reader::holds(s, at, descriptor::run_le(mutations, from, n)),
        s.len() <= usize::MAX,
        mutations_kept(mutations, context.storage_id, context.kind),
        context.after_count == descriptor::brought(mutations, mutations.len() as int),
    ensures
        descriptor::run_read(s, at, context, descriptors_of(mutations).take(from), n) == Ok::<
            (Seq<DeltaDescriptor>, int),
            ColumnarError,
        >(
            (
                descriptors_of(mutations).take(from + n),
                at + descriptor::run_le(mutations, from, n).len(),
            ),
        ),
    decreases n,
{
    if n > 0 {
        let i = from + n - 1;
        let index = descriptor::brought(mutations, i) as u64;
        let before = descriptor::run_le(mutations, from, n - 1);
        reader::lemma_holds(s, at, before, descriptor::descriptor_le(mutations[i], index));
        lemma_run(s, at, mutations, context, from, n - 1);
        assert(mutation_kept(mutations[i], context.storage_id, context.kind));
        lemma_descriptor(s, at + before.len(), mutations[i], index, context);
        lemma_rows_free(mutations, i);
        let list = descriptors_of(mutations);
        assert(list.take(i).push(list[i]) =~= list.take(i + 1));
    }
}

proof fn lemma_changes_grow(batches: Seq<RowBatchView>, n: int, m: int)
    requires
        0 <= n <= m <= batches.len(),
    ensures
        0 <= descriptor::changes_in(batches, n) <= descriptor::changes_in(batches, m),
    decreases m,
{
    if n < m {
        lemma_changes_grow(batches, n, m - 1);
    } else if n > 0 {
        lemma_changes_grow(batches, n - 1, n - 1);
    }
}

/// Written row changes are read back.
pub proof fn law_descriptors_round_trip<V>(
    s: Seq<u8>,
    at: int,
    batches: Seq<RowBatchView>,
    mutations: Seq<DeltaMutation<V>>,
    context: DescriptorContext,
    before: StorageDataVersion,
    n: int,
)
    requires
        0 <= n <= batches.len(),
        reader::holds(s, at, descriptor::batches_le(batches, mutations, n)),
        s.len() <= usize::MAX,
        mutations.len() <= u64::MAX,
        batches_kept(batches, before),
        descriptor::changes_in(batches, batches.len() as int) == mutations.len(),
        mutations_kept(mutations, context.storage_id, context.kind),
        context.after_count == descriptor::brought(mutations, mutations.len() as int),
    ensures
        descriptor::frames_read(s, at, context, before, n) == Ok::<
            ((Seq<DeltaDescriptor>, StorageDataVersion), int),
            ColumnarError,
        >(
            (
                (
                    descriptors_of(mutations).take(descriptor::changes_in(batches, n)),
                    frontier_of(batches, before, n),
                ),
                at + descriptor::batches_le(batches, mutations, n).len(),
            ),
        ),
    decreases n,
{
    if n > 0 {
        let batch = batches[n - 1];
        let from = descriptor::changes_in(batches, n - 1);
        let count = batch.mutations.len() as int;
        let start = descriptor::batches_le(batches, mutations, n - 1);
        let at2 = at + start.len();
        lemma_changes_grow(batches, n - 1, n);
        lemma_changes_grow(batches, n, batches.len() as int);
        reader::lemma_holds(s, at, start, descriptor::batch_le(batch, mutations, from));
        law_descriptors_round_trip(s, at, batches, mutations, context, before, n - 1);
        assert(batch_kept(batches, before, n - 1));
        let p1 = bytes::u64_le(batch.before.0);
        let p2 = p1 + bytes::u64_le(batch.after.0);
        let p3 = p2 + bytes::u32_le(count as u32);
        reader::lemma_holds(s, at2, p3, descriptor::run_le(mutations, from, count));
        reader::lemma_holds(s, at2, p2, bytes::u32_le(count as u32));
        reader::lemma_holds(s, at2, p1, bytes::u64_le(batch.after.0));
        reader::lemma_u64_read(s, at2, batch.before.0);
        reader::lemma_u64_read(s, at2 + 8, batch.after.0);
        reader::lemma_u32_read(s, at2 + 16, count as u32);
        lemma_run(s, at2 + 20, mutations, context, from, count);
    } else {
        assert(descriptors_of(mutations).take(0) =~= Seq::empty());
    }
}

// ---------------------------------------------------------------------------
// Rows
// ---------------------------------------------------------------------------
/// A row that is brought stands in its place.
pub proof fn lemma_row_in_place(mutations: Seq<DeltaMutation<Seq<ScalarView>>>, i: int, n: int)
    requires
        0 <= i < n <= mutations.len(),
        mutations[i].after is Some,
    ensures
        0 <= descriptor::brought(mutations, i) < delta::rows_brought(mutations, n).len(),
        delta::rows_brought(mutations, n)[descriptor::brought(mutations, i)]
            == mutations[i].after->0,
    decreases n,
{
    delta::lemma_rows_brought(mutations, n - 1);
    descriptor::lemma_brought(mutations, i);
    if i < n - 1 {
        lemma_row_in_place(mutations, i, n - 1);
    }
}

proof fn lemma_row_values(
    known: MetadataView,
    table: Seq<Seq<ScalarView>>,
    row: int,
    n: int,
)
    requires
        group::group_error(known.columns, table) is None,
        segment_laws::table_valid(known.columns, table),
        0 <= row < table.len(),
        0 <= n <= known.columns.len(),
        table[row].len() == known.columns.len(),
    ensures
        delta::row_values(
            delta::vectors_of(
                segment_laws::chunks_of(group::group_of(known.columns, table, None)),
            ),
            row,
            n,
        ) == Ok::<Seq<ScalarView>, ColumnarError>(table[row].take(n)),
    decreases n,
{
    let made = group::group_of(known.columns, table, None);
    let vectors = delta::vectors_of(segment_laws::chunks_of(made));
    if n > 0 {
        lemma_row_values(known, table, row, n - 1);
        segment_laws::law_group_holds_rows(known.columns, table, None, n - 1, row);
        assert(vectors[n - 1] == made.columns[n - 1].1);
        assert(table[row].take(n - 1).push(table[row][n - 1]) =~= table[row].take(n));
    } else {
        assert(table[row].take(0) =~= Seq::empty());
    }
}

/// Whether the rows that row changes bring make a group of a projection.
pub open spec fn rows_kept(known: MetadataView, mutations: Seq<DeltaMutation<Seq<ScalarView>>>) -> bool {
    let table = delta::rows_brought(mutations, mutations.len() as int);
    &&& segment_laws::distinct(known.columns)
    &&& group::group_error(known.columns, table) is None
    &&& segment_laws::table_valid(known.columns, table)
    &&& segment_laws::table_fits(known.columns, table)
    &&& forall|row: int|
        0 <= row < table.len() ==> (#[trigger] table[row]).len() == known.columns.len()
}

proof fn lemma_resolved(
    known: MetadataView,
    mutations: Seq<DeltaMutation<Seq<ScalarView>>>,
    n: int,
)
    requires
        0 <= n <= mutations.len() <= usize::MAX,
        rows_kept(known, mutations),
    ensures
        delta::resolved(
            delta::vectors_of(
                segment_laws::chunks_of(
                    group::group_of(
                        known.columns,
                        delta::rows_brought(mutations, mutations.len() as int),
                        None,
                    ),
                ),
            ),
            descriptors_of(mutations),
            descriptor::brought(mutations, mutations.len() as int) as u64,
            n,
        ) == Ok::<Seq<DeltaMutation<Seq<ScalarView>>>, ColumnarError>(mutations.take(n)),
    decreases n,
{
    let table = delta::rows_brought(mutations, mutations.len() as int);
    let columns = known.columns.len() as int;
    if n > 0 {
        let i = n - 1;
        lemma_resolved(known, mutations, i);
        lemma_rows_free(mutations, i);
        descriptor::lemma_brought(mutations, i);
        if mutations[i].after is Some {
            let row = descriptor::brought(mutations, i);
            lemma_row_in_place(mutations, i, mutations.len() as int);
            assert(table[row].len() == known.columns.len());
            lemma_row_values(known, table, row, columns);
            assert(table[row].take(columns) =~= table[row]);
        }
        assert(mutations.take(i).push(mutations[i]) =~= mutations.take(n));
    } else {
        assert(mutations.take(0) =~= Seq::empty());
    }
}

// ---------------------------------------------------------------------------
// Segments
// ---------------------------------------------------------------------------
/// The identity of a delta segment is read back.
pub proof fn lemma_context(
    s: Seq<u8>,
    known: MetadataView,
    version: u16,
    reserved: &'static str,
    owner: &'static str,
    engine: &'static str,
)
    requires
        reader::holds(s, 0, delta::context_le(known, version)),
        s.len() <= usize::MAX,
    ensures
        delta::context_le(known, version).len() == 80,
        delta::start_read(s, 0, version, reserved) == Ok::<((), int), ColumnarError>(((), 8)),
        delta::owner_read(s, 8, known, owner) == Ok::<((), int), ColumnarError>(((), 72)),
        delta::engine_read(s, 72, known, engine) == Ok::<((), int), ColumnarError>(((), 80)),
{
    let tag = version::kind_tag(known.source_token.kind);
    let p1 = delta::delta_magic();
    let p2 = p1 + bytes::u16_le(version);
    let p3 = p2 + bytes::u16_le(0);
    let p4 = p3 + bytes::u64_le(known.id.0);
    let p5 = p4 + bytes::u64_le(known.generation.0);
    let p6 = p5 + bytes::u64_le(known.table_id.0);
    let p7 = p6 + bytes::u64_le(known.source_storage_id.0);
    let p8 = p7 + known.schema_fingerprint.bytes@;
    let p9 = p8 + seq![tag];
    reader::lemma_holds(s, 0, p9, bytes::zeros(7));
    reader::lemma_holds(s, 0, p8, seq![tag]);
    reader::lemma_holds(s, 0, p7, known.schema_fingerprint.bytes@);
    reader::lemma_holds(s, 0, p6, bytes::u64_le(known.source_storage_id.0));
    reader::lemma_holds(s, 0, p5, bytes::u64_le(known.table_id.0));
    reader::lemma_holds(s, 0, p4, bytes::u64_le(known.generation.0));
    reader::lemma_holds(s, 0, p3, bytes::u64_le(known.id.0));
    reader::lemma_holds(s, 0, p2, bytes::u16_le(0));
    reader::lemma_holds(s, 0, p1, bytes::u16_le(version));
    reader::lemma_u16_read(s, 4, version);
    reader::lemma_u16_read(s, 6, 0);
    reader::lemma_u64_read(s, 8, known.id.0);
    reader::lemma_u64_read(s, 16, known.generation.0);
    reader::lemma_u64_read(s, 24, known.table_id.0);
    reader::lemma_u64_read(s, 32, known.source_storage_id.0);
    reader::lemma_fingerprint_read(s, 40, known.schema_fingerprint);
    reader::lemma_u8_read(s, 72, tag);
}

proof fn lemma_counts(
    s: Seq<u8>,
    at: int,
    known: MetadataView,
    expected: DeltaSegmentView,
    batches: nat,
)
    requires
        reader::holds(
            s,
            at,
            delta::counts_le(
                known.incremental->0.stream_generation,
                expected.before,
                expected.after,
                batches,
                expected.mutation_count as nat,
                expected.after_row_count as nat,
                known.columns.len(),
            ),
        ),
        s.len() <= usize::MAX,
        known.incremental is Some,
        0 < batches <= CHANGE_LOG_MAX_MUTATIONS,
        expected.mutation_count <= CHANGE_LOG_MAX_MUTATIONS,
        known.columns.len() <= u32::MAX,
    ensures
        delta::counts_le(
            known.incremental->0.stream_generation,
            expected.before,
            expected.after,
            batches,
            expected.mutation_count as nat,
            expected.after_row_count as nat,
            known.columns.len(),
        ).len() == 48,
        delta::bounds_read(s, at, known, expected) == Ok::<((), int), ColumnarError>(
            ((), at + 24),
        ),
        delta::counts_read(s, at + 24, known, expected) == Ok::<(u32, int), ColumnarError>(
            (batches as u32, at + 48),
        ),
{
    let generation = known.incremental->0.stream_generation;
    let p1 = bytes::u64_le(generation.0);
    let p2 = p1 + bytes::u64_le(expected.before.0);
    let p3 = p2 + bytes::u64_le(expected.after.0);
    let p4 = p3 + bytes::u32_le(batches as u32);
    let p5 = p4 + bytes::u64_le(expected.mutation_count);
    let p6 = p5 + bytes::u64_le(expected.after_row_count);
    let columns = known.columns.len() as u32;
    reader::lemma_holds(s, at, p6, bytes::u32_le(columns));
    reader::lemma_holds(s, at, p5, bytes::u64_le(expected.after_row_count));
    reader::lemma_holds(s, at, p4, bytes::u64_le(expected.mutation_count));
    reader::lemma_holds(s, at, p3, bytes::u32_le(batches as u32));
    reader::lemma_holds(s, at, p2, bytes::u64_le(expected.after.0));
    reader::lemma_holds(s, at, p1, bytes::u64_le(expected.before.0));
    reader::lemma_u64_read(s, at, generation.0);
    reader::lemma_u64_read(s, at + 8, expected.before.0);
    reader::lemma_u64_read(s, at + 16, expected.after.0);
    reader::lemma_u32_read(s, at + 24, batches as u32);
    reader::lemma_u64_read(s, at + 28, expected.mutation_count);
    reader::lemma_u64_read(s, at + 36, expected.after_row_count);
    reader::lemma_u32_read(s, at + 44, columns);
}

/// Whether the metadata of a delta segment goes with its batches and row
/// changes.
pub open spec fn segment_fits(
    expected: DeltaSegmentView,
    batches: Seq<RowBatchView>,
    mutations: Seq<DeltaMutation<Seq<ScalarView>>>,
) -> bool {
    &&& 0 < batches.len() <= CHANGE_LOG_MAX_MUTATIONS
    &&& expected.before == batches[0].before
    &&& expected.after == batches.last().after
    &&& batches_kept(batches, expected.before)
    &&& descriptor::changes_in(batches, batches.len() as int) == mutations.len()
    &&& expected.mutation_count == mutations.len()
    &&& expected.mutation_count <= CHANGE_LOG_MAX_MUTATIONS
    &&& expected.after_row_count == descriptor::brought(mutations, mutations.len() as int)
}

/// A written delta segment is read back.
pub proof fn law_delta_round_trip(
    known: MetadataView,
    expected: DeltaSegmentView,
    batches: Seq<RowBatchView>,
    mutations: Seq<DeltaMutation<Seq<ScalarView>>>,
)
    requires
        known.incremental is Some,
        known.columns.len() <= u32::MAX,
        segment_fits(expected, batches, mutations),
        mutations_kept(mutations, known.source_storage_id, known.source_token.kind),
        rows_kept(known, mutations),
        delta::delta_payload(known, batches, mutations).len() <= usize::MAX,
    ensures
        delta::delta_of(
            reader::checked(delta::delta_payload(known, batches, mutations)),
            known,
            expected,
        ) == Ok::<Seq<DeltaMutation<Seq<ScalarView>>>, ColumnarError>(mutations),
{
    let s = delta::delta_payload(known, batches, mutations);
    let n = mutations.len() as int;
    let table = delta::rows_brought(mutations, n);
    let made = group::group_of(known.columns, table, None);
    let columns = known.columns.len() as int;
    delta::lemma_rows_brought(mutations, n);
    descriptor::lemma_brought(mutations, n);
    reader::lemma_checked(s);
    let p1 = delta::context_le(known, DELTA_FORMAT_VERSION);
    let counts = delta::counts_le(
        known.incremental->0.stream_generation,
        expected.before,
        expected.after,
        batches.len(),
        mutations.len(),
        table.len(),
        known.columns.len(),
    );
    let p2 = p1 + counts;
    let changes = descriptor::batches_le(batches, mutations, batches.len() as int);
    let p3 = p2 + changes;
    let chunks = segment::group_chunks_le(known.columns, made, columns);
    assert(s.subrange(0, s.len() as int) =~= s);
    assert(s == p3 + chunks);
    reader::lemma_holds(s, 0, p3, chunks);
    reader::lemma_holds(s, 0, p2, changes);
    reader::lemma_holds(s, 0, p1, counts);
    lemma_context(
        s,
        known,
        DELTA_FORMAT_VERSION,
        "delta reserved field is nonzero",
        "delta projection context",
        "delta engine kind",
    );
    lemma_counts(s, 80, known, expected, batches.len());
    let context = delta::eager_context(known, expected.after_row_count);
    law_descriptors_round_trip(
        s,
        128,
        batches,
        mutations,
        context,
        expected.before,
        batches.len() as int,
    );
    let list = descriptors_of(mutations);
    assert(list.take(n) =~= list);
    segment_laws::lemma_group_kept(known.columns, table, None);
    segment_laws::law_chunks_round_trip(s, p3.len() as int, known.columns, made, columns);
    assert(segment_laws::chunks_of(made).take(columns) =~= segment_laws::chunks_of(made));
    lemma_resolved(known, mutations, n);
    assert(mutations.take(n) =~= mutations);
    lemma_brought_same(mutations, n);
}

/// Row changes bring as many rows as their places say.
pub proof fn lemma_brought_same<V>(mutations: Seq<DeltaMutation<V>>, n: int)
    requires
        0 <= n <= mutations.len(),
    ensures
        descriptor::brought(descriptors_of(mutations), n) == descriptor::brought(mutations, n),
    decreases n,
{
    if n > 0 {
        lemma_brought_same(mutations, n - 1);
    }
}

// ---------------------------------------------------------------------------
// Refusals
// ---------------------------------------------------------------------------
/// Whether the payload of a delta segment names this projection, this stretch
/// of its change stream, and these counts.
pub open spec fn names_ours(s: Seq<u8>, known: MetadataView, expected: DeltaSegmentView) -> bool {
    &&& s.len() >= 128
    &&& bytes::u64_at(s, 8) == known.id.0
    &&& bytes::u64_at(s, 16) == known.generation.0
    &&& bytes::u64_at(s, 24) == known.table_id.0
    &&& bytes::u64_at(s, 32) == known.source_storage_id.0
    &&& crate::ids::fingerprint_of(s.subrange(40, 72)) == known.schema_fingerprint
    &&& version::kind_tagged(s[72]) == Ok::<SnapshotKind, ColumnarError>(known.source_token.kind)
    &&& known.incremental matches Some(incremental) && bytes::u64_at(s, 80)
        == incremental.stream_generation.0
    &&& bytes::u64_at(s, 88) == expected.before.0
    &&& bytes::u64_at(s, 96) == expected.after.0
    &&& bytes::u64_at(s, 108) == expected.mutation_count
    &&& bytes::u64_at(s, 116) == expected.after_row_count
    &&& bytes::u32_at(s, 124) == known.columns.len()
}

/// Whether each row that row changes bring is one of so many, and no two bring
/// the same.
pub open spec fn rows_free(descriptors: Seq<DeltaDescriptor>, after_count: u64) -> bool {
    forall|i: int|
        0 <= i < descriptors.len() ==> descriptor::row_free(
            descriptors.take(i),
            #[trigger] descriptors[i],
            after_count,
        )
}

/// A delta segment is refused, whatever its check value, unless it names this
/// projection with its generation, table, storage, schema, engine and change
/// stream, this stretch of the stream, and these counts; and unless it holds as
/// many row changes as it says, which bring each row that it holds once.
pub proof fn law_only_own_delta_is_read(
    s: Seq<u8>,
    known: MetadataView,
    expected: DeltaSegmentView,
)
    requires
        delta::delta_of(s, known, expected) is Ok,
    ensures
        reader::checksum_error(s) is None,
        names_ours(reader::payload_of(s), known, expected),
        delta::delta_of(s, known, expected)->Ok_0.len() == expected.mutation_count,
        ({
            let frames = descriptor::frames_read(
                reader::payload_of(s),
                128,
                delta::eager_context(known, expected.after_row_count),
                expected.before,
                bytes::u32_at(reader::payload_of(s), 104) as int,
            );
            &&& frames is Ok
            &&& rows_free(frames->Ok_0.0.0, expected.after_row_count)
            &&& descriptor::brought(frames->Ok_0.0.0, frames->Ok_0.0.0.len() as int)
                == expected.after_row_count
        }),
{
    let p = reader::payload_of(s);
    assert(delta::delta_magic().len() == 4);
    let frames = descriptor::frames_read(
        p,
        128,
        delta::eager_context(known, expected.after_row_count),
        expected.before,
        bytes::u32_at(p, 104) as int,
    );
    let ((list, frontier), at) = frames->Ok_0;
    let chunks = segment::chunks_read(
        p,
        at,
        known.columns,
        expected.after_row_count as u32,
        known.columns.len() as int,
    )->Ok_0.0;
    let vectors = delta::vectors_of(chunks);
    let n = list.len() as int;
    assert(delta::resolved(vectors, list, expected.after_row_count, n) is Ok);
    lemma_resolved_len(vectors, list, expected.after_row_count, n);
    assert forall|i: int| 0 <= i < n implies descriptor::row_free(
        list.take(i),
        #[trigger] list[i],
        expected.after_row_count,
    ) by {
        lemma_resolved_free(vectors, list, expected.after_row_count, n, i);
    }
}

/// A delta segment with one other byte is refused: always where the byte is one
/// of the check value, and else where the check value of the bytes in front is
/// another one.
pub proof fn law_damaged_delta_is_refused(
    s: Seq<u8>,
    known: MetadataView,
    expected: DeltaSegmentView,
    at: int,
    byte: u8,
)
    requires
        delta::delta_of(s, known, expected) is Ok,
        0 <= at < s.len(),
        byte != s[at],
        at < s.len() - 4 ==> checksum::crc32c_of(reader::payload_of(s.update(at, byte)))
            != checksum::crc32c_of(reader::payload_of(s)),
    ensures
        delta::delta_of(s.update(at, byte), known, expected) == Err::<
            Seq<DeltaMutation<Seq<ScalarView>>>,
            ColumnarError,
        >(ColumnarError::Corrupt("file checksum mismatch")),
{
    let t = s.update(at, byte);
    let end = s.len() - 4;
    reveal(bytes::u32_at);
    if at < end {
        assert(bytes::u32_at(t, end) == bytes::u32_at(s, end));
    } else {
        assert(reader::payload_of(t) =~= reader::payload_of(s));
        assert(bytes::u32_at(t, end) != bytes::u32_at(s, end));
    }
}

proof fn lemma_resolved_len(
    vectors: Seq<VectorView>,
    list: Seq<DeltaDescriptor>,
    after_count: u64,
    n: int,
)
    requires
        0 <= n <= list.len(),
        delta::resolved(vectors, list, after_count, n) is Ok,
    ensures
        delta::resolved(vectors, list, after_count, n)->Ok_0.len() == n,
    decreases n,
{
    if n > 0 {
        lemma_resolved_len(vectors, list, after_count, n - 1);
    }
}

proof fn lemma_resolved_free(
    vectors: Seq<VectorView>,
    list: Seq<DeltaDescriptor>,
    after_count: u64,
    n: int,
    i: int,
)
    requires
        0 <= i < n <= list.len(),
        delta::resolved(vectors, list, after_count, n) is Ok,
    ensures
        descriptor::row_free(list.take(i), list[i], after_count),
    decreases n,
{
    if i < n - 1 {
        lemma_resolved_free(vectors, list, after_count, n - 1, i);
    } else {
        assert(delta::resolved_row(vectors, list, n - 1, after_count) is Ok);
    }
}

} // verus!
