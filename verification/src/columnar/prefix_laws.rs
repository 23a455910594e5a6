//! What is read of a delta segment rests on its bytes alone, so that a segment
//! that was cut or that goes on is refused, whatever its check value.
use super::chunk;
use super::delta;
use super::descriptor;
use super::descriptor::DescriptorContext;
use super::error::ColumnarError;
use super::metadata::{DeltaSegmentView, MetadataView, DELTA_FORMAT_VERSION};
use super::overlay::{DeltaDescriptor, DeltaMutation};
use super::reader;
use super::scalar;
use super::segment;
use super::vector::ColumnarColumnSpec;
use super::version;
use super::version::SnapshotKind;
use crate::bytes;
use crate::ids::{StorageDataVersion, StorageId};
use crate::value::{PhysicalType, ScalarView};
use vstd::prelude::*;

verus! {

/// Whether `t` begins with the bytes of `s`.
pub open spec fn begins(s: Seq<u8>, t: Seq<u8>) -> bool {
    &&& s.len() <= t.len()
    &&& forall|i: int| 0 <= i < s.len() ==> #[trigger] s[i] == t[i]
}

proof fn lemma_begins(s: Seq<u8>, t: Seq<u8>)
    requires
        begins(s, t),
    ensures
        forall|at: int|
            0 <= at && at + 2 <= s.len() ==> #[trigger] bytes::u16_at(s, at) == bytes::u16_at(
                t,
                at,
            ),
        forall|at: int|
            0 <= at && at + 4 <= s.len() ==> #[trigger] bytes::u32_at(s, at) == bytes::u32_at(
                t,
                at,
            ),
        forall|at: int|
            0 <= at && at + 8 <= s.len() ==> #[trigger] bytes::u64_at(s, at) == bytes::u64_at(
                t,
                at,
            ),
        forall|a: int, b: int|
            0 <= a <= b <= s.len() ==> #[trigger] s.subrange(a, b) == t.subrange(a, b),
{
    reveal(bytes::u16_at);
    reveal(bytes::u32_at);
    reveal(bytes::u64_at);
    assert forall|a: int, b: int| 0 <= a <= b <= s.len() implies #[trigger] s.subrange(a, b)
        == t.subrange(a, b) by {
        assert(s.subrange(a, b) =~= t.subrange(a, b));
    }
}

proof fn lemma_key_begins(
    s: Seq<u8>,
    t: Seq<u8>,
    at: int,
    storage_id: StorageId,
    kind: SnapshotKind,
)
    requires
        begins(s, t),
        0 <= at,
        version::key_read(s, at, storage_id, kind) is Ok,
    ensures
        version::key_read(t, at, storage_id, kind) == version::key_read(s, at, storage_id, kind),
        version::key_read(s, at, storage_id, kind) matches Ok((_, end)) && at <= end <= s.len(),
{
    lemma_begins(s, t);
}

proof fn lemma_descriptor_begins(s: Seq<u8>, t: Seq<u8>, at: int, context: DescriptorContext)
    requires
        begins(s, t),
        0 <= at,
        descriptor::descriptor_read(s, at, context) is Ok,
    ensures
        descriptor::descriptor_read(t, at, context) == descriptor::descriptor_read(s, at, context),
        descriptor::descriptor_read(s, at, context) matches Ok((_, end)) && at <= end <= s.len(),
{
    lemma_begins(s, t);
    lemma_key_begins(s, t, at + 1, context.storage_id, context.kind);
    if s[at] == 2 {
        let middle = match descriptor::own_key_read(s, at + 1, context) {
            Ok((_, end)) => end,
            Err(_) => 0,
        };
        lemma_key_begins(s, t, middle, context.storage_id, context.kind);
    }
}

proof fn lemma_run_begins(
    s: Seq<u8>,
    t: Seq<u8>,
    at: int,
    context: DescriptorContext,
    prior: Seq<DeltaDescriptor>,
    n: int,
)
    requires
        begins(s, t),
        0 <= at <= s.len(),
        descriptor::run_read(s, at, context, prior, n) is Ok,
    ensures
        descriptor::run_read(t, at, context, prior, n) == descriptor::run_read(
            s,
            at,
            context,
            prior,
            n,
        ),
        descriptor::run_read(s, at, context, prior, n) matches Ok((_, end)) && at <= end
            <= s.len(),
    decreases n,
{
    if n > 0 {
        lemma_run_begins(s, t, at, context, prior, n - 1);
        if let Ok((_, middle)) = descriptor::run_read(s, at, context, prior, n - 1) {
            lemma_descriptor_begins(s, t, middle, context);
        }
    }
}

proof fn lemma_frames_begins(
    s: Seq<u8>,
    t: Seq<u8>,
    at: int,
    context: DescriptorContext,
    before: StorageDataVersion,
    n: int,
)
    requires
        begins(s, t),
        0 <= at <= s.len(),
        descriptor::frames_read(s, at, context, before, n) is Ok,
    ensures
        descriptor::frames_read(t, at, context, before, n) == descriptor::frames_read(
            s,
            at,
            context,
            before,
            n,
        ),
        descriptor::frames_read(s, at, context, before, n) matches Ok((_, end)) && at <= end
            <= s.len(),
    decreases n,
{
    if n > 0 {
        lemma_begins(s, t);
        lemma_frames_begins(s, t, at, context, before, n - 1);
        if let Ok(((list, frontier), middle)) = descriptor::frames_read(
            s,
            at,
            context,
            before,
            n - 1,
        ) {
            if let Ok(((_, count), start)) = descriptor::frame_read(s, middle, context, frontier) {
                lemma_run_begins(s, t, start, context, list, count as int);
            }
        }
    }
}

proof fn lemma_optional_begins(s: Seq<u8>, t: Seq<u8>, at: int, physical: PhysicalType)
    requires
        begins(s, t),
        0 <= at,
        scalar::optional_read(s, at, physical) is Ok,
    ensures
        scalar::optional_read(t, at, physical) == scalar::optional_read(s, at, physical),
        scalar::optional_read(s, at, physical) matches Ok((_, end)) && at <= end <= s.len(),
{
    lemma_begins(s, t);
}

proof fn lemma_vector_begins(s: Seq<u8>, t: Seq<u8>, at: int, physical: PhysicalType, rows: u32)
    requires
        begins(s, t),
        0 <= at,
        chunk::chunk_vector_read(s, at, physical, rows) is Ok,
    ensures
        chunk::chunk_vector_read(t, at, physical, rows) == chunk::chunk_vector_read(
            s,
            at,
            physical,
            rows,
        ),
        chunk::chunk_vector_read(s, at, physical, rows) matches Ok((_, end)) && at <= end
            <= s.len(),
{
    lemma_begins(s, t);
}

proof fn lemma_head_begins(
    s: Seq<u8>,
    t: Seq<u8>,
    at: int,
    column: ColumnarColumnSpec,
    rows: u32,
)
    requires
        begins(s, t),
        0 <= at,
        chunk::chunk_head_read(s, at, column, rows) is Ok,
    ensures
        chunk::chunk_head_read(t, at, column, rows) == chunk::chunk_head_read(s, at, column, rows),
        chunk::chunk_head_read(s, at, column, rows) matches Ok((_, end)) && at <= end <= s.len(),
{
    lemma_begins(s, t);
}

proof fn lemma_chunk_begins(
    s: Seq<u8>,
    t: Seq<u8>,
    at: int,
    column: ColumnarColumnSpec,
    rows: u32,
)
    requires
        begins(s, t),
        0 <= at,
        chunk::chunk_read(s, at, column, rows) is Ok,
    ensures
        chunk::chunk_read(t, at, column, rows) == chunk::chunk_read(s, at, column, rows),
        chunk::chunk_read(s, at, column, rows) matches Ok((_, end)) && at <= end <= s.len(),
{
    let physical = column.physical_type;
    lemma_head_begins(s, t, at, column, rows);
    if let Ok((_, first)) = chunk::chunk_head_read(s, at, column, rows) {
        lemma_optional_begins(s, t, first, physical);
        if let Ok((_, second)) = scalar::optional_read(s, first, physical) {
            lemma_optional_begins(s, t, second, physical);
            if let Ok((_, third)) = scalar::optional_read(s, second, physical) {
                lemma_vector_begins(s, t, third, physical, rows);
            }
        }
    }
}

proof fn lemma_chunks_begins(
    s: Seq<u8>,
    t: Seq<u8>,
    at: int,
    columns: Seq<ColumnarColumnSpec>,
    rows: u32,
    n: int,
)
    requires
        begins(s, t),
        0 <= at <= s.len(),
        segment::chunks_read(s, at, columns, rows, n) is Ok,
    ensures
        segment::chunks_read(t, at, columns, rows, n) == segment::chunks_read(
            s,
            at,
            columns,
            rows,
            n,
        ),
        segment::chunks_read(s, at, columns, rows, n) matches Ok((_, end)) && at <= end
            <= s.len(),
    decreases n,
{
    if n > 0 {
        lemma_chunks_begins(s, t, at, columns, rows, n - 1);
        if let Ok((_, middle)) = segment::chunks_read(s, at, columns, rows, n - 1) {
            lemma_chunk_begins(s, t, middle, columns[n - 1], rows);
        }
    }
}

proof fn lemma_identity_begins(s: Seq<u8>, t: Seq<u8>, known: MetadataView)
    requires
        begins(s, t),
    ensures
        delta::start_read(
            s,
            0,
            DELTA_FORMAT_VERSION,
            "delta reserved field is nonzero",
        ) matches Ok((_, first)) ==> {
            &&& first == 8
            &&& delta::start_read(
                t,
                0,
                DELTA_FORMAT_VERSION,
                "delta reserved field is nonzero",
            ) == delta::start_read(
                s,
                0,
                DELTA_FORMAT_VERSION,
                "delta reserved field is nonzero",
            )
        },
        delta::owner_read(s, 8, known, "delta projection context") matches Ok((_, second)) ==> {
            &&& second == 72
            &&& delta::owner_read(t, 8, known, "delta projection context") == delta::owner_read(
                s,
                8,
                known,
                "delta projection context",
            )
        },
        delta::engine_read(s, 72, known, "delta engine kind") matches Ok((_, third)) ==> {
            &&& third == 80
            &&& delta::engine_read(t, 72, known, "delta engine kind") == delta::engine_read(
                s,
                72,
                known,
                "delta engine kind",
            )
        },
{
    lemma_begins(s, t);
    assert(delta::delta_magic().len() == 4);
}

proof fn lemma_counts_begins(
    s: Seq<u8>,
    t: Seq<u8>,
    known: MetadataView,
    expected: DeltaSegmentView,
)
    requires
        begins(s, t),
    ensures
        delta::bounds_read(s, 80, known, expected) matches Ok((_, first)) ==> first == 104
            && delta::bounds_read(t, 80, known, expected) == delta::bounds_read(
            s,
            80,
            known,
            expected,
        ),
        delta::counts_read(s, 104, known, expected) matches Ok((_, second)) ==> second == 128
            <= s.len() && delta::counts_read(t, 104, known, expected) == delta::counts_read(
            s,
            104,
            known,
            expected,
        ),
{
    lemma_begins(s, t);
}

/// What goes on behind the payload of a delta segment that is read is not read
/// with it.
proof fn lemma_trailing_bytes(
    s: Seq<u8>,
    t: Seq<u8>,
    known: MetadataView,
    expected: DeltaSegmentView,
)
    requires
        begins(s, t),
        s.len() < t.len(),
        delta::delta_read(s, known, expected) is Ok,
    ensures
        delta::delta_read(t, known, expected) == Err::<
            Seq<DeltaMutation<Seq<ScalarView>>>,
            ColumnarError,
        >(ColumnarError::Corrupt("trailing bytes")),
{
    lemma_identity_begins(s, t, known);
    lemma_counts_begins(s, t, known, expected);
    let rows = expected.after_row_count;
    let context = delta::eager_context(known, rows);
    if let Ok((batches, _)) = delta::counts_read(s, 104, known, expected) {
        lemma_frames_begins(s, t, 128, context, expected.before, batches as int);
        if let Ok((_, middle)) = descriptor::frames_read(
            s,
            128,
            context,
            expected.before,
            batches as int,
        ) {
            lemma_chunks_begins(
                s,
                t,
                middle,
                known.columns,
                rows as u32,
                known.columns.len() as int,
            );
        }
    }
}

/// A delta segment that is read is refused with anything more behind it, the
/// check value made anew.
pub proof fn law_extended_delta_is_refused(
    payload: Seq<u8>,
    more: Seq<u8>,
    known: MetadataView,
    expected: DeltaSegmentView,
)
    requires
        delta::delta_of(reader::checked(payload), known, expected) is Ok,
        more.len() > 0,
    ensures
        delta::delta_of(reader::checked(payload + more), known, expected) == Err::<
            Seq<DeltaMutation<Seq<ScalarView>>>,
            ColumnarError,
        >(ColumnarError::Corrupt("trailing bytes")),
{
    reader::lemma_checked(payload);
    reader::lemma_checked(payload + more);
    lemma_trailing_bytes(payload, payload + more, known, expected);
}

/// A delta segment that is read is refused once it is cut, wherever that is,
/// the check value made anew.
pub proof fn law_cut_delta_is_refused(
    payload: Seq<u8>,
    length: int,
    known: MetadataView,
    expected: DeltaSegmentView,
)
    requires
        delta::delta_of(reader::checked(payload), known, expected) is Ok,
        0 <= length < payload.len(),
    ensures
        delta::delta_of(reader::checked(payload.take(length)), known, expected) is Err,
{
    reader::lemma_checked(payload);
    reader::lemma_checked(payload.take(length));
    if delta::delta_read(payload.take(length), known, expected) is Ok {
        lemma_trailing_bytes(payload.take(length), payload, known, expected);
    }
}

} // verus!
