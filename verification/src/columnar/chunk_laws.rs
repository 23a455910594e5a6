//! Column chunks are read back as they were written.
use super::chunk;
use super::error::ColumnarError;
use super::reader;
use super::scalar;
use super::select;
use super::statistics::StatisticsView;
use super::validity;
use super::vector::{self, ColumnarColumnSpec, VectorView};
use crate::bytes;
use vstd::prelude::*;

verus! {

broadcast use crate::bytes::group_le_len;

proof fn lemma_numbers(values: Seq<u64>, n: int)
    requires
        0 <= n <= values.len(),
    ensures
        chunk::numbers_le(values, n).len() == 8 * n,
        forall|i: int|
            0 <= i < n ==> bytes::u64_at(chunk::numbers_le(values, n), 8 * i) == #[trigger] values[i],
    decreases n,
{
    if n > 0 {
        lemma_numbers(values, n - 1);
        let before = chunk::numbers_le(values, n - 1);
        let last = bytes::u64_le(values[n - 1]);
        assert forall|i: int| 0 <= i < n implies bytes::u64_at(
            chunk::numbers_le(values, n),
            8 * i,
        ) == #[trigger] values[i] by {
            if i < n - 1 {
                bytes::lemma_at_prefix(before, last, 8 * i);
            } else {
                assert((before + last).subrange(8 * i, 8 * i + 8) =~= last);
                bytes::lemma_u64_at(before + last, 8 * i, values[i]);
            }
        }
    }
}

proof fn lemma_offsets(values: Seq<u32>, n: int)
    requires
        0 <= n <= values.len(),
    ensures
        chunk::offsets_le(values, n).len() == 4 * n,
        forall|i: int|
            0 <= i < n ==> bytes::u32_at(chunk::offsets_le(values, n), 4 * i) == #[trigger] values[i],
    decreases n,
{
    if n > 0 {
        lemma_offsets(values, n - 1);
        let before = chunk::offsets_le(values, n - 1);
        let last = bytes::u32_le(values[n - 1]);
        assert forall|i: int| 0 <= i < n implies bytes::u32_at(
            chunk::offsets_le(values, n),
            4 * i,
        ) == #[trigger] values[i] by {
            if i < n - 1 {
                bytes::lemma_at_prefix(before, last, 4 * i);
            } else {
                assert((before + last).subrange(4 * i, 4 * i + 4) =~= last);
                bytes::lemma_u32_at(before + last, 4 * i, values[i]);
            }
        }
    }
}

/// Written values are read back.
pub proof fn law_data_round_trip(vector: VectorView)
    requires
        vector::well_formed(vector),
        chunk::data_le(vector).len() <= usize::MAX,
    ensures
        chunk::data_read(
            vector::type_of(vector),
            vector::vector_len(vector),
            vector::validity_of(vector),
            chunk::data_le(vector),
        ) == Ok::<VectorView, ColumnarError>(vector),
{
    let data = chunk::data_le(vector);
    let rows = vector::vector_len(vector);
    match vector {
        VectorView::Bool { values, .. } => {
            assert(data.map_values(|byte: u8| byte != 0) =~= values);
        },
        VectorView::Int64 { values, .. } => {
            let numbers = chunk::unsigned(values);
            lemma_numbers(numbers, values.len() as int);
            let read = chunk::numbers_of(data, rows).map_values(|value: u64| value as i64);
            assert forall|i: int| 0 <= i < values.len() implies read[i] == values[i] by {
                assert(bytes::u64_at(data, 8 * i) == numbers[i]);
                scalar::lemma_signed(values[i]);
            }
            assert(read =~= values);
        },
        VectorView::UInt64 { values, .. } => {
            lemma_numbers(values, values.len() as int);
            assert(chunk::numbers_of(data, rows) =~= values);
        },
        VectorView::Text { offsets, bytes, .. } => {
            lemma_offsets(offsets, offsets.len() as int);
            let front = chunk::offsets_le(offsets, offsets.len() as int);
            let read = chunk::offsets_of(data, rows + 1);
            assert forall|i: int| 0 <= i < offsets.len() implies read[i] == offsets[i] by {
                bytes::lemma_at_prefix(front, bytes, 4 * i);
                assert(bytes::u32_at(front, 4 * i) == offsets[i]);
            }
            assert(read =~= offsets);
            assert(data.skip(4 * (rows + 1) as int) =~= bytes);
        },
    }
}

/// Whether statistics go with a vector: they count its missing values, have
/// both bounds or none, and give its size.
pub open spec fn statistics_fit(vector: VectorView, statistics: StatisticsView) -> bool {
    &&& statistics.null_count == validity::nulls(
        vector::validity_of(vector),
        vector::vector_len(vector) as int,
    )
    &&& statistics.minimum is Some <==> statistics.maximum is Some
    &&& statistics.encoded_bytes == select::encoded_size(vector)
    &&& scalar::optional_valid(statistics.minimum)
    &&& scalar::optional_valid(statistics.maximum)
}

/// Whether a chunk can be written and is small enough to be read.
pub open spec fn chunk_kept(
    column: ColumnarColumnSpec,
    vector: VectorView,
    statistics: StatisticsView,
) -> bool {
    &&& chunk::chunk_error(column, vector, statistics) is None
    &&& vector::well_formed(vector)
    &&& vector::type_of(vector) == column.physical_type
    &&& vector::vector_len(vector) <= u32::MAX
    &&& chunk::data_le(vector).len() <= chunk::MAX_TEXT_BYTES
    &&& chunk::data_le(vector).len() <= usize::MAX
    &&& statistics_fit(vector, statistics)
}

proof fn lemma_head(
    s: Seq<u8>,
    at: int,
    column: ColumnarColumnSpec,
    statistics: StatisticsView,
    rows: u32,
)
    requires
        reader::holds(s, at, chunk::chunk_head(column, statistics)),
        s.len() <= usize::MAX,
        statistics.null_count <= rows,
    ensures
        chunk::chunk_head(column, statistics).len() == 16,
        chunk::chunk_head_read(s, at, column, rows) == Ok::<(u64, int), ColumnarError>(
            (statistics.null_count, at + 16),
        ),
{
    let id = bytes::u32_le(column.column_id.0);
    let tag = seq![scalar::tag_of(column.physical_type)];
    let gap = bytes::zeros(3);
    let count = bytes::u64_le(statistics.null_count);
    reader::lemma_holds(s, at, id + tag + gap, count);
    reader::lemma_holds(s, at, id + tag, gap);
    reader::lemma_holds(s, at, id, tag);
    reader::lemma_u32_read(s, at, column.column_id.0);
    reader::lemma_u8_read(s, at + 4, tag[0]);
    reader::lemma_u64_read(s, at + 8, statistics.null_count);
}

/// A written column chunk is read back.
pub proof fn law_chunk_round_trip(
    s: Seq<u8>,
    at: int,
    column: ColumnarColumnSpec,
    vector: VectorView,
    statistics: StatisticsView,
)
    requires
        reader::holds(s, at, chunk::chunk_le(column, vector, statistics)),
        s.len() <= usize::MAX,
        chunk_kept(column, vector, statistics),
    ensures
        chunk::chunk_read(s, at, column, vector::vector_len(vector) as u32) == Ok::<
            ((VectorView, StatisticsView), int),
            ColumnarError,
        >(((vector, statistics), at + chunk::chunk_le(column, vector, statistics).len())),
{
    let rows = vector::vector_len(vector) as u32;
    let bits = vector::validity_of(vector);
    let data = chunk::data_le(vector);
    let p1 = chunk::chunk_head(column, statistics);
    let p2 = p1 + scalar::optional_le(statistics.minimum);
    let p3 = p2 + scalar::optional_le(statistics.maximum);
    let p4 = p3 + bytes::u32_le(bits.len() as u32);
    let p5 = p4 + bytes::u64_le(data.len() as u64);
    let p6 = p5 + bits;
    reader::lemma_holds(s, at, p6, data);
    reader::lemma_holds(s, at, p5, bits);
    reader::lemma_holds(s, at, p4, bytes::u64_le(data.len() as u64));
    reader::lemma_holds(s, at, p3, bytes::u32_le(bits.len() as u32));
    reader::lemma_holds(s, at, p2, scalar::optional_le(statistics.maximum));
    reader::lemma_holds(s, at, p1, scalar::optional_le(statistics.minimum));
    validity::lemma_nulls_bound(bits, rows as int);
    lemma_head(s, at, column, statistics, rows);
    scalar::law_optional_round_trip(
        s,
        at + p1.len(),
        statistics.minimum,
        column.physical_type,
    );
    scalar::law_optional_round_trip(
        s,
        at + p2.len(),
        statistics.maximum,
        column.physical_type,
    );
    reader::lemma_u32_read(s, at + p3.len(), bits.len() as u32);
    reader::lemma_u64_read(s, at + p4.len(), data.len() as u64);
    law_data_round_trip(vector);
}

/// A column that is read has the rows, the type and the form that it must have.
pub proof fn law_read_chunk_is_well_formed(
    s: Seq<u8>,
    at: int,
    column: ColumnarColumnSpec,
    rows: u32,
)
    requires
        0 <= at,
    ensures
        chunk::chunk_read(s, at, column, rows) matches Ok(((vector, _), _)) ==> {
            &&& vector::well_formed(vector)
            &&& vector::vector_len(vector) == rows
            &&& vector::type_of(vector) == column.physical_type
        },
{
    if let Ok(((vector, _), _)) = chunk::chunk_read(s, at, column, rows) {
        let at2 = chunk::chunk_head_read(s, at, column, rows)->Ok_0.1;
        assert(at2 >= 0);
        let at3 = chunk::chunk_bounds_read(s, at2, column.physical_type)->Ok_0.1;
        assert(at3 >= 0);
        let (length, at4) = reader::u32_read(s, at3)->Ok_0;
        let (data_length, at5) = reader::u64_read(s, at4)->Ok_0;
        let (validity, at6) = reader::taken(s, at5, length as int)->Ok_0;
        let (data, _) = reader::taken(s, at6, data_length as int)->Ok_0;
        assert(chunk::data_read(column.physical_type, rows as nat, validity, data) == Ok::<
            VectorView,
            ColumnarError,
        >(vector));
        assert(validity.len() == length);
        assert(vector::validity_of(vector) == validity);
    }
}

} // verus!
