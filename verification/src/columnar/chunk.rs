//! Column chunks: one column of a row group in a file.
use super::error::ColumnarError;
use super::reader::{self, Parsed, Reader};
use super::scalar;
use super::select;
use super::statistics::{ColumnarColumnStatistics, StatisticsView};
use super::validity;
use super::vector::{self, ColumnarColumnSpec, ColumnarVector, VectorView};
use crate::bytes;
use crate::ids::ColumnId;
use crate::value::{self, PhysicalType};
use vstd::prelude::*;
use vstd::utf8;

verus! {

broadcast use crate::bytes::group_le_len;

/// The most bytes that one column of a row group may have.
pub const MAX_TEXT_BYTES: u64 = 0x1_0000_0000;

// ---------------------------------------------------------------------------
// Values
// ---------------------------------------------------------------------------
/// The first `n` numbers, one behind the other.
pub open spec fn numbers_le(values: Seq<u64>, n: int) -> Seq<u8>
    decreases n,
{
    if n <= 0 {
        Seq::empty()
    } else {
        numbers_le(values, n - 1) + bytes::u64_le(values[n - 1])
    }
}

/// The first `n` offsets, one behind the other.
pub open spec fn offsets_le(values: Seq<u32>, n: int) -> Seq<u8>
    decreases n,
{
    if n <= 0 {
        Seq::empty()
    } else {
        offsets_le(values, n - 1) + bytes::u32_le(values[n - 1])
    }
}

/// Signed numbers in their unsigned form.
pub open spec fn unsigned(values: Seq<i64>) -> Seq<u64> {
    values.map_values(|value: i64| value as u64)
}

/// How the values of a vector are written.
pub open spec fn data_le(vector: VectorView) -> Seq<u8> {
    match vector {
        VectorView::Bool { values, .. } => values.map_values(
            |value: bool|
                if value {
                    1u8
                } else {
                    0u8
                },
        ),
        VectorView::Int64 { values, .. } => numbers_le(unsigned(values), values.len() as int),
        VectorView::UInt64 { values, .. } => numbers_le(values, values.len() as int),
        VectorView::Text { offsets, bytes, .. } => offsets_le(offsets, offsets.len() as int)
            + bytes,
    }
}

/// The numbers in a byte string.
pub open spec fn numbers_of(data: Seq<u8>, rows: nat) -> Seq<u64> {
    Seq::new(rows, |row: int| bytes::u64_at(data, 8 * row))
}

/// The offsets at the start of a byte string.
pub open spec fn offsets_of(data: Seq<u8>, count: nat) -> Seq<u32> {
    Seq::new(count, |i: int| bytes::u32_at(data, 4 * i))
}

/// Why a byte string does not hold so many numbers, if it does not.
pub open spec fn fixed_error(data: Seq<u8>, rows: int) -> Option<ColumnarError> {
    if 8 * rows > usize::MAX {
        Some(ColumnarError::Corrupt("fixed data overflow"))
    } else if data.len() != 8 * rows {
        Some(ColumnarError::Corrupt("invalid fixed-width column data"))
    } else {
        None
    }
}

/// Whether each row of a text vector is UTF-8.
pub open spec fn rows_utf8(offsets: Seq<u32>, text: Seq<u8>, rows: int) -> bool {
    forall|row: int| 0 <= row < rows ==> utf8::valid_utf8(#[trigger] vector::row_text(offsets, text, row))
}

/// The vector of a type with so many rows in a byte string.
pub open spec fn data_read(
    physical: PhysicalType,
    rows: nat,
    validity: Seq<u8>,
    data: Seq<u8>,
) -> Result<VectorView, ColumnarError> {
    match physical {
        PhysicalType::Bool => if data.len() != rows || !(forall|i: int|
            0 <= i < data.len() ==> (#[trigger] data[i]) <= 1) {
            Err(ColumnarError::Corrupt("invalid bool column data"))
        } else {
            Ok(VectorView::Bool { values: data.map_values(|byte: u8| byte != 0), validity })
        },
        PhysicalType::Int64 => match fixed_error(data, rows as int) {
            Some(error) => Err(error),
            None => Ok(
                VectorView::Int64 {
                    values: numbers_of(data, rows).map_values(|value: u64| value as i64),
                    validity,
                },
            ),
        },
        PhysicalType::UInt64 => match fixed_error(data, rows as int) {
            Some(error) => Err(error),
            None => Ok(VectorView::UInt64 { values: numbers_of(data, rows), validity }),
        },
        PhysicalType::Text => {
            let start = 4 * (rows + 1);
            let offsets = offsets_of(data, rows + 1);
            let text = data.skip(start as int);
            if rows + 1 > usize::MAX {
                Err(ColumnarError::Corrupt("text offset count overflow"))
            } else if start > usize::MAX {
                Err(ColumnarError::Corrupt("text offset bytes overflow"))
            } else if data.len() < start {
                Err(ColumnarError::Corrupt("truncated text offsets"))
            } else if !vector::offsets_cut(offsets, text) {
                Err(ColumnarError::Corrupt("invalid text offsets"))
            } else if !rows_utf8(offsets, text, rows as int) {
                Err(ColumnarError::Corrupt("text payload is not UTF-8"))
            } else {
                Ok(VectorView::Text { offsets, bytes: text, validity })
            }
        },
    }
}

fn push_numbers(output: &mut Vec<u8>, values: &[u64])
    ensures
        final(output)@ == old(output)@ + numbers_le(values@, values@.len() as int),
{
    let mut i: usize = 0;
    assert(output@ =~= old(output)@ + numbers_le(values@, 0));
    while i < values.len()
        invariant
            i <= values@.len(),
            output@ == old(output)@ + numbers_le(values@, i as int),
        decreases values@.len() - i,
    {
        let ghost before = numbers_le(values@, i as int);
        bytes::push_u64(output, values[i]);
        i = i + 1;
        assert(output@ =~= old(output)@ + (before + bytes::u64_le(values@[i - 1])));
    }
}

fn push_signed(output: &mut Vec<u8>, values: &[i64])
    ensures
        final(output)@ == old(output)@ + numbers_le(unsigned(values@), values@.len() as int),
{
    let mut i: usize = 0;
    assert(output@ =~= old(output)@ + numbers_le(unsigned(values@), 0));
    while i < values.len()
        invariant
            i <= values@.len(),
            output@ == old(output)@ + numbers_le(unsigned(values@), i as int),
        decreases values@.len() - i,
    {
        let ghost before = numbers_le(unsigned(values@), i as int);
        bytes::push_u64(output, values[i] as u64);
        i = i + 1;
        assert(output@ =~= old(output)@ + (before + bytes::u64_le(unsigned(values@)[i - 1])));
    }
}

fn push_offsets(output: &mut Vec<u8>, values: &[u32])
    ensures
        final(output)@ == old(output)@ + offsets_le(values@, values@.len() as int),
{
    let mut i: usize = 0;
    assert(output@ =~= old(output)@ + offsets_le(values@, 0));
    while i < values.len()
        invariant
            i <= values@.len(),
            output@ == old(output)@ + offsets_le(values@, i as int),
        decreases values@.len() - i,
    {
        let ghost before = offsets_le(values@, i as int);
        bytes::push_u32(output, values[i]);
        i = i + 1;
        assert(output@ =~= old(output)@ + (before + bytes::u32_le(values@[i - 1])));
    }
}

/// The written values of a vector.
pub fn encode_vector_data(vector: &ColumnarVector) -> (data: Vec<u8>)
    ensures
        data@ == data_le(vector@),
{
    let mut data: Vec<u8> = Vec::new();
    match vector {
        ColumnarVector::Bool { values, .. } => {
            let ghost whole = data_le(vector@);
            let mut i: usize = 0;
            while i < values.len()
                invariant
                    i <= values@.len(),
                    whole == values@.map_values(
                        |value: bool|
                            if value {
                                1u8
                            } else {
                                0u8
                            },
                    ),
                    data@ == whole.take(i as int),
                decreases values@.len() - i,
            {
                data.push(
                    if values[i] {
                        1
                    } else {
                        0
                    },
                );
                i = i + 1;
                assert(data@ =~= whole.take(i as int));
            }
            assert(data@ =~= whole);
        },
        ColumnarVector::Int64 { values, .. } => {
            push_signed(&mut data, values.as_slice());
            assert(data@ =~= data_le(vector@));
        },
        ColumnarVector::UInt64 { values, .. } => {
            push_numbers(&mut data, values.as_slice());
            assert(data@ =~= data_le(vector@));
        },
        ColumnarVector::Text { offsets, bytes, .. } => {
            push_offsets(&mut data, offsets.as_slice());
            bytes::push_bytes(&mut data, bytes.as_slice());
            assert(data@ =~= data_le(vector@));
        },
    }
    data
}

fn decode_bools(data: &[u8], rows: usize) -> (read: Result<Vec<bool>, ColumnarError>)
    ensures
        match data_read(PhysicalType::Bool, rows as nat, Seq::empty(), data@) {
            Ok(vector) => read is Ok && vector->Bool_values == read->Ok_0@,
            Err(error) => read == Err::<Vec<bool>, ColumnarError>(error),
        },
{
    if data.len() != rows {
        return Err(ColumnarError::Corrupt("invalid bool column data"));
    }
    let mut values: Vec<bool> = Vec::new();
    let mut i: usize = 0;
    let ghost whole = data@.map_values(|byte: u8| byte != 0);
    while i < data.len()
        invariant
            i <= data@.len(),
            data@.len() == rows,
            whole == data@.map_values(|byte: u8| byte != 0),
            values@ == whole.take(i as int),
            forall|k: int| 0 <= k < i ==> (#[trigger] data@[k]) <= 1,
        decreases data@.len() - i,
    {
        if data[i] > 1 {
            assert(!(data@[i as int] <= 1));
            return Err(ColumnarError::Corrupt("invalid bool column data"));
        }
        values.push(data[i] != 0);
        i = i + 1;
        assert(values@ =~= whole.take(i as int));
    }
    assert(values@ =~= whole);
    Ok(values)
}

fn decode_fixed_u64(data: &[u8], rows: usize) -> (read: Result<Vec<u64>, ColumnarError>)
    ensures
        match fixed_error(data@, rows as int) {
            Some(error) => read == Err::<Vec<u64>, ColumnarError>(error),
            None => read is Ok && read->Ok_0@ == numbers_of(data@, rows as nat),
        },
{
    if rows > usize::MAX / 8 {
        return Err(ColumnarError::Corrupt("fixed data overflow"));
    }
    if data.len() != rows * 8 {
        return Err(ColumnarError::Corrupt("invalid fixed-width column data"));
    }
    let mut values: Vec<u64> = Vec::new();
    let mut row: usize = 0;
    let ghost whole = numbers_of(data@, rows as nat);
    while row < rows
        invariant
            row <= rows,
            8 * rows <= usize::MAX,
            data@.len() == 8 * rows,
            whole == numbers_of(data@, rows as nat),
            values@ == whole.take(row as int),
        decreases rows - row,
    {
        values.push(bytes::u64_from(data, row * 8));
        row = row + 1;
        assert(values@ =~= whole.take(row as int));
    }
    assert(values@ =~= whole);
    Ok(values)
}

fn signed_numbers(values: &[u64]) -> (signed: Vec<i64>)
    ensures
        signed@ == values@.map_values(|value: u64| value as i64),
{
    let mut signed: Vec<i64> = Vec::new();
    let mut i: usize = 0;
    let ghost whole = values@.map_values(|value: u64| value as i64);
    while i < values.len()
        invariant
            i <= values@.len(),
            whole == values@.map_values(|value: u64| value as i64),
            signed@ == whole.take(i as int),
        decreases values@.len() - i,
    {
        signed.push(values[i] as i64);
        i = i + 1;
        assert(signed@ =~= whole.take(i as int));
    }
    assert(signed@ =~= whole);
    signed
}

fn decode_offsets(data: &[u8], count: usize) -> (offsets: Vec<u32>)
    requires
        4 * count <= data@.len(),
    ensures
        offsets@ == offsets_of(data@, count as nat),
{
    let length: usize = data.len();
    let mut offsets: Vec<u32> = Vec::new();
    let mut i: usize = 0;
    let ghost whole = offsets_of(data@, count as nat);
    while i < count
        invariant
            i <= count,
            4 * count <= data@.len(),
            data@.len() == length,
            whole == offsets_of(data@, count as nat),
            offsets@ == whole.take(i as int),
        decreases count - i,
    {
        offsets.push(bytes::u32_from(data, i * 4));
        i = i + 1;
        assert(offsets@ =~= whole.take(i as int));
    }
    assert(offsets@ =~= whole);
    offsets
}

fn check_offsets(offsets: &[u32], text: &[u8]) -> (valid: bool)
    requires
        offsets@.len() > 0,
    ensures
        valid == vector::offsets_cut(offsets@, text@),
{
    if offsets[0] != 0 {
        return false;
    }
    let mut i: usize = 1;
    while i < offsets.len()
        invariant
            1 <= i <= offsets@.len(),
            forall|a: int, b: int| 0 <= a <= b < i ==> offsets@[a] <= offsets@[b],
        decreases offsets@.len() - i,
    {
        if offsets[i - 1] > offsets[i] {
            assert(offsets@[i - 1] > offsets@[i as int]);
            return false;
        }
        assert forall|a: int, b: int| 0 <= a <= b < i + 1 implies offsets@[a] <= offsets@[b] by {
            if b == i && a < i {
                assert(offsets@[a] <= offsets@[i - 1]);
            }
        }
        i = i + 1;
    }
    offsets[offsets.len() - 1] as usize == text.len()
}

fn check_texts(offsets: &[u32], text: &[u8], rows: usize) -> (valid: bool)
    requires
        vector::offsets_cut(offsets@, text@),
        offsets@.len() == rows + 1,
    ensures
        valid == rows_utf8(offsets@, text@, rows as int),
{
    let mut row: usize = 0;
    while row < rows
        invariant
            row <= rows,
            vector::offsets_cut(offsets@, text@),
            offsets@.len() == rows + 1,
            rows_utf8(offsets@, text@, row as int),
        decreases rows - row,
    {
        let start: usize = offsets[row] as usize;
        let end: usize = offsets[row + 1] as usize;
        assert(offsets@[row as int] <= offsets@[row + 1] <= offsets@.last());
        if value::text_from_utf8(&text[start..end]).is_none() {
            assert(!utf8::valid_utf8(vector::row_text(offsets@, text@, row as int)));
            return false;
        }
        row = row + 1;
    }
    true
}

fn decode_texts(data: &[u8], rows: usize) -> (read: Result<(Vec<u32>, Vec<u8>), ColumnarError>)
    ensures
        match data_read(PhysicalType::Text, rows as nat, Seq::empty(), data@) {
            Ok(vector) => {
                &&& read is Ok
                &&& vector->offsets == read->Ok_0.0@
                &&& vector->bytes == read->Ok_0.1@
            },
            Err(error) => read == Err::<(Vec<u32>, Vec<u8>), ColumnarError>(error),
        },
{
    if rows == usize::MAX {
        return Err(ColumnarError::Corrupt("text offset count overflow"));
    }
    let count: usize = rows + 1;
    if count > usize::MAX / 4 {
        return Err(ColumnarError::Corrupt("text offset bytes overflow"));
    }
    let start: usize = count * 4;
    if data.len() < start {
        return Err(ColumnarError::Corrupt("truncated text offsets"));
    }
    let offsets: Vec<u32> = decode_offsets(data, count);
    let text: &[u8] = &data[start..data.len()];
    assert(text@ =~= data@.skip(start as int));
    if !check_offsets(offsets.as_slice(), text) {
        return Err(ColumnarError::Corrupt("invalid text offsets"));
    }
    if !check_texts(offsets.as_slice(), text, rows) {
        return Err(ColumnarError::Corrupt("text payload is not UTF-8"));
    }
    Ok((offsets, bytes::copy_bytes(text)))
}

/// Reads the values of a vector.
pub fn decode_vector_data(
    physical: PhysicalType,
    rows: usize,
    validity: Vec<u8>,
    data: &[u8],
) -> (read: Result<ColumnarVector, ColumnarError>)
    ensures
        match data_read(physical, rows as nat, validity@, data@) {
            Ok(vector) => read is Ok && read->Ok_0@ == vector,
            Err(error) => read == Err::<ColumnarVector, ColumnarError>(error),
        },
{
    match physical {
        PhysicalType::Bool => {
            let values: Vec<bool> = decode_bools(data, rows)?;
            Ok(ColumnarVector::Bool { values, validity })
        },
        PhysicalType::Int64 => {
            let numbers: Vec<u64> = decode_fixed_u64(data, rows)?;
            let values: Vec<i64> = signed_numbers(numbers.as_slice());
            Ok(ColumnarVector::Int64 { values, validity })
        },
        PhysicalType::UInt64 => {
            let values: Vec<u64> = decode_fixed_u64(data, rows)?;
            Ok(ColumnarVector::UInt64 { values, validity })
        },
        PhysicalType::Text => {
            let (offsets, bytes) = decode_texts(data, rows)?;
            Ok(ColumnarVector::Text { offsets, bytes, validity })
        },
    }
}

// ---------------------------------------------------------------------------
// Chunks
// ---------------------------------------------------------------------------
/// The fixed start of a chunk.
pub open spec fn chunk_head(column: ColumnarColumnSpec, statistics: StatisticsView) -> Seq<u8> {
    bytes::u32_le(column.column_id.0) + seq![scalar::tag_of(column.physical_type)] + bytes::zeros(3)
        + bytes::u64_le(statistics.null_count)
}

/// How a column chunk is written.
pub open spec fn chunk_le(
    column: ColumnarColumnSpec,
    vector: VectorView,
    statistics: StatisticsView,
) -> Seq<u8> {
    chunk_head(column, statistics) + scalar::optional_le(statistics.minimum) + scalar::optional_le(
        statistics.maximum,
    ) + bytes::u32_le(vector::validity_of(vector).len() as u32) + bytes::u64_le(
        data_le(vector).len() as u64,
    ) + vector::validity_of(vector) + data_le(vector)
}

/// Why a column chunk cannot be written, if it cannot.
pub open spec fn chunk_error(
    column: ColumnarColumnSpec,
    vector: VectorView,
    statistics: StatisticsView,
) -> Option<ColumnarError> {
    if scalar::optional_error(statistics.minimum, column.physical_type) is Some {
        scalar::optional_error(statistics.minimum, column.physical_type)
    } else if scalar::optional_error(statistics.maximum, column.physical_type) is Some {
        scalar::optional_error(statistics.maximum, column.physical_type)
    } else if vector::validity_of(vector).len() > u32::MAX {
        Some(ColumnarError::InvalidInput("validity length overflow"))
    } else {
        None
    }
}

/// The number of missing values at the start of a chunk.
pub open spec fn chunk_head_read(
    s: Seq<u8>,
    at: int,
    column: ColumnarColumnSpec,
    rows: u32,
) -> Parsed<u64> {
    match reader::u32_read(s, at) {
        Err(error) => Err(error),
        Ok((id, at)) => if ColumnId(id) != column.column_id {
            Err(ColumnarError::IdentityMismatch("segment column"))
        } else {
            match reader::u8_read(s, at) {
                Err(error) => Err(error),
                Ok((tag, at)) => match scalar::tagged(tag) {
                    Err(error) => Err(error),
                    Ok(physical) => if physical != column.physical_type {
                        Err(ColumnarError::IdentityMismatch("segment column type"))
                    } else {
                        match reader::reserved_read(
                            s,
                            at,
                            3,
                            "segment column reserved bytes are nonzero",
                        ) {
                            Err(error) => Err(error),
                            Ok((_, at)) => match reader::u64_read(s, at) {
                                Err(error) => Err(error),
                                Ok((null_count, at)) => if null_count > rows {
                                    Err(
                                        ColumnarError::Corrupt(
                                            "column null count exceeds row count",
                                        ),
                                    )
                                } else {
                                    Ok((null_count, at))
                                },
                            },
                        }
                    },
                },
            }
        },
    }
}

/// The least and greatest value of a chunk.
pub open spec fn chunk_bounds_read(s: Seq<u8>, at: int, physical: PhysicalType) -> Parsed<
    (Option<value::ScalarView>, Option<value::ScalarView>),
> {
    match scalar::optional_read(s, at, physical) {
        Err(error) => Err(error),
        Ok((minimum, at)) => match scalar::optional_read(s, at, physical) {
            Err(error) => Err(error),
            Ok((maximum, at)) => if (minimum is Some) != (maximum is Some) {
                Err(ColumnarError::Corrupt("incomplete min/max statistics"))
            } else {
                Ok(((minimum, maximum), at))
            },
        },
    }
}

/// The vector of a chunk.
pub open spec fn chunk_vector_read(
    s: Seq<u8>,
    at: int,
    physical: PhysicalType,
    rows: u32,
) -> Parsed<VectorView> {
    match reader::u32_read(s, at) {
        Err(error) => Err(error),
        Ok((validity_len, at)) => if validity_len != validity::bitmap_len(rows as int) {
            Err(ColumnarError::Corrupt("invalid validity bitmap length"))
        } else {
            match reader::u64_read(s, at) {
                Err(error) => Err(error),
                Ok((data_len, at)) => if data_len > MAX_TEXT_BYTES {
                    Err(
                        ColumnarError::ResourceLimit {
                            resource: "column data bytes",
                            value: data_len,
                        },
                    )
                } else {
                    match reader::taken(s, at, validity_len as int) {
                        Err(error) => Err(error),
                        Ok((validity, at)) => if data_len > usize::MAX {
                            Err(
                                ColumnarError::ResourceLimit {
                                    resource: "column data bytes",
                                    value: data_len,
                                },
                            )
                        } else {
                            match reader::taken(s, at, data_len as int) {
                                Err(error) => Err(error),
                                Ok((data, at)) => match data_read(
                                    physical,
                                    rows as nat,
                                    validity,
                                    data,
                                ) {
                                    Err(error) => Err(error),
                                    Ok(vector) => Ok((vector, at)),
                                },
                            }
                        },
                    }
                },
            }
        },
    }
}

/// The column chunk with so many rows at `at`.
pub open spec fn chunk_read(
    s: Seq<u8>,
    at: int,
    column: ColumnarColumnSpec,
    rows: u32,
) -> Parsed<(VectorView, StatisticsView)> {
    match chunk_head_read(s, at, column, rows) {
        Err(error) => Err(error),
        Ok((null_count, at)) => match chunk_bounds_read(s, at, column.physical_type) {
            Err(error) => Err(error),
            Ok(((minimum, maximum), at)) => match chunk_vector_read(
                s,
                at,
                column.physical_type,
                rows,
            ) {
                Err(error) => Err(error),
                Ok((vector, at)) => if validity::nulls(vector::validity_of(vector), rows as int)
                    != null_count {
                    Err(ColumnarError::Corrupt("validity bitmap disagrees with null count"))
                } else {
                    Ok(
                        (
                            (
                                vector,
                                StatisticsView {
                                    null_count,
                                    minimum,
                                    maximum,
                                    encoded_bytes: select::encoded_size(vector),
                                },
                            ),
                            at,
                        ),
                    )
                },
            },
        },
    }
}

/// Writes a column chunk.
pub fn encode_column_chunk(
    output: &mut Vec<u8>,
    column: &ColumnarColumnSpec,
    vector: &ColumnarVector,
    statistics: &ColumnarColumnStatistics,
) -> (written: Result<(), ColumnarError>)
    ensures
        match chunk_error(*column, vector@, statistics@) {
            Some(error) => written == Err::<(), ColumnarError>(error),
            None => written is Ok && final(output)@ == old(output)@ + chunk_le(
                *column,
                vector@,
                statistics@,
            ),
        },
{
    let ghost start = output@;
    let ghost head = chunk_head(*column, statistics@);
    bytes::push_u32(output, column.column_id.0);
    output.push(scalar::type_tag(column.physical_type));
    bytes::push_zeros(output, 3);
    bytes::push_u64(output, statistics.null_count);
    assert(output@ =~= start + head);
    scalar::encode_optional_scalar(output, &statistics.minimum, column.physical_type)?;
    scalar::encode_optional_scalar(output, &statistics.maximum, column.physical_type)?;
    let data: Vec<u8> = encode_vector_data(vector);
    let validity: &Vec<u8> = vector.validity();
    if validity.len() > u32::MAX as usize {
        return Err(ColumnarError::InvalidInput("validity length overflow"));
    }
    bytes::push_u32(output, validity.len() as u32);
    bytes::push_u64(output, data.len() as u64);
    bytes::push_bytes(output, validity.as_slice());
    bytes::push_bytes(output, data.as_slice());
    assert(output@ =~= start + chunk_le(*column, vector@, statistics@));
    Ok(())
}

fn decode_chunk_head(
    reader: &mut Reader<'_>,
    column: &ColumnarColumnSpec,
    rows: u32,
) -> (read: Result<u64, ColumnarError>)
    requires
        old(reader).wf(),
    ensures
        final(reader).wf(),
        final(reader).bytes == old(reader).bytes,
        reader::reads(
            read,
            final(reader).offset as int,
            chunk_head_read(old(reader).bytes@, old(reader).offset as int, *column, rows),
        ),
{
    let id: u32 = reader.u32()?;
    if ColumnId(id) != column.column_id {
        return Err(ColumnarError::IdentityMismatch("segment column"));
    }
    let tag: u8 = reader.u8()?;
    let physical: PhysicalType = scalar::decode_type_tag(tag)?;
    if physical != column.physical_type {
        return Err(ColumnarError::IdentityMismatch("segment column type"));
    }
    reader.reserved(3, "segment column reserved bytes are nonzero")?;
    let null_count: u64 = reader.u64()?;
    if null_count > rows as u64 {
        return Err(ColumnarError::Corrupt("column null count exceeds row count"));
    }
    Ok(null_count)
}

fn decode_chunk_vector(
    reader: &mut Reader<'_>,
    physical: PhysicalType,
    rows: u32,
) -> (read: Result<ColumnarVector, ColumnarError>)
    requires
        old(reader).wf(),
    ensures
        final(reader).wf(),
        final(reader).bytes == old(reader).bytes,
        match chunk_vector_read(old(reader).bytes@, old(reader).offset as int, physical, rows) {
            Ok((vector, next)) => {
                &&& read is Ok
                &&& read->Ok_0@ == vector
                &&& final(reader).offset == next
            },
            Err(error) => read == Err::<ColumnarVector, ColumnarError>(error),
        },
{
    let validity_len: u32 = reader.u32()?;
    if validity_len as usize != validity::bitmap_bytes(rows as usize) {
        return Err(ColumnarError::Corrupt("invalid validity bitmap length"));
    }
    let data_len: u64 = reader.u64()?;
    if data_len > MAX_TEXT_BYTES {
        return Err(
            ColumnarError::ResourceLimit { resource: "column data bytes", value: data_len },
        );
    }
    let validity: Vec<u8> = bytes::copy_bytes(reader.take(validity_len as usize)?);
    if data_len > usize::MAX as u64 {
        return Err(
            ColumnarError::ResourceLimit { resource: "column data bytes", value: data_len },
        );
    }
    let data: &[u8] = reader.take(data_len as usize)?;
    decode_vector_data(physical, rows as usize, validity, data)
}

/// Reads the column chunk with so many rows.
pub fn decode_column_chunk(
    reader: &mut Reader<'_>,
    column: &ColumnarColumnSpec,
    rows: u32,
) -> (read: Result<(ColumnarVector, ColumnarColumnStatistics), ColumnarError>)
    requires
        old(reader).wf(),
    ensures
        final(reader).wf(),
        final(reader).bytes == old(reader).bytes,
        match chunk_read(old(reader).bytes@, old(reader).offset as int, *column, rows) {
            Ok(((vector, statistics), next)) => {
                &&& read is Ok
                &&& read->Ok_0.0@ == vector
                &&& read->Ok_0.1@ == statistics
                &&& final(reader).offset == next
            },
            Err(error) => read == Err::<(ColumnarVector, ColumnarColumnStatistics), ColumnarError>(
                error,
            ),
        },
{
    let null_count: u64 = decode_chunk_head(reader, column, rows)?;
    let minimum = scalar::decode_optional_scalar(reader, column.physical_type)?;
    let maximum = scalar::decode_optional_scalar(reader, column.physical_type)?;
    if minimum.is_some() != maximum.is_some() {
        return Err(ColumnarError::Corrupt("incomplete min/max statistics"));
    }
    let vector: ColumnarVector = decode_chunk_vector(reader, column.physical_type, rows)?;
    let nulls: u64 = validity::count_nulls(vector.validity().as_slice(), rows as usize);
    if nulls != null_count {
        return Err(ColumnarError::Corrupt("validity bitmap disagrees with null count"));
    }
    let encoded_bytes: u64 = select::vector_encoded_bytes(&vector);
    Ok((vector, ColumnarColumnStatistics { null_count, minimum, maximum, encoded_bytes }))
}

} // verus!
