//! Column vectors: the values of one column of a row group.
use super::error::ColumnarError;
use super::validity;
use crate::bytes;
use crate::ids::ColumnId;
use crate::value::{self, PhysicalType, Scalar, ScalarValue, ScalarView};
use vstd::prelude::*;
use vstd::utf8;

verus! {

broadcast use crate::bytes::group_le_len;

/// One projected column.
#[derive(Debug, Clone, Copy, PartialEq, Eq, Structural)]
pub struct ColumnarColumnSpec {
    pub column_id: ColumnId,
    pub physical_type: PhysicalType,
    pub nullable: bool,
}

/// The values of one column. A row without a value has no validity bit and
/// some value in its place. A text is the bytes between its two offsets.
#[derive(Debug, Clone, PartialEq, Eq)]
#[allow(inconsistent_fields)]
pub enum ColumnarVector {
    Bool { values: Vec<bool>, validity: Vec<u8> },
    Int64 { values: Vec<i64>, validity: Vec<u8> },
    UInt64 { values: Vec<u64>, validity: Vec<u8> },
    Text { offsets: Vec<u32>, bytes: Vec<u8>, validity: Vec<u8> },
}

/// What a column vector holds.
#[allow(inconsistent_fields)]
pub enum VectorView {
    Bool { values: Seq<bool>, validity: Seq<u8> },
    Int64 { values: Seq<i64>, validity: Seq<u8> },
    UInt64 { values: Seq<u64>, validity: Seq<u8> },
    Text { offsets: Seq<u32>, bytes: Seq<u8>, validity: Seq<u8> },
}

impl View for ColumnarVector {
    type V = VectorView;

    open spec fn view(&self) -> VectorView {
        match self {
            ColumnarVector::Bool { values, validity } =>
                VectorView::Bool { values: values@, validity: validity@ },
            ColumnarVector::Int64 { values, validity } =>
                VectorView::Int64 { values: values@, validity: validity@ },
            ColumnarVector::UInt64 { values, validity } =>
                VectorView::UInt64 { values: values@, validity: validity@ },
            ColumnarVector::Text { offsets, bytes, validity } =>
                VectorView::Text { offsets: offsets@, bytes: bytes@, validity: validity@ },
        }
    }
}

/// How many rows a vector has.
pub open spec fn vector_len(vector: VectorView) -> nat {
    match vector {
        VectorView::Bool { values, .. } => values.len(),
        VectorView::Int64 { values, .. } => values.len(),
        VectorView::UInt64 { values, .. } => values.len(),
        VectorView::Text { offsets, .. } => if offsets.len() == 0 {
            0
        } else {
            (offsets.len() - 1) as nat
        },
    }
}

/// The validity bits of a vector.
pub open spec fn validity_of(vector: VectorView) -> Seq<u8> {
    match vector {
        VectorView::Bool { validity, .. } => validity,
        VectorView::Int64 { validity, .. } => validity,
        VectorView::UInt64 { validity, .. } => validity,
        VectorView::Text { validity, .. } => validity,
    }
}

/// The type of a vector's values.
pub open spec fn type_of(vector: VectorView) -> PhysicalType {
    match vector {
        VectorView::Bool { .. } => PhysicalType::Bool,
        VectorView::Int64 { .. } => PhysicalType::Int64,
        VectorView::UInt64 { .. } => PhysicalType::UInt64,
        VectorView::Text { .. } => PhysicalType::Text,
    }
}

/// The text of a row that has one.
pub open spec fn text_at(offsets: Seq<u32>, bytes: Seq<u8>, row: int) -> Result<
    Seq<u8>,
    ColumnarError,
> {
    if offsets[row] > offsets[row + 1] || offsets[row + 1] > bytes.len() {
        Err(ColumnarError::Corrupt("text offsets are out of bounds"))
    } else if !utf8::valid_utf8(bytes.subrange(offsets[row] as int, offsets[row + 1] as int)) {
        Err(ColumnarError::Corrupt("text payload is not UTF-8"))
    } else {
        Ok(bytes.subrange(offsets[row] as int, offsets[row + 1] as int))
    }
}

/// The value of a row.
pub open spec fn value_of(vector: VectorView, row: int) -> Result<ScalarView, ColumnarError> {
    if row >= vector_len(vector) {
        Err(ColumnarError::Corrupt("column row index is out of bounds"))
    } else if !validity::bit(validity_of(vector), row) {
        Ok(Scalar::Null)
    } else {
        match vector {
            VectorView::Bool { values, .. } => Ok(Scalar::Bool(values[row])),
            VectorView::Int64 { values, .. } => Ok(Scalar::Int64(values[row])),
            VectorView::UInt64 { values, .. } => Ok(Scalar::UInt64(values[row])),
            VectorView::Text { offsets, bytes, .. } => match text_at(offsets, bytes, row) {
                Ok(text) => Ok(Scalar::Text(text)),
                Err(error) => Err(error),
            },
        }
    }
}

/// Whether the offsets of a text vector cut its bytes into rows.
pub open spec fn offsets_cut(offsets: Seq<u32>, bytes: Seq<u8>) -> bool {
    &&& offsets.len() > 0
    &&& offsets[0] == 0
    &&& forall|i: int, j: int| 0 <= i <= j < offsets.len() ==> offsets[i] <= offsets[j]
    &&& offsets.last() == bytes.len()
}

/// Whether a vector has a bitmap for its rows, and texts in valid UTF-8.
pub open spec fn well_formed(vector: VectorView) -> bool {
    &&& validity_of(vector).len() == validity::bitmap_len(vector_len(vector) as int)
    &&& match vector {
        VectorView::Text { offsets, bytes, .. } => {
            &&& offsets_cut(offsets, bytes)
            &&& forall|row: int|
                0 <= row < vector_len(vector) ==> utf8::valid_utf8(
                    #[trigger] row_text(offsets, bytes, row),
                )
        },
        _ => true,
    }
}

/// The bytes between the offsets of a row.
pub open spec fn row_text(offsets: Seq<u32>, bytes: Seq<u8>, row: int) -> Seq<u8> {
    bytes.subrange(offsets[row] as int, offsets[row + 1] as int)
}

/// The values of a vector, row by row.
pub open spec fn values_of(vector: VectorView) -> Seq<ScalarView> {
    Seq::new(vector_len(vector), |row: int| value_of(vector, row)->Ok_0)
}

impl ColumnarVector {
    /// How many rows the vector has.
    #[must_use]
    pub fn len(&self) -> (rows: usize)
        ensures
            rows == vector_len(self@),
    {
        match self {
            ColumnarVector::Bool { values, .. } => values.len(),
            ColumnarVector::Int64 { values, .. } => values.len(),
            ColumnarVector::UInt64 { values, .. } => values.len(),
            ColumnarVector::Text { offsets, .. } => if offsets.len() == 0 {
                0
            } else {
                offsets.len() - 1
            },
        }
    }

    /// Whether the vector has no rows.
    #[must_use]
    pub fn is_empty(&self) -> (empty: bool)
        ensures
            empty == (vector_len(self@) == 0),
    {
        self.len() == 0
    }

    /// The validity bits.
    pub fn validity(&self) -> (validity: &Vec<u8>)
        ensures
            validity@ == validity_of(self@),
    {
        match self {
            ColumnarVector::Bool { validity, .. } => validity,
            ColumnarVector::Int64 { validity, .. } => validity,
            ColumnarVector::UInt64 { validity, .. } => validity,
            ColumnarVector::Text { validity, .. } => validity,
        }
    }

    /// The value of a row.
    pub fn value(&self, row: usize) -> (found: Result<ScalarValue, ColumnarError>)
        ensures
            match value_of(self@, row as int) {
                Ok(value) => found is Ok && value::scalar_view(found->Ok_0) == value,
                Err(error) => found == Err::<ScalarValue, ColumnarError>(error),
            },
    {
        if row >= self.len() {
            return Err(ColumnarError::Corrupt("column row index is out of bounds"));
        }
        if !validity::valid_at(self.validity().as_slice(), row) {
            return Ok(Scalar::Null);
        }
        match self {
            ColumnarVector::Bool { values, .. } => Ok(Scalar::Bool(values[row])),
            ColumnarVector::Int64 { values, .. } => Ok(Scalar::Int64(values[row])),
            ColumnarVector::UInt64 { values, .. } => Ok(Scalar::UInt64(values[row])),
            ColumnarVector::Text { offsets, bytes, .. } => {
                let start: usize = offsets[row] as usize;
                let end: usize = offsets[row + 1] as usize;
                if start > end || end > bytes.len() {
                    return Err(ColumnarError::Corrupt("text offsets are out of bounds"));
                }
                match value::text_from_utf8(&bytes.as_slice()[start..end]) {
                    Some(text) => Ok(Scalar::Text(text)),
                    None => Err(ColumnarError::Corrupt("text payload is not UTF-8")),
                }
            },
        }
    }
}

/// Every row of a well-formed vector has a value, of the vector's type or none.
pub proof fn lemma_well_formed_values(vector: VectorView)
    requires
        well_formed(vector),
    ensures
        forall|row: int|
            0 <= row < vector_len(vector) ==> {
                &&& #[trigger] value_of(vector, row) is Ok
                &&& values_of(vector)[row] == value_of(vector, row)->Ok_0
                &&& value_of(vector, row)->Ok_0 is Null <==> !validity::bit(
                    validity_of(vector),
                    row,
                )
                &&& value_of(vector, row)->Ok_0 is Null || value::is_of(
                    value_of(vector, row)->Ok_0,
                    type_of(vector),
                )
            },
{
    assert forall|row: int| 0 <= row < vector_len(vector) implies {
        &&& #[trigger] value_of(vector, row) is Ok
        &&& values_of(vector)[row] == value_of(vector, row)->Ok_0
        &&& value_of(vector, row)->Ok_0 is Null <==> !validity::bit(validity_of(vector), row)
        &&& value_of(vector, row)->Ok_0 is Null || value::is_of(
            value_of(vector, row)->Ok_0,
            type_of(vector),
        )
    } by {
        match vector {
            VectorView::Text { offsets, bytes, .. } => {
                assert(utf8::valid_utf8(row_text(offsets, bytes, row)));
                assert(offsets[row] <= offsets[row + 1] <= offsets.last());
            },
            _ => {},
        }
    }
}

// ---------------------------------------------------------------------------
// Vectors of values
// ---------------------------------------------------------------------------
/// What some rows say.
pub open spec fn rows_view(rows: Seq<Vec<ScalarValue>>) -> Seq<Seq<ScalarView>> {
    rows.map_values(|row: Vec<ScalarValue>| value::row_view(row@))
}

/// The values in one column of a table.
pub open spec fn column_values(table: Seq<Seq<ScalarView>>, position: int) -> Seq<ScalarView> {
    Seq::new(table.len(), |row: int| table[row][position])
}

/// The values of one column of some rows.
pub open spec fn column_of(rows: Seq<Vec<ScalarValue>>, position: int) -> Seq<ScalarView> {
    column_values(rows_view(rows), position)
}

/// Whether a column may hold a value.
pub open spec fn fits(column: ColumnarColumnSpec, value: ScalarView) -> bool {
    value::is_of(value, column.physical_type) || (column.nullable && value is Null)
}

/// The bytes of a text; of no value, none.
pub open spec fn text_of(value: ScalarView) -> Seq<u8> {
    match value {
        Scalar::Text(text) => text,
        _ => Seq::empty(),
    }
}

/// The bytes of the texts of the first `n` values.
pub open spec fn joined(values: Seq<ScalarView>, n: int) -> Seq<u8>
    decreases n,
{
    if n <= 0 {
        Seq::empty()
    } else {
        joined(values, n - 1) + text_of(values[n - 1])
    }
}

/// Why the first `n` values do not make a vector of a column, if they do not.
pub open spec fn vector_error(
    column: ColumnarColumnSpec,
    values: Seq<ScalarView>,
    n: int,
) -> Option<ColumnarError>
    decreases n,
{
    if n <= 0 {
        None
    } else if vector_error(column, values, n - 1) is Some {
        vector_error(column, values, n - 1)
    } else if !fits(column, values[n - 1]) {
        Some(ColumnarError::TypeMismatch(column.column_id))
    } else if column.physical_type is Text && joined(values, n).len() > u32::MAX {
        Some(
            ColumnarError::ResourceLimit {
                resource: "text payload bytes",
                value: joined(values, n).len() as u64,
            },
        )
    } else {
        None
    }
}

/// Which of the values are there.
pub open spec fn present(values: Seq<ScalarView>) -> Seq<bool> {
    values.map_values(|value: ScalarView| !(value is Null))
}

/// The vector of a column's values.
pub open spec fn vector_of(physical: PhysicalType, values: Seq<ScalarView>) -> VectorView {
    let validity = validity::bitmap(present(values));
    match physical {
        PhysicalType::Bool => VectorView::Bool {
            values: values.map_values(
                |value: ScalarView|
                    match value {
                        Scalar::Bool(flag) => flag,
                        _ => false,
                    },
            ),
            validity,
        },
        PhysicalType::Int64 => VectorView::Int64 {
            values: values.map_values(
                |value: ScalarView|
                    match value {
                        Scalar::Int64(number) => number,
                        _ => 0,
                    },
            ),
            validity,
        },
        PhysicalType::UInt64 => VectorView::UInt64 {
            values: values.map_values(
                |value: ScalarView|
                    match value {
                        Scalar::UInt64(number) => number,
                        _ => 0,
                    },
            ),
            validity,
        },
        PhysicalType::Text => VectorView::Text {
            offsets: Seq::new(values.len() + 1, |row: int| joined(values, row).len() as u32),
            bytes: joined(values, values.len() as int),
            validity,
        },
    }
}

proof fn lemma_error_prefix(column: ColumnarColumnSpec, values: Seq<ScalarView>, n: int, m: int)
    requires
        n <= m,
        vector_error(column, values, n) is Some,
    ensures
        vector_error(column, values, m) == vector_error(column, values, n),
    decreases m - n,
{
    if n < m {
        lemma_error_prefix(column, values, n, m - 1);
    }
}

proof fn lemma_no_error(column: ColumnarColumnSpec, values: Seq<ScalarView>, n: int, row: int)
    requires
        vector_error(column, values, n) is None,
        0 <= row < n,
    ensures
        fits(column, values[row]),
        column.physical_type is Text ==> joined(values, row + 1).len() <= u32::MAX,
{
    if vector_error(column, values, row + 1) is Some {
        lemma_error_prefix(column, values, row + 1, n);
    }
}

proof fn lemma_joined_grows(values: Seq<ScalarView>, n: int, m: int)
    requires
        0 <= n <= m,
    ensures
        joined(values, n).len() <= joined(values, m).len(),
        joined(values, m).subrange(0, joined(values, n).len() as int) == joined(values, n),
    decreases m - n,
{
    if n < m {
        lemma_joined_grows(values, n, m - 1);
        let shorter = joined(values, n);
        assert(joined(values, m).subrange(0, shorter.len() as int) =~= joined(
            values,
            m - 1,
        ).subrange(0, shorter.len() as int));
    } else {
        assert(joined(values, m).subrange(0, joined(values, n).len() as int) =~= joined(values, n));
    }
}

/// Text values that a value model stands for are UTF-8.
pub open spec fn texts_valid(values: Seq<ScalarView>) -> bool {
    forall|i: int| 0 <= i < values.len() ==> utf8::valid_utf8(text_of(#[trigger] values[i]))
}

/// A vector made of values is well-formed, and gives the values back.
pub proof fn law_vector_keeps_values(column: ColumnarColumnSpec, values: Seq<ScalarView>)
    requires
        vector_error(column, values, values.len() as int) is None,
        texts_valid(values),
    ensures
        vector_len(vector_of(column.physical_type, values)) == values.len(),
        well_formed(vector_of(column.physical_type, values)),
        values_of(vector_of(column.physical_type, values)) == values,
{
    let vector = vector_of(column.physical_type, values);
    let flags = present(values);
    let n = values.len() as int;
    validity::lemma_bitmap(flags);
    assert(vector_len(vector) == values.len());
    assert forall|row: int| 0 <= row < n implies fits(column, values[row]) by {
        lemma_no_error(column, values, n, row);
    }
    if column.physical_type is Text {
        let offsets = Seq::new(values.len() + 1, |row: int| joined(values, row).len() as u32);
        let bytes = joined(values, n);
        assert forall|row: int| 0 <= row <= n implies (#[trigger] offsets[row]) == joined(
            values,
            row,
        ).len() by {
            if row > 0 {
                lemma_no_error(column, values, n, row - 1);
            }
        }
        assert forall|i: int, j: int| 0 <= i <= j < offsets.len() implies offsets[i]
            <= offsets[j] by {
            lemma_joined_grows(values, i, j);
        }
        assert forall|row: int| 0 <= row < n implies #[trigger] row_text(offsets, bytes, row)
            == text_of(values[row]) by {
            lemma_joined_grows(values, row, row + 1);
            lemma_joined_grows(values, row + 1, n);
            let upto = joined(values, row + 1);
            let from = joined(values, row).len() as int;
            assert(offsets[row] == from && offsets[row + 1] == upto.len());
            assert(row_text(offsets, bytes, row) =~= bytes.subrange(0, upto.len() as int).subrange(
                from,
                upto.len() as int,
            ));
            assert(upto.subrange(from, upto.len() as int) =~= text_of(values[row]));
        }
        assert(well_formed(vector));
    }
    lemma_well_formed_values(vector);
    assert forall|row: int| 0 <= row < n implies values_of(vector)[row] == values[row] by {
        assert(value_of(vector, row) is Ok);
        assert(flags[row] == !(values[row] is Null));
        assert(fits(column, values[row]));
        if column.physical_type is Text {
            match vector {
                VectorView::Text { offsets, bytes, .. } => {
                    assert(row_text(offsets, bytes, row) == text_of(values[row]));
                },
                _ => {},
            }
        }
    }
    assert(values_of(vector) =~= values);
}

fn mark_present(rows: &[Vec<ScalarValue>], position: usize) -> (validity: Vec<u8>)
    requires
        forall|i: int| 0 <= i < rows@.len() ==> position < (#[trigger] rows@[i])@.len(),
    ensures
        validity@ == validity::bitmap(present(column_of(rows@, position as int))),
{
    let ghost values = column_of(rows@, position as int);
    let ghost flags = present(values);
    let mut validity: Vec<u8> = validity::no_bits(rows.len());
    let mut row: usize = 0;
    while row < rows.len()
        invariant
            row <= rows@.len(),
            values == column_of(rows@, position as int),
            flags == present(values),
            forall|i: int| 0 <= i < rows@.len() ==> position < (#[trigger] rows@[i])@.len(),
            validity@ == validity::marked(flags, row as int),
        decreases rows@.len() - row,
    {
        proof {
            validity::lemma_marked(flags, row as int);
            assert(flags[row as int] == !(values[row as int] is Null));
        }
        match &rows[row][position] {
            Scalar::Null => {},
            _ => {
                validity::set_valid(&mut validity, row);
            },
        }
        row = row + 1;
    }
    validity
}

fn bools_of(
    column: &ColumnarColumnSpec,
    rows: &[Vec<ScalarValue>],
    position: usize,
) -> (made: Result<Vec<bool>, ColumnarError>)
    requires
        column.physical_type is Bool,
        forall|i: int| 0 <= i < rows@.len() ==> position < (#[trigger] rows@[i])@.len(),
    ensures
        match vector_error(*column, column_of(rows@, position as int), rows@.len() as int) {
            Some(error) => made == Err::<Vec<bool>, ColumnarError>(error),
            None => made is Ok && vector_of(
                PhysicalType::Bool,
                column_of(rows@, position as int),
            )->Bool_values == made->Ok_0@,
        },
{
    let ghost values = column_of(rows@, position as int);
    let ghost whole = vector_of(PhysicalType::Bool, values)->Bool_values;
    let mut output: Vec<bool> = Vec::new();
    let mut row: usize = 0;
    while row < rows.len()
        invariant
            row <= rows@.len(),
            column.physical_type is Bool,
            values == column_of(rows@, position as int),
            whole == vector_of(PhysicalType::Bool, values)->Bool_values,
            forall|i: int| 0 <= i < rows@.len() ==> position < (#[trigger] rows@[i])@.len(),
            vector_error(*column, values, row as int) is None,
            output@ == whole.take(row as int),
        decreases rows@.len() - row,
    {
        assert(values[row as int] == value::scalar_view(rows@[row as int]@[position as int]));
        proof {
            if vector_error(*column, values, row + 1) is Some {
                lemma_error_prefix(*column, values, row + 1, rows@.len() as int);
            }
        }
        match &rows[row][position] {
            Scalar::Bool(flag) => {
                output.push(*flag);
            },
            Scalar::Null => {
                if !column.nullable {
                    return Err(ColumnarError::TypeMismatch(column.column_id));
                }
                output.push(false);
            },
            _ => {
                return Err(ColumnarError::TypeMismatch(column.column_id));
            },
        }
        row = row + 1;
        assert(output@ =~= whole.take(row as int));
    }
    assert(whole.take(rows@.len() as int) =~= whole);
    Ok(output)
}

fn signed_of(
    column: &ColumnarColumnSpec,
    rows: &[Vec<ScalarValue>],
    position: usize,
) -> (made: Result<Vec<i64>, ColumnarError>)
    requires
        column.physical_type is Int64,
        forall|i: int| 0 <= i < rows@.len() ==> position < (#[trigger] rows@[i])@.len(),
    ensures
        match vector_error(*column, column_of(rows@, position as int), rows@.len() as int) {
            Some(error) => made == Err::<Vec<i64>, ColumnarError>(error),
            None => made is Ok && vector_of(
                PhysicalType::Int64,
                column_of(rows@, position as int),
            )->Int64_values == made->Ok_0@,
        },
{
    let ghost values = column_of(rows@, position as int);
    let ghost whole = vector_of(PhysicalType::Int64, values)->Int64_values;
    let mut output: Vec<i64> = Vec::new();
    let mut row: usize = 0;
    while row < rows.len()
        invariant
            row <= rows@.len(),
            column.physical_type is Int64,
            values == column_of(rows@, position as int),
            whole == vector_of(PhysicalType::Int64, values)->Int64_values,
            forall|i: int| 0 <= i < rows@.len() ==> position < (#[trigger] rows@[i])@.len(),
            vector_error(*column, values, row as int) is None,
            output@ == whole.take(row as int),
        decreases rows@.len() - row,
    {
        assert(values[row as int] == value::scalar_view(rows@[row as int]@[position as int]));
        proof {
            if vector_error(*column, values, row + 1) is Some {
                lemma_error_prefix(*column, values, row + 1, rows@.len() as int);
            }
        }
        match &rows[row][position] {
            Scalar::Int64(number) => {
                output.push(*number);
            },
            Scalar::Null => {
                if !column.nullable {
                    return Err(ColumnarError::TypeMismatch(column.column_id));
                }
                output.push(0);
            },
            _ => {
                return Err(ColumnarError::TypeMismatch(column.column_id));
            },
        }
        row = row + 1;
        assert(output@ =~= whole.take(row as int));
    }
    assert(whole.take(rows@.len() as int) =~= whole);
    Ok(output)
}

fn unsigned_of(
    column: &ColumnarColumnSpec,
    rows: &[Vec<ScalarValue>],
    position: usize,
) -> (made: Result<Vec<u64>, ColumnarError>)
    requires
        column.physical_type is UInt64,
        forall|i: int| 0 <= i < rows@.len() ==> position < (#[trigger] rows@[i])@.len(),
    ensures
        match vector_error(*column, column_of(rows@, position as int), rows@.len() as int) {
            Some(error) => made == Err::<Vec<u64>, ColumnarError>(error),
            None => made is Ok && vector_of(
                PhysicalType::UInt64,
                column_of(rows@, position as int),
            )->UInt64_values == made->Ok_0@,
        },
{
    let ghost values = column_of(rows@, position as int);
    let ghost whole = vector_of(PhysicalType::UInt64, values)->UInt64_values;
    let mut output: Vec<u64> = Vec::new();
    let mut row: usize = 0;
    while row < rows.len()
        invariant
            row <= rows@.len(),
            column.physical_type is UInt64,
            values == column_of(rows@, position as int),
            whole == vector_of(PhysicalType::UInt64, values)->UInt64_values,
            forall|i: int| 0 <= i < rows@.len() ==> position < (#[trigger] rows@[i])@.len(),
            vector_error(*column, values, row as int) is None,
            output@ == whole.take(row as int),
        decreases rows@.len() - row,
    {
        assert(values[row as int] == value::scalar_view(rows@[row as int]@[position as int]));
        proof {
            if vector_error(*column, values, row + 1) is Some {
                lemma_error_prefix(*column, values, row + 1, rows@.len() as int);
            }
        }
        match &rows[row][position] {
            Scalar::UInt64(number) => {
                output.push(*number);
            },
            Scalar::Null => {
                if !column.nullable {
                    return Err(ColumnarError::TypeMismatch(column.column_id));
                }
                output.push(0);
            },
            _ => {
                return Err(ColumnarError::TypeMismatch(column.column_id));
            },
        }
        row = row + 1;
        assert(output@ =~= whole.take(row as int));
    }
    assert(whole.take(rows@.len() as int) =~= whole);
    Ok(output)
}

fn texts_of(
    column: &ColumnarColumnSpec,
    rows: &[Vec<ScalarValue>],
    position: usize,
) -> (made: Result<(Vec<u32>, Vec<u8>), ColumnarError>)
    requires
        column.physical_type is Text,
        forall|i: int| 0 <= i < rows@.len() ==> position < (#[trigger] rows@[i])@.len(),
    ensures
        match vector_error(*column, column_of(rows@, position as int), rows@.len() as int) {
            Some(error) => made == Err::<(Vec<u32>, Vec<u8>), ColumnarError>(error),
            None => made is Ok && made->Ok_0.0@ == vector_of(
                PhysicalType::Text,
                column_of(rows@, position as int),
            )->offsets && made->Ok_0.1@ == vector_of(
                PhysicalType::Text,
                column_of(rows@, position as int),
            )->bytes,
        },
{
    let ghost values = column_of(rows@, position as int);
    let ghost whole = vector_of(PhysicalType::Text, values)->offsets;
    let mut offsets: Vec<u32> = Vec::new();
    let mut bytes: Vec<u8> = Vec::new();
    offsets.push(0);
    let mut row: usize = 0;
    assert(offsets@ =~= whole.take(1));
    while row < rows.len()
        invariant
            row <= rows@.len(),
            column.physical_type is Text,
            values == column_of(rows@, position as int),
            whole == vector_of(PhysicalType::Text, values)->offsets,
            forall|i: int| 0 <= i < rows@.len() ==> position < (#[trigger] rows@[i])@.len(),
            vector_error(*column, values, row as int) is None,
            offsets@ == whole.take(row + 1),
            bytes@ == joined(values, row as int),
        decreases rows@.len() - row,
    {
        assert(values[row as int] == value::scalar_view(rows@[row as int]@[position as int]));
        proof {
            if vector_error(*column, values, row + 1) is Some {
                lemma_error_prefix(*column, values, row + 1, rows@.len() as int);
            }
        }
        match &rows[row][position] {
            Scalar::Text(text) => {
                bytes::push_bytes(&mut bytes, text.as_str().as_bytes());
            },
            Scalar::Null => {
                if !column.nullable {
                    return Err(ColumnarError::TypeMismatch(column.column_id));
                }
                assert(bytes@ =~= bytes@ + Seq::<u8>::empty());
            },
            _ => {
                return Err(ColumnarError::TypeMismatch(column.column_id));
            },
        }
        assert(bytes@ == joined(values, row + 1));
        if bytes.len() > u32::MAX as usize {
            return Err(
                ColumnarError::ResourceLimit {
                    resource: "text payload bytes",
                    value: bytes.len() as u64,
                },
            );
        }
        offsets.push(bytes.len() as u32);
        row = row + 1;
        assert(offsets@ =~= whole.take(row + 1));
    }
    assert(whole.take(rows@.len() as int + 1) =~= whole);
    Ok((offsets, bytes))
}

/// The vector of one column of some rows.
pub fn vector_from_values(
    column: &ColumnarColumnSpec,
    rows: &[Vec<ScalarValue>],
    position: usize,
) -> (made: Result<ColumnarVector, ColumnarError>)
    requires
        forall|i: int| 0 <= i < rows@.len() ==> position < (#[trigger] rows@[i])@.len(),
    ensures
        match vector_error(*column, column_of(rows@, position as int), rows@.len() as int) {
            Some(error) => made == Err::<ColumnarVector, ColumnarError>(error),
            None => made is Ok && made->Ok_0@ == vector_of(
                column.physical_type,
                column_of(rows@, position as int),
            ),
        },
{
    let validity: Vec<u8> = mark_present(rows, position);
    match column.physical_type {
        PhysicalType::Bool => Ok(
            ColumnarVector::Bool { values: bools_of(column, rows, position)?, validity },
        ),
        PhysicalType::Int64 => Ok(
            ColumnarVector::Int64 { values: signed_of(column, rows, position)?, validity },
        ),
        PhysicalType::UInt64 => Ok(
            ColumnarVector::UInt64 { values: unsigned_of(column, rows, position)?, validity },
        ),
        PhysicalType::Text => {
            let (offsets, bytes) = texts_of(column, rows, position)?;
            Ok(ColumnarVector::Text { offsets, bytes, validity })
        },
    }
}

} // verus!
