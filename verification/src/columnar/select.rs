//! Picking rows out of a column vector, and the size of a vector.
use super::validity;
use super::vector::{self, ColumnarVector, VectorView};
use crate::bytes;
use vstd::prelude::*;

verus! {

/// The bytes of the texts of the first `n` picked rows.
pub open spec fn picked_text(offsets: Seq<u32>, bytes: Seq<u8>, rows: Seq<usize>, n: int) -> Seq<u8>
    decreases n,
{
    if n <= 0 {
        Seq::empty()
    } else {
        picked_text(offsets, bytes, rows, n - 1) + vector::row_text(
            offsets,
            bytes,
            rows[n - 1] as int,
        )
    }
}

/// A length as an offset; one that does not fit is the largest offset.
pub open spec fn capped(length: nat) -> u32 {
    if length > u32::MAX {
        u32::MAX
    } else {
        length as u32
    }
}

/// Which of the picked rows have a value.
pub open spec fn picked_flags(vector: VectorView, rows: Seq<usize>) -> Seq<bool> {
    rows.map_values(|row: usize| validity::bit(vector::validity_of(vector), row as int))
}

/// The vector of the picked rows, in their order.
pub open spec fn selected(vector: VectorView, rows: Seq<usize>) -> VectorView {
    let validity = validity::bitmap(picked_flags(vector, rows));
    match vector {
        VectorView::Bool { values, .. } => VectorView::Bool {
            values: rows.map_values(|row: usize| values[row as int]),
            validity,
        },
        VectorView::Int64 { values, .. } => VectorView::Int64 {
            values: rows.map_values(|row: usize| values[row as int]),
            validity,
        },
        VectorView::UInt64 { values, .. } => VectorView::UInt64 {
            values: rows.map_values(|row: usize| values[row as int]),
            validity,
        },
        VectorView::Text { offsets, bytes, .. } => VectorView::Text {
            offsets: Seq::new(
                rows.len() + 1,
                |i: int| capped(picked_text(offsets, bytes, rows, i).len()),
            ),
            bytes: picked_text(offsets, bytes, rows, rows.len() as int),
            validity,
        },
    }
}

/// Whether the offsets of a row cut a text out of some bytes.
pub open spec fn row_cut(offsets: Seq<u32>, bytes: Seq<u8>, row: int) -> bool {
    offsets[row] <= offsets[row + 1] <= bytes.len()
}

/// Whether the rows can be picked from the vector.
pub open spec fn pickable(vector: VectorView, rows: Seq<usize>) -> bool {
    forall|i: int|
        0 <= i < rows.len() ==> {
            &&& (#[trigger] rows[i]) < vector::vector_len(vector)
            &&& match vector {
                VectorView::Text { offsets, bytes, .. } => row_cut(offsets, bytes, rows[i] as int),
                _ => true,
            }
        }
}

/// Any rows can be picked from a vector whose offsets cut its bytes into rows.
pub proof fn lemma_pickable(vector: VectorView, rows: Seq<usize>)
    requires
        forall|i: int| 0 <= i < rows.len() ==> (#[trigger] rows[i]) < vector::vector_len(vector),
        vector matches VectorView::Text { offsets, bytes, .. } ==> vector::offsets_cut(
            offsets,
            bytes,
        ),
    ensures
        pickable(vector, rows),
{
    if let VectorView::Text { offsets, bytes, .. } = vector {
        assert forall|i: int| 0 <= i < rows.len() implies row_cut(
            offsets,
            bytes,
            (#[trigger] rows[i]) as int,
        ) by {
            let row = rows[i] as int;
            assert(offsets[row] <= offsets[row + 1] <= offsets.last());
        }
    }
}

fn pick_flags(source: &ColumnarVector, rows: &[usize]) -> (validity: Vec<u8>)
    ensures
        validity@ == validity::bitmap(picked_flags(source@, rows@)),
{
    let ghost flags = picked_flags(source@, rows@);
    let mut validity: Vec<u8> = validity::no_bits(rows.len());
    let mut output: usize = 0;
    while output < rows.len()
        invariant
            output <= rows@.len(),
            flags == picked_flags(source@, rows@),
            validity@ == validity::marked(flags, output as int),
        decreases rows@.len() - output,
    {
        proof {
            validity::lemma_marked(flags, output as int);
        }
        if validity::valid_at(source.validity().as_slice(), rows[output]) {
            validity::set_valid(&mut validity, output);
        }
        output = output + 1;
    }
    validity
}

fn pick<T: Copy>(values: &[T], rows: &[usize]) -> (picked: Vec<T>)
    requires
        forall|i: int| 0 <= i < rows@.len() ==> (#[trigger] rows@[i]) < values@.len(),
    ensures
        picked@ == rows@.map_values(|row: usize| values@[row as int]),
{
    let mut picked: Vec<T> = Vec::new();
    let ghost whole = rows@.map_values(|row: usize| values@[row as int]);
    let mut i: usize = 0;
    while i < rows.len()
        invariant
            i <= rows@.len(),
            whole == rows@.map_values(|row: usize| values@[row as int]),
            forall|k: int| 0 <= k < rows@.len() ==> (#[trigger] rows@[k]) < values@.len(),
            picked@ == whole.take(i as int),
        decreases rows@.len() - i,
    {
        let row: usize = rows[i];
        picked.push(values[row]);
        i = i + 1;
        assert(picked@ =~= whole.take(i as int));
    }
    assert(picked@ =~= whole);
    picked
}

fn pick_texts(offsets: &[u32], bytes: &[u8], rows: &[usize]) -> (picked: (Vec<u32>, Vec<u8>))
    requires
        forall|i: int|
            0 <= i < rows@.len() ==> (#[trigger] rows@[i]) < offsets@.len() - 1 && row_cut(
                offsets@,
                bytes@,
                rows@[i] as int,
            ),
    ensures
        picked.0@ == Seq::new(
            rows@.len() + 1,
            |i: int| capped(picked_text(offsets@, bytes@, rows@, i).len()),
        ),
        picked.1@ == picked_text(offsets@, bytes@, rows@, rows@.len() as int),
{
    let ghost whole = Seq::new(
        rows@.len() + 1,
        |i: int| capped(picked_text(offsets@, bytes@, rows@, i).len()),
    );
    let mut picked_offsets: Vec<u32> = Vec::new();
    let mut picked_bytes: Vec<u8> = Vec::new();
    picked_offsets.push(0);
    let mut i: usize = 0;
    assert(picked_offsets@ =~= whole.take(1));
    while i < rows.len()
        invariant
            i <= rows@.len(),
            forall|k: int|
                0 <= k < rows@.len() ==> (#[trigger] rows@[k]) < offsets@.len() - 1 && row_cut(
                    offsets@,
                    bytes@,
                    rows@[k] as int,
                ),
            whole == Seq::new(
                rows@.len() + 1,
                |k: int| capped(picked_text(offsets@, bytes@, rows@, k).len()),
            ),
            picked_bytes@ == picked_text(offsets@, bytes@, rows@, i as int),
            picked_offsets@ == whole.take(i + 1),
        decreases rows@.len() - i,
    {
        let row: usize = rows[i];
        let start: usize = offsets[row] as usize;
        let end: usize = offsets[row + 1] as usize;
        assert(row_cut(offsets@, bytes@, row as int));
        bytes::push_bytes(&mut picked_bytes, &bytes[start..end]);
        if picked_bytes.len() > u32::MAX as usize {
            picked_offsets.push(u32::MAX);
        } else {
            picked_offsets.push(picked_bytes.len() as u32);
        }
        i = i + 1;
        assert(picked_offsets@ =~= whole.take(i + 1));
    }
    assert(picked_offsets@ =~= whole);
    (picked_offsets, picked_bytes)
}

/// The vector of the picked rows, in their order.
pub fn select_vector_rows(source: &ColumnarVector, rows: &[usize]) -> (picked: ColumnarVector)
    requires
        pickable(source@, rows@),
    ensures
        picked@ == selected(source@, rows@),
{
    let validity: Vec<u8> = pick_flags(source, rows);
    match source {
        ColumnarVector::Bool { values, .. } => ColumnarVector::Bool {
            values: pick(values.as_slice(), rows),
            validity,
        },
        ColumnarVector::Int64 { values, .. } => ColumnarVector::Int64 {
            values: pick(values.as_slice(), rows),
            validity,
        },
        ColumnarVector::UInt64 { values, .. } => ColumnarVector::UInt64 {
            values: pick(values.as_slice(), rows),
            validity,
        },
        ColumnarVector::Text { offsets, bytes, .. } => {
            let (offsets, bytes) = pick_texts(offsets.as_slice(), bytes.as_slice(), rows);
            ColumnarVector::Text { offsets, bytes, validity }
        },
    }
}

proof fn lemma_picked_bound(offsets: Seq<u32>, bytes: Seq<u8>, rows: Seq<usize>, n: int)
    requires
        vector::offsets_cut(offsets, bytes),
        0 <= n <= rows.len(),
        forall|i: int| 0 <= i < rows.len() ==> (#[trigger] rows[i]) < offsets.len() - 1,
        forall|i: int, j: int| 0 <= i < j < rows.len() ==> rows[i] < rows[j],
    ensures
        picked_text(offsets, bytes, rows, n).len() <= if n == 0 {
            0
        } else {
            offsets[rows[n - 1] + 1] as nat
        },
    decreases n,
{
    if n > 0 {
        lemma_picked_bound(offsets, bytes, rows, n - 1);
        let row = rows[n - 1] as int;
        assert(offsets[row] <= offsets[row + 1] <= offsets.last());
        if n > 1 {
            assert(rows[n - 2] < rows[n - 1]);
            assert(offsets[rows[n - 2] + 1] <= offsets[row]);
        }
    }
}

proof fn lemma_picked_grows(offsets: Seq<u32>, bytes: Seq<u8>, rows: Seq<usize>, n: int, m: int)
    requires
        0 <= n <= m,
    ensures
        picked_text(offsets, bytes, rows, n).len() <= picked_text(offsets, bytes, rows, m).len(),
        picked_text(offsets, bytes, rows, m).subrange(
            0,
            picked_text(offsets, bytes, rows, n).len() as int,
        ) == picked_text(offsets, bytes, rows, n),
    decreases m - n,
{
    let shorter = picked_text(offsets, bytes, rows, n);
    let longer = picked_text(offsets, bytes, rows, m);
    if n < m {
        lemma_picked_grows(offsets, bytes, rows, n, m - 1);
        assert(longer.subrange(0, shorter.len() as int) =~= picked_text(
            offsets,
            bytes,
            rows,
            m - 1,
        ).subrange(0, shorter.len() as int));
    } else {
        assert(longer.subrange(0, shorter.len() as int) =~= shorter);
    }
}

/// Whether the texts of the picked rows are no more bytes than an offset can
/// tell.
pub open spec fn texts_fit(source: VectorView, rows: Seq<usize>) -> bool {
    match source {
        VectorView::Text { offsets, bytes, .. } => picked_text(
            offsets,
            bytes,
            rows,
            rows.len() as int,
        ).len() <= u32::MAX,
        _ => true,
    }
}

/// The texts of rows that are picked in ascending order fit.
pub proof fn lemma_ascending_texts_fit(source: VectorView, rows: Seq<usize>)
    requires
        vector::well_formed(source),
        forall|i: int| 0 <= i < rows.len() ==> (#[trigger] rows[i]) < vector::vector_len(source),
        forall|i: int, j: int| 0 <= i < j < rows.len() ==> rows[i] < rows[j],
    ensures
        texts_fit(source, rows),
{
    if let VectorView::Text { offsets, bytes, .. } = source {
        lemma_picked_bound(offsets, bytes, rows, rows.len() as int);
    }
}

/// Picking rows, in any order and any of them again, keeps their values, where
/// their texts fit.
pub proof fn law_selection_keeps_values(source: VectorView, rows: Seq<usize>)
    requires
        vector::well_formed(source),
        forall|i: int| 0 <= i < rows.len() ==> (#[trigger] rows[i]) < vector::vector_len(source),
        texts_fit(source, rows),
    ensures
        vector::well_formed(selected(source, rows)),
        vector::vector_len(selected(source, rows)) == rows.len(),
        vector::values_of(selected(source, rows)) == rows.map_values(
            |row: usize| vector::values_of(source)[row as int],
        ),
{
    let picked = selected(source, rows);
    let n = rows.len() as int;
    validity::lemma_bitmap(picked_flags(source, rows));
    vector::lemma_well_formed_values(source);
    assert(vector::vector_len(picked) == rows.len());
    if let VectorView::Text { offsets, bytes, .. } = source {
        let cut = Seq::new(
            rows.len() + 1,
            |i: int| capped(picked_text(offsets, bytes, rows, i).len()),
        );
        let text = picked_text(offsets, bytes, rows, n);
        assert forall|i: int| 0 <= i <= n implies (#[trigger] cut[i]) == picked_text(
            offsets,
            bytes,
            rows,
            i,
        ).len() by {
            lemma_picked_grows(offsets, bytes, rows, i, n);
        }
        assert forall|i: int, j: int| 0 <= i <= j < cut.len() implies cut[i] <= cut[j] by {
            lemma_picked_grows(offsets, bytes, rows, i, j);
        }
        assert forall|i: int| 0 <= i < n implies #[trigger] vector::row_text(cut, text, i)
            == vector::row_text(offsets, bytes, rows[i] as int) by {
            lemma_picked_grows(offsets, bytes, rows, i, i + 1);
            lemma_picked_grows(offsets, bytes, rows, i + 1, n);
            let upto = picked_text(offsets, bytes, rows, i + 1);
            let from = picked_text(offsets, bytes, rows, i).len() as int;
            let row = rows[i] as int;
            assert(cut[i] == from && cut[i + 1] == upto.len());
            assert(vector::row_text(cut, text, i) =~= text.subrange(
                0,
                upto.len() as int,
            ).subrange(from, upto.len() as int));
            assert(upto.subrange(from, upto.len() as int) =~= vector::row_text(
                offsets,
                bytes,
                row,
            ));
        }
        assert forall|i: int| 0 <= i < n implies vstd::utf8::valid_utf8(
            #[trigger] vector::row_text(cut, text, i),
        ) by {
            assert(vector::row_text(cut, text, i) == vector::row_text(
                offsets,
                bytes,
                rows[i] as int,
            ));
        }
    }
    assert(vector::well_formed(picked));
    vector::lemma_well_formed_values(picked);
    let expected = rows.map_values(|row: usize| vector::values_of(source)[row as int]);
    assert forall|i: int| 0 <= i < n implies vector::values_of(picked)[i] == expected[i] by {
        let row = rows[i] as int;
        assert(vector::value_of(picked, i) is Ok && vector::value_of(source, row) is Ok);
        assert(validity::bit(vector::validity_of(picked), i) == validity::bit(
            vector::validity_of(source),
            row,
        ));
        if let VectorView::Text { offsets, bytes, .. } = source {
            if let VectorView::Text { offsets: cut, bytes: text, .. } = picked {
                assert(vector::row_text(cut, text, i) == vector::row_text(offsets, bytes, row));
            }
        }
    }
    assert(vector::values_of(picked) =~= expected);
}

// ---------------------------------------------------------------------------
// Size
// ---------------------------------------------------------------------------
/// A number of bytes; more than the machine can count is the largest count.
pub open spec fn saturated(n: int) -> int {
    if n > usize::MAX {
        usize::MAX as int
    } else {
        n
    }
}

/// How many bytes a vector's validity, offsets and values take.
pub open spec fn encoded_size(vector: VectorView) -> u64 {
    let data = match vector {
        VectorView::Bool { values, .. } => values.len() as int,
        VectorView::Int64 { values, .. } => saturated(8 * values.len() as int),
        VectorView::UInt64 { values, .. } => saturated(8 * values.len() as int),
        VectorView::Text { offsets, bytes, .. } => saturated(
            saturated(4 * offsets.len() as int) + bytes.len(),
        ),
    };
    saturated(vector::validity_of(vector).len() + data) as u64
}

fn times(n: usize, width: usize) -> (product: usize)
    requires
        width == 4 || width == 8,
    ensures
        product == saturated(width * n),
{
    if n > usize::MAX / width {
        assert(width * n > usize::MAX) by (nonlinear_arith)
            requires
                n > usize::MAX / width,
                width == 4 || width == 8,
        ;
        usize::MAX
    } else {
        assert(width * n <= usize::MAX) by (nonlinear_arith)
            requires
                n <= usize::MAX / width,
                width == 4 || width == 8,
        ;
        assert(width * n == n * width) by (nonlinear_arith);
        n * width
    }
}

/// How many bytes a vector's validity, offsets and values take.
pub fn vector_encoded_bytes(vector: &ColumnarVector) -> (size: u64)
    ensures
        size == encoded_size(vector@),
{
    let data: usize = match vector {
        ColumnarVector::Bool { values, .. } => values.len(),
        ColumnarVector::Int64 { values, .. } => times(values.len(), 8),
        ColumnarVector::UInt64 { values, .. } => times(values.len(), 8),
        ColumnarVector::Text { offsets, bytes, .. } => times(offsets.len(), 4).saturating_add(
            bytes.len(),
        ),
    };
    vector.validity().len().saturating_add(data) as u64
}

} // verus!
