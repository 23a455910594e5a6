//! Validity bitmaps: one bit for each row, set where the row holds a value.
use crate::bytes;
use vstd::prelude::*;

verus! {

/// How many bytes the bits of so many rows take.
pub open spec fn bitmap_len(rows: int) -> int {
    (rows + 7) / 8
}

/// Whether the bit of a row is set. Rows behind the bitmap are not.
pub open spec fn bit(validity: Seq<u8>, row: int) -> bool {
    0 <= row && row / 8 < validity.len() && validity[row / 8] & (1u8 << ((row % 8) as u8)) != 0
}

/// A bitmap with the bit of one row set.
pub open spec fn with_bit(validity: Seq<u8>, row: int) -> Seq<u8> {
    validity.update(row / 8, validity[row / 8] | (1u8 << ((row % 8) as u8)))
}

/// The bitmap of `flags` with the bits of the first `n` rows entered.
pub open spec fn marked(flags: Seq<bool>, n: int) -> Seq<u8>
    decreases n,
{
    if n <= 0 {
        bytes::zeros(bitmap_len(flags.len() as int) as nat)
    } else if flags[n - 1] {
        with_bit(marked(flags, n - 1), n - 1)
    } else {
        marked(flags, n - 1)
    }
}

/// The bitmap of `flags`.
pub open spec fn bitmap(flags: Seq<bool>) -> Seq<u8> {
    marked(flags, flags.len() as int)
}

/// How many of the first `n` rows have no value.
pub open spec fn nulls(validity: Seq<u8>, n: int) -> int
    decreases n,
{
    if n <= 0 {
        0
    } else if bit(validity, n - 1) {
        nulls(validity, n - 1)
    } else {
        nulls(validity, n - 1) + 1
    }
}

proof fn lemma_or_bit(byte: u8, k: u8, j: u8)
    by (bit_vector)
    requires
        k < 8,
        j < 8,
    ensures
        ((byte | (1u8 << k)) & (1u8 << j) != 0) <==> (j == k || byte & (1u8 << j) != 0),
{
}

proof fn lemma_no_bit(j: u8)
    by (bit_vector)
    requires
        j < 8,
    ensures
        0u8 & (1u8 << j) == 0,
{
}

/// Setting a row's bit changes that bit alone.
pub proof fn lemma_with_bit(validity: Seq<u8>, row: int)
    requires
        0 <= row,
        row / 8 < validity.len(),
    ensures
        with_bit(validity, row).len() == validity.len(),
        forall|j: int| #[trigger]
            bit(with_bit(validity, row), j) == (j == row || bit(validity, j)),
{
    assert forall|j: int| #[trigger]
        bit(with_bit(validity, row), j) == (j == row || bit(validity, j)) by {
        if 0 <= j && j / 8 == row / 8 {
            lemma_or_bit(validity[row / 8], (row % 8) as u8, (j % 8) as u8);
            assert(row == 8 * (row / 8) + row % 8);
            assert(j == 8 * (j / 8) + j % 8);
        }
    }
}

/// A bitmap holds the bits of its flags.
pub proof fn lemma_marked(flags: Seq<bool>, n: int)
    requires
        0 <= n <= flags.len(),
    ensures
        marked(flags, n).len() == bitmap_len(flags.len() as int),
        forall|j: int| #[trigger] bit(marked(flags, n), j) == (0 <= j < n && flags[j]),
    decreases n,
{
    if n <= 0 {
        assert forall|j: int| !#[trigger] bit(marked(flags, n), j) by {
            if 0 <= j && j / 8 < marked(flags, n).len() {
                lemma_no_bit((j % 8) as u8);
            }
        }
    } else {
        lemma_marked(flags, n - 1);
        if flags[n - 1] {
            assert((n - 1) / 8 < bitmap_len(flags.len() as int));
            lemma_with_bit(marked(flags, n - 1), n - 1);
        }
    }
}

/// A bitmap holds the bits of its flags.
pub proof fn lemma_bitmap(flags: Seq<bool>)
    ensures
        bitmap(flags).len() == bitmap_len(flags.len() as int),
        forall|j: int| #[trigger] bit(bitmap(flags), j) == (0 <= j < flags.len() && flags[j]),
{
    lemma_marked(flags, flags.len() as int);
}

/// There are no more rows without a value than rows.
pub proof fn lemma_nulls_bound(validity: Seq<u8>, n: int)
    requires
        0 <= n,
    ensures
        0 <= nulls(validity, n) <= n,
    decreases n,
{
    if n > 0 {
        lemma_nulls_bound(validity, n - 1);
    }
}

/// How many bytes the bits of so many rows take.
pub fn bitmap_bytes(rows: usize) -> (length: usize)
    ensures
        length == bitmap_len(rows as int),
{
    if rows % 8 == 0 {
        rows / 8
    } else {
        rows / 8 + 1
    }
}

/// An empty bitmap for so many rows.
pub fn no_bits(rows: usize) -> (validity: Vec<u8>)
    ensures
        validity@ == bytes::zeros(bitmap_len(rows as int) as nat),
{
    let mut validity: Vec<u8> = Vec::new();
    bytes::push_zeros(&mut validity, bitmap_bytes(rows));
    assert(validity@ =~= bytes::zeros(bitmap_len(rows as int) as nat));
    validity
}

/// Sets the bit of a row.
pub fn set_valid(validity: &mut Vec<u8>, row: usize)
    requires
        row as int / 8 < old(validity)@.len(),
    ensures
        final(validity)@ == with_bit(old(validity)@, row as int),
{
    let byte: u8 = validity[row / 8] | (1u8 << ((row % 8) as u8));
    validity.set(row / 8, byte);
}

/// Whether the bit of a row is set.
pub fn valid_at(validity: &[u8], row: usize) -> (valid: bool)
    ensures
        valid == bit(validity@, row as int),
{
    let byte: usize = row / 8;
    if byte < validity.len() {
        validity[byte] & (1u8 << ((row % 8) as u8)) != 0
    } else {
        false
    }
}

/// How many of the first `rows` rows have no value.
pub fn count_nulls(validity: &[u8], rows: usize) -> (count: u64)
    ensures
        count == nulls(validity@, rows as int),
{
    let mut count: u64 = 0;
    let mut row: usize = 0;
    while row < rows
        invariant
            row <= rows,
            count <= row,
            count == nulls(validity@, row as int),
        decreases rows - row,
    {
        if !valid_at(validity, row) {
            count = count + 1;
        }
        row = row + 1;
    }
    count
}

} // verus!
