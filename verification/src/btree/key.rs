//! Index entries and their order.
use super::error::IndexError;
use crate::ids::RowId;
use crate::value;
use crate::value::{Ordered, PhysicalType, Scalar, ScalarValue, ScalarView};
use vstd::prelude::*;

verus! {

/// What the keys of an index are.
#[derive(Debug, PartialEq, Eq)]
pub struct IndexSpec {
    pub physical: PhysicalType,
    /// The nominal type, where the column has one.
    pub nominal: Option<String>,
    pub nullable: bool,
}

/// One entry of an index: a key and the row that has it.
#[derive(Debug, Clone, PartialEq, Eq)]
pub struct IndexEntry {
    pub key: ScalarValue,
    pub row_id: RowId,
}

/// What an entry says.
#[verifier::ext_equal]
pub struct EntryView {
    pub key: ScalarView,
    pub row_id: RowId,
}

impl View for IndexEntry {
    type V = EntryView;

    open spec fn view(&self) -> EntryView {
        EntryView { key: value::scalar_view(self.key), row_id: self.row_id }
    }
}

/// What a list of entries says.
pub open spec fn entries_view(entries: Seq<IndexEntry>) -> Seq<EntryView> {
    entries.map_values(|entry: IndexEntry| entry@)
}

impl IndexSpec {
    /// A copy of the specification.
    pub fn copy(&self) -> (copy: IndexSpec)
        ensures
            copy == *self,
    {
        let nominal = match &self.nominal {
            Some(name) => Some(name.clone()),
            None => None,
        };
        IndexSpec { physical: self.physical, nominal, nullable: self.nullable }
    }

    /// Refuses a key that the index does not take.
    pub fn validate_key(&self, key: &ScalarValue) -> (outcome: Result<(), IndexError>)
        ensures
            outcome == key_check(*self, value::scalar_view(*key)),
    {
        let fits = match (key, self.physical) {
            (Scalar::Null, _) => {
                if self.nullable {
                    return Ok(());
                }
                return Err(IndexError::NullNotAllowed);
            },
            (Scalar::Bool(_), PhysicalType::Bool) => true,
            (Scalar::Int64(_), PhysicalType::Int64) => true,
            (Scalar::UInt64(_), PhysicalType::UInt64) => true,
            (Scalar::Text(_), PhysicalType::Text) => true,
            _ => false,
        };
        if fits {
            Ok(())
        } else {
            Err(IndexError::TypeMismatch { expected: self.physical })
        }
    }
}

/// Whether an index takes a key, and why not.
pub open spec fn key_check(spec: IndexSpec, key: ScalarView) -> Result<(), IndexError> {
    if key is Null {
        if spec.nullable {
            Ok(())
        } else {
            Err(IndexError::NullNotAllowed)
        }
    } else if value::is_of(key, spec.physical) {
        Ok(())
    } else {
        Err(IndexError::TypeMismatch { expected: spec.physical })
    }
}

/// Whether a row identity names a row.
pub open spec fn names_row(row: RowId) -> bool {
    row.page.0 != 0 && row.generation != 0
}

/// Whether an index takes an entry, and why not.
pub open spec fn entry_check(spec: IndexSpec, entry: EntryView) -> Result<(), IndexError> {
    match key_check(spec, entry.key) {
        Err(error) => Err(error),
        Ok(_) => if names_row(entry.row_id) {
            Ok(())
        } else {
            Err(IndexError::InvalidRowId)
        },
    }
}

impl IndexEntry {
    /// A copy of the entry.
    pub fn copy(&self) -> (copy: IndexEntry)
        ensures
            copy@ == self@,
    {
        IndexEntry { key: value::copy_value(&self.key), row_id: self.row_id }
    }

    /// Refuses an entry that the index does not take.
    pub fn validate(&self, spec: &IndexSpec) -> (outcome: Result<(), IndexError>)
        ensures
            outcome == entry_check(*spec, self@),
    {
        spec.validate_key(&self.key)?;
        if self.row_id.page.0 != 0 && self.row_id.generation != 0 {
            Ok(())
        } else {
            Err(IndexError::InvalidRowId)
        }
    }
}

// ---------------------------------------------------------------------------
// Order
// ---------------------------------------------------------------------------
/// How two rows compare: by page, slot and generation.
pub open spec fn row_order(left: RowId, right: RowId) -> Ordered {
    if left.page.0 != right.page.0 {
        value::int_order(left.page.0 as int, right.page.0 as int)
    } else if left.slot != right.slot {
        value::int_order(left.slot as int, right.slot as int)
    } else {
        value::int_order(left.generation as int, right.generation as int)
    }
}

/// How two entries compare: by key, and under one key by row.
pub open spec fn entry_order(left: EntryView, right: EntryView) -> Ordered {
    match value::value_order(left.key, right.key) {
        Ordered::Same => row_order(left.row_id, right.row_id),
        other => other,
    }
}

/// Whether an entry comes before another.
pub closed spec fn before(left: EntryView, right: EntryView) -> bool {
    entry_order(left, right) == Ordered::Before
}

/// How two rows compare: by page, slot and generation.
pub fn compare_row_ids(left: RowId, right: RowId) -> (order: Ordered)
    ensures
        order == row_order(left, right),
{
    if left.page.0 < right.page.0 {
        Ordered::Before
    } else if left.page.0 > right.page.0 {
        Ordered::After
    } else if left.slot < right.slot {
        Ordered::Before
    } else if left.slot > right.slot {
        Ordered::After
    } else if left.generation < right.generation {
        Ordered::Before
    } else if left.generation > right.generation {
        Ordered::After
    } else {
        Ordered::Same
    }
}

/// How two entries compare: by key, and under one key by row.
pub fn compare_entry_keys(left: &IndexEntry, right: &IndexEntry) -> (order: Ordered)
    ensures
        order == entry_order(left@, right@),
        order == Ordered::Before <==> before(left@, right@),
        order == Ordered::Same <==> left@ == right@,
        order == Ordered::After <==> before(right@, left@),
{
    proof {
        lemma_entry_order(left@, right@);
        lemma_entry_order(right@, left@);
    }
    match value::compare_values(&left.key, &right.key) {
        Ordered::Same => compare_row_ids(left.row_id, right.row_id),
        other => other,
    }
}

/// How a key compares with that of an entry.
pub fn compare_key_to_entry(key: &ScalarValue, entry: &IndexEntry) -> (order: Ordered)
    ensures
        order == value::value_order(value::scalar_view(*key), entry@.key),
{
    value::compare_values(key, &entry.key)
}

/// Entries compare as the same exactly where they are; otherwise one comes
/// before the other.
pub proof fn lemma_entry_order(left: EntryView, right: EntryView)
    ensures
        entry_order(left, right) == Ordered::Before <==> before(left, right),
        entry_order(left, right) == Ordered::Same <==> left == right,
        entry_order(left, right) == Ordered::After <==> before(right, left),
        !(before(left, right) && before(right, left)),
        left == right ==> !before(left, right),
        left != right ==> before(left, right) || before(right, left),
{
    value::lemma_same_order(left.key, right.key);
    value::lemma_same_order(right.key, left.key);
    if entry_order(left, right) == Ordered::Same {
        assert(left.row_id.page == right.row_id.page);
        assert(left.row_id == right.row_id);
    }
}

/// The order of entries is transitive.
pub proof fn law_entry_order_is_transitive(a: EntryView, b: EntryView, c: EntryView)
    requires
        before(a, b),
        before(b, c),
    ensures
        before(a, c),
{
    value::lemma_same_order(a.key, b.key);
    value::lemma_same_order(b.key, c.key);
    value::lemma_same_order(a.key, c.key);
    value::law_order_is_transitive(a.key, b.key, c.key);
}

/// The order of entries follows that of their keys, and under one key that
/// of their rows.
pub proof fn lemma_order_by_key(a: EntryView, b: EntryView)
    ensures
        value::value_order(a.key, b.key) == Ordered::Before ==> before(a, b),
        before(a, b) ==> value::value_order(a.key, b.key) != Ordered::After,
        a.key == b.key ==> (before(a, b) <==> row_order(a.row_id, b.row_id) == Ordered::Before),
{
    value::lemma_same_order(a.key, b.key);
    value::lemma_same_order(b.key, a.key);
}

// ---------------------------------------------------------------------------
// Sizes
// ---------------------------------------------------------------------------
/// The bytes that a node needs before its entries: its kind, its count and
/// one page reference.
pub const NODE_HEADER_BYTES: u64 = 16;

/// The bytes of an entry besides its key: its row and one page reference.
pub const ENTRY_OVERHEAD_BYTES: u64 = 22;

/// The bytes of a key.
pub open spec fn key_size(key: ScalarView) -> nat {
    match key {
        Scalar::Null => 1,
        Scalar::Bool(_) => 2,
        Scalar::Int64(_) => 9,
        Scalar::UInt64(_) => 9,
        Scalar::Text(text) => 5 + text.len(),
    }
}

/// The bytes of an entry.
pub open spec fn entry_size(entry: EntryView) -> nat {
    key_size(entry.key) + ENTRY_OVERHEAD_BYTES as nat
}

/// The bytes of the first `n` entries.
pub open spec fn front_size(entries: Seq<EntryView>, n: int) -> nat
    decreases n,
{
    if n <= 0 {
        0
    } else {
        front_size(entries, n - 1) + entry_size(entries[n - 1])
    }
}

/// The bytes of a node with the given entries.
pub open spec fn node_size(entries: Seq<EntryView>) -> nat {
    NODE_HEADER_BYTES as nat + front_size(entries, entries.len() as int)
}

/// A size as it is reported: never more than the largest number.
pub open spec fn reported(size: nat) -> u64 {
    if size > u64::MAX {
        u64::MAX
    } else {
        size as u64
    }
}

/// Three entries of the size of this one fit in a node.
pub open spec fn is_light(entry: EntryView, capacity: u32) -> bool {
    NODE_HEADER_BYTES as nat + 3 * entry_size(entry) <= capacity
}

/// Whether an entry can be stored at all, and why not: three of its size must
/// fit in a node, so that a node that overflows can always be split.
pub open spec fn fit_check(spec: IndexSpec, entry: EntryView, capacity: u32) -> Result<
    (),
    IndexError,
> {
    match entry_check(spec, entry) {
        Err(error) => Err(error),
        Ok(_) => if is_light(entry, capacity) {
            Ok(())
        } else {
            Err(
                IndexError::NodeTooLarge {
                    size: reported(NODE_HEADER_BYTES as nat + 3 * entry_size(entry)),
                    capacity,
                },
            )
        },
    }
}

/// The bytes of an entry.
pub fn size_of_entry(entry: &IndexEntry) -> (size: u64)
    ensures
        size == reported(entry_size(entry@)),
{
    let key: u64 = match &entry.key {
        Scalar::Null => 1,
        Scalar::Bool(_) => 2,
        Scalar::Int64(_) => 9,
        Scalar::UInt64(_) => 9,
        Scalar::Text(text) => (text.as_str().as_bytes().len() as u64).saturating_add(5),
    };
    key.saturating_add(ENTRY_OVERHEAD_BYTES)
}

/// The bytes of a node with the given entries.
pub fn size_of_node(entries: &[IndexEntry]) -> (size: u64)
    ensures
        size == reported(node_size(entries_view(entries@))),
{
    let mut size: u64 = NODE_HEADER_BYTES;
    let mut i: usize = 0;
    while i < entries.len()
        invariant
            i <= entries@.len(),
            size == reported(
                NODE_HEADER_BYTES as nat + front_size(entries_view(entries@), i as int),
            ),
        decreases entries@.len() - i,
    {
        size = size.saturating_add(size_of_entry(&entries[i]));
        assert(entries_view(entries@)[i as int] == entries@[i as int]@);
        i = i + 1;
    }
    size
}

/// Refuses an entry that cannot be stored.
pub fn ensure_entry_fits(spec: &IndexSpec, entry: &IndexEntry, capacity: u32) -> (outcome: Result<
    (),
    IndexError,
>)
    ensures
        outcome == fit_check(*spec, entry@, capacity),
{
    entry.validate(spec)?;
    let one: u64 = size_of_entry(entry);
    let size: u64 = one.saturating_add(one).saturating_add(one).saturating_add(NODE_HEADER_BYTES);
    if size <= capacity as u64 {
        Ok(())
    } else {
        Err(IndexError::NodeTooLarge { size, capacity })
    }
}

/// The bytes of the first entries of two lists that begin alike are the same.
pub proof fn lemma_front_size_alike(left: Seq<EntryView>, right: Seq<EntryView>, n: int)
    requires
        n <= left.len(),
        n <= right.len(),
        forall|i: int| 0 <= i < n ==> left[i] == right[i],
    ensures
        front_size(left, n) == front_size(right, n),
    decreases n,
{
    if n > 0 {
        lemma_front_size_alike(left, right, n - 1);
    }
}

/// The bytes of a list are those of its front and those of its back.
pub proof fn lemma_front_size_parts(entries: Seq<EntryView>, m: int, n: int)
    requires
        0 <= m <= n <= entries.len(),
    ensures
        front_size(entries, n) == front_size(entries, m) + front_size(entries.skip(m), n - m),
        front_size(entries.take(m), m) == front_size(entries, m),
    decreases n,
{
    lemma_front_size_alike(entries.take(m), entries, m);
    if n > m {
        lemma_front_size_parts(entries, m, n - 1);
        assert(entries.skip(m)[n - 1 - m] == entries[n - 1]);
    }
}

} // verus!
