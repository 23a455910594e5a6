//! Which keys and entries an index takes, and how it orders them.
use super::error::IndexError;
use super::key;
use super::key::{EntryView, IndexSpec};
use crate::ids::RowId;
use crate::value::{self, Ordered, PhysicalType, Scalar, ScalarView};
use crate::value_laws;
use vstd::prelude::*;

verus! {

/// Rows compare by page, within a page by slot, and within a slot by generation.
pub proof fn law_row_order(left: RowId, right: RowId)
    ensures
        key::row_order(left, right) == Ordered::Before <==> {
            ||| left.page.0 < right.page.0
            ||| left.page.0 == right.page.0 && left.slot < right.slot
            ||| left.page.0 == right.page.0 && left.slot == right.slot && left.generation
                < right.generation
        },
        key::row_order(left, right) == Ordered::Same <==> left == right,
        key::row_order(left, right) == Ordered::After <==> key::row_order(right, left)
            == Ordered::Before,
{
}

/// Entries compare by key, and entries of one key by row.
pub proof fn law_entry_order(left: EntryView, right: EntryView)
    ensures
        key::entry_order(left, right) == Ordered::Before <==> {
            ||| value::value_order(left.key, right.key) == Ordered::Before
            ||| left.key == right.key && key::row_order(left.row_id, right.row_id)
                == Ordered::Before
        },
        key::entry_order(left, right) == Ordered::Same <==> left == right,
        key::entry_order(left, right) == Ordered::After <==> key::entry_order(right, left)
            == Ordered::Before,
{
    value_laws::law_value_order(left.key, right.key);
    value_laws::law_value_order(right.key, left.key);
    law_row_order(left.row_id, right.row_id);
    law_row_order(right.row_id, left.row_id);
}

/// An index takes a key exactly where it is of its type, or missing and the index
/// allows that.
pub proof fn law_keys_of_an_index(spec: IndexSpec, key: ScalarView)
    ensures
        key::key_check(spec, key) == match key {
            Scalar::Null => if spec.nullable {
                Ok::<(), IndexError>(())
            } else {
                Err::<(), IndexError>(IndexError::NullNotAllowed)
            },
            _ => if (key is Bool && spec.physical == PhysicalType::Bool) || (key is Int64
                && spec.physical == PhysicalType::Int64) || (key is UInt64 && spec.physical
                == PhysicalType::UInt64) || (key is Text && spec.physical == PhysicalType::Text) {
                Ok::<(), IndexError>(())
            } else {
                Err::<(), IndexError>(IndexError::TypeMismatch { expected: spec.physical })
            },
        },
{
}

/// How many bytes an entry takes in a node.
pub open spec fn bytes_of(entry: EntryView) -> int {
    22 + match entry.key {
        Scalar::Null => 1,
        Scalar::Bool(_) => 2,
        Scalar::Int64(_) => 9,
        Scalar::UInt64(_) => 9,
        Scalar::Text(text) => 5 + text.len() as int,
    }
}

/// An index takes an entry exactly where it takes its key, the row is one that can
/// be, and a node has room for three of its size.
pub proof fn law_entries_of_an_index(spec: IndexSpec, entry: EntryView, capacity: u32)
    ensures
        key::entry_check(spec, entry) is Ok <==> {
            &&& key::key_check(spec, entry.key) is Ok
            &&& entry.row_id.page.0 != 0
            &&& entry.row_id.generation != 0
        },
        key::fit_check(spec, entry, capacity) is Ok <==> {
            &&& key::entry_check(spec, entry) is Ok
            &&& 16 + 3 * bytes_of(entry) <= capacity
        },
        key::key_check(spec, entry.key) matches Err(error) ==> key::entry_check(spec, entry) == Err::<
            (),
            IndexError,
        >(error),
        key::entry_check(spec, entry) matches Err(error) ==> key::fit_check(spec, entry, capacity)
            == Err::<(), IndexError>(error),
{
}

/// A node takes the bytes of its entries and sixteen more.
pub proof fn law_bytes_of_a_node(entries: Seq<EntryView>, n: int)
    requires
        0 < n <= entries.len(),
    ensures
        key::front_size(entries, 0) == 0,
        key::front_size(entries, n) == key::front_size(entries, n - 1) + bytes_of(entries[n - 1]),
        key::node_size(entries) == 16 + key::front_size(entries, entries.len() as int),
{
}

} // verus!
