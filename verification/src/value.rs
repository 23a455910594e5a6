//! Column values, their types and their order.
use vstd::prelude::*;
use vstd::utf8;

verus! {

/// The physical type of a column.
#[derive(Debug, Clone, Copy, PartialEq, Eq, Structural)]
pub enum PhysicalType {
    Bool,
    Int64,
    UInt64,
    Text,
}

/// A column value. `T` is the representation of a text.
#[derive(Debug, Clone, PartialEq, Eq)]
pub enum Scalar<T> {
    Null,
    Bool(bool),
    Int64(i64),
    UInt64(u64),
    Text(T),
}

/// A column value.
pub type ScalarValue = Scalar<String>;

/// What a column value says: a text is its UTF-8 bytes.
pub type ScalarView = Scalar<Seq<u8>>;

/// What a column value says.
pub open spec fn scalar_view(value: ScalarValue) -> ScalarView {
    match value {
        Scalar::Null => Scalar::Null,
        Scalar::Bool(flag) => Scalar::Bool(flag),
        Scalar::Int64(number) => Scalar::Int64(number),
        Scalar::UInt64(number) => Scalar::UInt64(number),
        Scalar::Text(text) => Scalar::Text(utf8::encode_utf8(text@)),
    }
}

/// What a row says.
pub open spec fn row_view(row: Seq<ScalarValue>) -> Seq<ScalarView> {
    row.map_values(|value: ScalarValue| scalar_view(value))
}

/// What an optional value says.
pub open spec fn option_view(value: Option<ScalarValue>) -> Option<ScalarView> {
    match value {
        Some(known) => Some(scalar_view(known)),
        None => None,
    }
}

/// Whether a value is one of a type.
pub open spec fn is_of<T>(value: Scalar<T>, physical: PhysicalType) -> bool {
    match physical {
        PhysicalType::Bool => value is Bool,
        PhysicalType::Int64 => value is Int64,
        PhysicalType::UInt64 => value is UInt64,
        PhysicalType::Text => value is Text,
    }
}

/// A copy of a value.
pub fn copy_value(value: &ScalarValue) -> (copy: ScalarValue)
    ensures
        copy == *value,
{
    match value {
        Scalar::Null => Scalar::Null,
        Scalar::Bool(flag) => Scalar::Bool(*flag),
        Scalar::Int64(number) => Scalar::Int64(*number),
        Scalar::UInt64(number) => Scalar::UInt64(*number),
        Scalar::Text(text) => Scalar::Text(text.clone()),
    }
}

/// A copy of a row.
pub fn copy_row(row: &[ScalarValue]) -> (copy: Vec<ScalarValue>)
    ensures
        copy@ == row@,
{
    let mut copy: Vec<ScalarValue> = Vec::new();
    let mut i: usize = 0;
    while i < row.len()
        invariant
            i <= row@.len(),
            copy@ == row@.take(i as int),
        decreases row@.len() - i,
    {
        copy.push(copy_value(&row[i]));
        i = i + 1;
        assert(copy@ =~= row@.take(i as int));
    }
    assert(copy@ =~= row@);
    copy
}

/// The text in UTF-8 bytes, where they are valid. Calls `std::str::from_utf8`,
/// which accepts a byte string exactly where it is valid UTF-8 and then gives
/// the text with these bytes.
#[verifier::external_body]
pub(crate) fn text_from_utf8(bytes: &[u8]) -> (text: Option<String>)
    ensures
        text is Some <==> utf8::valid_utf8(bytes@),
        text matches Some(value) ==> utf8::encode_utf8(value@) == bytes@,
{
    match std::str::from_utf8(bytes) {
        Ok(value) => Some(String::from(value)),
        Err(_) => None,
    }
}

// ---------------------------------------------------------------------------
// Order
// ---------------------------------------------------------------------------
/// How two values compare.
#[derive(Debug, Clone, Copy, PartialEq, Eq, Structural)]
pub enum Ordered {
    Before,
    Same,
    After,
}

/// How two integers compare.
pub open spec fn int_order(left: int, right: int) -> Ordered {
    if left < right {
        Ordered::Before
    } else if left == right {
        Ordered::Same
    } else {
        Ordered::After
    }
}

/// How two byte strings compare, byte by byte; a prefix comes first.
pub open spec fn bytes_order(left: Seq<u8>, right: Seq<u8>) -> Ordered
    decreases left.len(),
{
    if left.len() == 0 && right.len() == 0 {
        Ordered::Same
    } else if left.len() == 0 {
        Ordered::Before
    } else if right.len() == 0 {
        Ordered::After
    } else if left[0] != right[0] {
        int_order(left[0] as int, right[0] as int)
    } else {
        bytes_order(left.skip(1), right.skip(1))
    }
}

/// The place of a value's type among the types. No value comes first.
pub open spec fn type_rank<T>(value: Scalar<T>) -> int {
    match value {
        Scalar::Null => 0,
        Scalar::Bool(_) => 1,
        Scalar::Int64(_) => 2,
        Scalar::UInt64(_) => 3,
        Scalar::Text(_) => 4,
    }
}

/// The number of a flag.
pub open spec fn flag_number(flag: bool) -> int {
    if flag {
        1
    } else {
        0
    }
}

/// How two values compare: by type, and within a type by value.
pub open spec fn value_order(left: ScalarView, right: ScalarView) -> Ordered {
    match (left, right) {
        (Scalar::Bool(a), Scalar::Bool(b)) => int_order(flag_number(a), flag_number(b)),
        (Scalar::Int64(a), Scalar::Int64(b)) => int_order(a as int, b as int),
        (Scalar::UInt64(a), Scalar::UInt64(b)) => int_order(a as int, b as int),
        (Scalar::Text(a), Scalar::Text(b)) => bytes_order(a, b),
        _ => int_order(type_rank(left), type_rank(right)),
    }
}

fn order_bytes(left: &[u8], right: &[u8]) -> (order: Ordered)
    ensures
        order == bytes_order(left@, right@),
{
    let mut i: usize = 0;
    assert(left@.skip(0) =~= left@ && right@.skip(0) =~= right@);
    while i < left.len() && i < right.len()
        invariant
            i <= left@.len(),
            i <= right@.len(),
            bytes_order(left@, right@) == bytes_order(left@.skip(i as int), right@.skip(i as int)),
        decreases left@.len() - i,
    {
        let a: u8 = left[i];
        let b: u8 = right[i];
        assert(left@.skip(i as int)[0] == a && right@.skip(i as int)[0] == b);
        if a < b {
            return Ordered::Before;
        }
        if a > b {
            return Ordered::After;
        }
        assert(left@.skip(i as int).skip(1) =~= left@.skip(i + 1));
        assert(right@.skip(i as int).skip(1) =~= right@.skip(i + 1));
        i = i + 1;
    }
    if i < right.len() {
        Ordered::Before
    } else if i < left.len() {
        Ordered::After
    } else {
        Ordered::Same
    }
}

fn order_u64(left: u64, right: u64) -> (order: Ordered)
    ensures
        order == int_order(left as int, right as int),
{
    if left < right {
        Ordered::Before
    } else if left == right {
        Ordered::Same
    } else {
        Ordered::After
    }
}

fn rank(value: &ScalarValue) -> (place: u64)
    ensures
        place == type_rank(scalar_view(*value)),
{
    match value {
        Scalar::Null => 0,
        Scalar::Bool(_) => 1,
        Scalar::Int64(_) => 2,
        Scalar::UInt64(_) => 3,
        Scalar::Text(_) => 4,
    }
}

/// How two values compare: by type, and within a type by value.
pub fn compare_values(left: &ScalarValue, right: &ScalarValue) -> (order: Ordered)
    ensures
        order == value_order(scalar_view(*left), scalar_view(*right)),
{
    match (left, right) {
        (Scalar::Bool(a), Scalar::Bool(b)) => order_u64(
            if *a {
                1
            } else {
                0
            },
            if *b {
                1
            } else {
                0
            },
        ),
        (Scalar::Int64(a), Scalar::Int64(b)) => if *a < *b {
            Ordered::Before
        } else if *a == *b {
            Ordered::Same
        } else {
            Ordered::After
        },
        (Scalar::UInt64(a), Scalar::UInt64(b)) => order_u64(*a, *b),
        (Scalar::Text(a), Scalar::Text(b)) => order_bytes(
            a.as_str().as_bytes(),
            b.as_str().as_bytes(),
        ),
        _ => order_u64(rank(left), rank(right)),
    }
}

/// Whether two values are the same.
pub fn same_value(left: &ScalarValue, right: &ScalarValue) -> (same: bool)
    ensures
        same == (scalar_view(*left) == scalar_view(*right)),
{
    proof {
        lemma_same_order(scalar_view(*left), scalar_view(*right));
    }
    compare_values(left, right) == Ordered::Same
}

proof fn lemma_bytes_order(left: Seq<u8>, right: Seq<u8>)
    ensures
        bytes_order(left, right) == Ordered::Same <==> left == right,
        bytes_order(left, right) == Ordered::Before <==> bytes_order(right, left) == Ordered::After,
    decreases left.len(),
{
    if left.len() > 0 && right.len() > 0 {
        lemma_bytes_order(left.skip(1), right.skip(1));
        if left[0] == right[0] && left.skip(1) == right.skip(1) {
            assert(left =~= seq![left[0]] + left.skip(1));
            assert(right =~= seq![right[0]] + right.skip(1));
        }
    } else if left.len() == 0 && right.len() == 0 {
        assert(left =~= right);
    }
}

proof fn lemma_bytes_transitive(a: Seq<u8>, b: Seq<u8>, c: Seq<u8>)
    requires
        bytes_order(a, b) != Ordered::After,
        bytes_order(b, c) != Ordered::After,
    ensures
        bytes_order(a, c) != Ordered::After,
        bytes_order(a, b) == Ordered::Before || bytes_order(b, c) == Ordered::Before
            ==> bytes_order(a, c) == Ordered::Before,
    decreases a.len(),
{
    if a.len() > 0 && b.len() > 0 && c.len() > 0 {
        if a[0] == b[0] && b[0] == c[0] {
            lemma_bytes_transitive(a.skip(1), b.skip(1), c.skip(1));
        }
    }
}

/// Values compare as the same exactly where they are.
pub proof fn lemma_same_order(left: ScalarView, right: ScalarView)
    ensures
        value_order(left, right) == Ordered::Same <==> left == right,
        value_order(left, right) == Ordered::Before <==> value_order(right, left) == Ordered::After,
{
    match (left, right) {
        (Scalar::Text(a), Scalar::Text(b)) => {
            lemma_bytes_order(a, b);
            lemma_bytes_order(b, a);
        },
        _ => {},
    }
}

/// The order of values is transitive.
pub proof fn law_order_is_transitive(a: ScalarView, b: ScalarView, c: ScalarView)
    requires
        value_order(a, b) != Ordered::After,
        value_order(b, c) != Ordered::After,
    ensures
        value_order(a, c) != Ordered::After,
        value_order(a, b) == Ordered::Before || value_order(b, c) == Ordered::Before
            ==> value_order(a, c) == Ordered::Before,
{
    match (a, b, c) {
        (Scalar::Text(x), Scalar::Text(y), Scalar::Text(z)) => {
            lemma_bytes_transitive(x, y, z);
        },
        _ => {},
    }
}

} // verus!
