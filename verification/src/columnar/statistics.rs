//! Column statistics, and what they rule out.
use crate::ids::ColumnId;
use crate::value::{self, Ordered, Scalar, ScalarValue, ScalarView};
use vstd::prelude::*;

verus! {

/// What is known of the values of one column of a row group.
#[derive(Debug, Clone, PartialEq, Eq)]
pub struct ColumnarColumnStatistics {
    pub null_count: u64,
    pub minimum: Option<ScalarValue>,
    pub maximum: Option<ScalarValue>,
    /// Encoded validity, offset, and value bytes for this row-group chunk.
    /// This is derived from the decoded immutable vector, not persisted twice.
    pub encoded_bytes: u64,
}

/// What statistics say.
pub struct StatisticsView {
    pub null_count: u64,
    pub minimum: Option<ScalarView>,
    pub maximum: Option<ScalarView>,
    pub encoded_bytes: u64,
}

impl View for ColumnarColumnStatistics {
    type V = StatisticsView;

    open spec fn view(&self) -> StatisticsView {
        StatisticsView {
            null_count: self.null_count,
            minimum: value::option_view(self.minimum),
            maximum: value::option_view(self.maximum),
            encoded_bytes: self.encoded_bytes,
        }
    }
}

/// How many of the first `n` values are missing.
pub open spec fn missing(values: Seq<ScalarView>, n: int) -> int
    decreases n,
{
    if n <= 0 {
        0
    } else if values[n - 1] is Null {
        missing(values, n - 1) + 1
    } else {
        missing(values, n - 1)
    }
}

/// The least of the first `n` values that are there.
pub open spec fn least(values: Seq<ScalarView>, n: int) -> Option<ScalarView>
    decreases n,
{
    if n <= 0 {
        None
    } else if values[n - 1] is Null {
        least(values, n - 1)
    } else {
        match least(values, n - 1) {
            Some(current) => if value::value_order(values[n - 1], current) == Ordered::Before {
                Some(values[n - 1])
            } else {
                Some(current)
            },
            None => Some(values[n - 1]),
        }
    }
}

/// The greatest of the first `n` values that are there.
pub open spec fn greatest(values: Seq<ScalarView>, n: int) -> Option<ScalarView>
    decreases n,
{
    if n <= 0 {
        None
    } else if values[n - 1] is Null {
        greatest(values, n - 1)
    } else {
        match greatest(values, n - 1) {
            Some(current) => if value::value_order(values[n - 1], current) == Ordered::After {
                Some(values[n - 1])
            } else {
                Some(current)
            },
            None => Some(values[n - 1]),
        }
    }
}

/// The statistics of a column's values.
pub open spec fn statistics_of(values: Seq<ScalarView>, encoded_bytes: u64) -> StatisticsView {
    StatisticsView {
        null_count: missing(values, values.len() as int) as u64,
        minimum: least(values, values.len() as int),
        maximum: greatest(values, values.len() as int),
        encoded_bytes,
    }
}

/// The statistics of one column of some rows.
pub fn statistics_for_values(
    rows: &[Vec<ScalarValue>],
    position: usize,
    encoded_bytes: u64,
) -> (statistics: ColumnarColumnStatistics)
    requires
        forall|i: int| 0 <= i < rows@.len() ==> position < (#[trigger] rows@[i])@.len(),
    ensures
        statistics@ == statistics_of(
            super::vector::column_of(rows@, position as int),
            encoded_bytes,
        ),
{
    let ghost values = super::vector::column_of(rows@, position as int);
    let mut null_count: u64 = 0;
    let mut minimum: Option<ScalarValue> = None;
    let mut maximum: Option<ScalarValue> = None;
    let mut row: usize = 0;
    while row < rows.len()
        invariant
            row <= rows@.len(),
            null_count <= row,
            values == super::vector::column_of(rows@, position as int),
            forall|i: int| 0 <= i < rows@.len() ==> position < (#[trigger] rows@[i])@.len(),
            null_count == missing(values, row as int),
            value::option_view(minimum) == least(values, row as int),
            value::option_view(maximum) == greatest(values, row as int),
        decreases rows@.len() - row,
    {
        let found: &ScalarValue = &rows[row][position];
        assert(values[row as int] == value::scalar_view(*found));
        match found {
            Scalar::Null => {
                null_count = null_count + 1;
            },
            _ => {
                let lower: bool = match &minimum {
                    Some(current) => value::compare_values(found, current) == Ordered::Before,
                    None => true,
                };
                if lower {
                    minimum = Some(value::copy_value(found));
                }
                let higher: bool = match &maximum {
                    Some(current) => value::compare_values(found, current) == Ordered::After,
                    None => true,
                };
                if higher {
                    maximum = Some(value::copy_value(found));
                }
            },
        }
        row = row + 1;
    }
    ColumnarColumnStatistics { null_count, minimum, maximum, encoded_bytes }
}

fn same_bound(left: &Option<ScalarValue>, right: &Option<ScalarValue>) -> (same: bool)
    ensures
        same == (value::option_view(*left) == value::option_view(*right)),
{
    match (left, right) {
        (Some(a), Some(b)) => value::same_value(a, b),
        (None, None) => true,
        _ => false,
    }
}

/// Whether two statistics say the same.
pub fn same_statistics(
    left: &ColumnarColumnStatistics,
    right: &ColumnarColumnStatistics,
) -> (same: bool)
    ensures
        same == (left@ == right@),
{
    left.null_count == right.null_count && left.encoded_bytes == right.encoded_bytes && same_bound(
        &left.minimum,
        &right.minimum,
    ) && same_bound(&left.maximum, &right.maximum)
}

// ---------------------------------------------------------------------------
// Pruning
// ---------------------------------------------------------------------------
/// A range of values that a scan asks of one column. A bound says whether it is
/// itself in the range.
#[derive(Debug, Clone, PartialEq, Eq)]
pub struct ColumnarConstraint {
    pub column_id: ColumnId,
    pub lower: Option<(ScalarValue, bool)>,
    pub upper: Option<(ScalarValue, bool)>,
}

/// What a constraint asks.
pub struct ConstraintView {
    pub column_id: ColumnId,
    pub lower: Option<(ScalarView, bool)>,
    pub upper: Option<(ScalarView, bool)>,
}

/// What a bound says.
pub open spec fn bound_view(bound: Option<(ScalarValue, bool)>) -> Option<(ScalarView, bool)> {
    match bound {
        Some((limit, inclusive)) => Some((value::scalar_view(limit), inclusive)),
        None => None,
    }
}

impl View for ColumnarConstraint {
    type V = ConstraintView;

    open spec fn view(&self) -> ConstraintView {
        ConstraintView {
            column_id: self.column_id,
            lower: bound_view(self.lower),
            upper: bound_view(self.upper),
        }
    }
}

/// Whether a value is in the range that a constraint asks for. No value is not.
pub open spec fn satisfies(constraint: ConstraintView, value: ScalarView) -> bool {
    &&& !(value is Null)
    &&& match constraint.lower {
        Some((limit, inclusive)) => {
            ||| value::value_order(value, limit) == Ordered::After
            ||| inclusive && value::value_order(value, limit) == Ordered::Same
        },
        None => true,
    }
    &&& match constraint.upper {
        Some((limit, inclusive)) => {
            ||| value::value_order(value, limit) == Ordered::Before
            ||| inclusive && value::value_order(value, limit) == Ordered::Same
        },
        None => true,
    }
}

/// Whether statistics rule every value out.
pub open spec fn excludes(statistics: StatisticsView, constraint: ConstraintView) -> bool {
    match (statistics.minimum, statistics.maximum) {
        (Some(minimum), Some(maximum)) => {
            ||| match constraint.lower {
                Some((limit, inclusive)) => {
                    ||| value::value_order(maximum, limit) == Ordered::Before
                    ||| !inclusive && value::value_order(maximum, limit) == Ordered::Same
                },
                None => false,
            }
            ||| match constraint.upper {
                Some((limit, inclusive)) => {
                    ||| value::value_order(minimum, limit) == Ordered::After
                    ||| !inclusive && value::value_order(minimum, limit) == Ordered::Same
                },
                None => false,
            }
        },
        _ => true,
    }
}

/// Whether statistics rule every value out.
pub fn statistics_exclude(
    statistics: &ColumnarColumnStatistics,
    constraint: &ColumnarConstraint,
) -> (excluded: bool)
    ensures
        excluded == excludes(statistics@, constraint@),
{
    match (&statistics.minimum, &statistics.maximum) {
        (Some(minimum), Some(maximum)) => {
            if let Some((limit, inclusive)) = &constraint.lower {
                let order: Ordered = value::compare_values(maximum, limit);
                if order == Ordered::Before || (!*inclusive && order == Ordered::Same) {
                    return true;
                }
            }
            if let Some((limit, inclusive)) = &constraint.upper {
                let order: Ordered = value::compare_values(minimum, limit);
                if order == Ordered::After || (!*inclusive && order == Ordered::Same) {
                    return true;
                }
            }
            false
        },
        _ => true,
    }
}

/// The least value comes before every value, and the greatest after.
pub proof fn lemma_bounds(values: Seq<ScalarView>, n: int, row: int)
    requires
        0 <= row < n <= values.len(),
        !(values[row] is Null),
    ensures
        least(values, n) is Some,
        greatest(values, n) is Some,
        value::value_order(least(values, n)->0, values[row]) != Ordered::After,
        value::value_order(values[row], greatest(values, n)->0) != Ordered::After,
    decreases n,
{
    let last = values[n - 1];
    if row < n - 1 {
        lemma_bounds(values, n - 1, row);
        let low = least(values, n - 1)->0;
        let high = greatest(values, n - 1)->0;
        if !(last is Null) {
            value::lemma_same_order(last, low);
            value::lemma_same_order(last, high);
            if value::value_order(last, low) == Ordered::Before {
                value::law_order_is_transitive(last, low, values[row]);
            }
            if value::value_order(last, high) == Ordered::After {
                value::lemma_same_order(high, last);
                value::law_order_is_transitive(values[row], high, last);
            }
        }
    } else {
        value::lemma_same_order(last, last);
        if least(values, n - 1) is Some {
            value::lemma_same_order(last, least(values, n - 1)->0);
            value::lemma_same_order(least(values, n - 1)->0, last);
        }
        if greatest(values, n - 1) is Some {
            value::lemma_same_order(last, greatest(values, n - 1)->0);
        }
    }
}

/// Statistics that rule a column out rule out none of the values asked for.
pub proof fn law_pruning_loses_nothing(
    values: Seq<ScalarView>,
    encoded_bytes: u64,
    constraint: ConstraintView,
    row: int,
)
    requires
        excludes(statistics_of(values, encoded_bytes), constraint),
        0 <= row < values.len(),
    ensures
        !satisfies(constraint, values[row]),
{
    if satisfies(constraint, values[row]) {
        let n = values.len() as int;
        lemma_bounds(values, n, row);
        let low = least(values, n)->0;
        let high = greatest(values, n)->0;
        if let Some((limit, inclusive)) = constraint.lower {
            value::lemma_same_order(values[row], limit);
            value::lemma_same_order(limit, values[row]);
            value::lemma_same_order(high, limit);
            value::lemma_same_order(limit, high);
            value::lemma_same_order(values[row], high);
            if value::value_order(high, limit) == Ordered::Before {
                value::law_order_is_transitive(values[row], high, limit);
            } else if value::value_order(high, limit) == Ordered::Same {
                assert(high == limit);
            }
        }
        if let Some((limit, inclusive)) = constraint.upper {
            value::lemma_same_order(values[row], limit);
            value::lemma_same_order(limit, values[row]);
            value::lemma_same_order(low, limit);
            value::lemma_same_order(limit, low);
            value::lemma_same_order(low, values[row]);
            if value::value_order(low, limit) == Ordered::After {
                value::law_order_is_transitive(limit, low, values[row]);
            } else if value::value_order(low, limit) == Ordered::Same {
                assert(low == limit);
            }
        }
    }
}

} // verus!
