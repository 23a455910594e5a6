//! How values compare.
use crate::value::{self, Ordered, Scalar, ScalarView};
use vstd::prelude::*;

verus! {

/// Whether one text comes before another: they are alike up to a place where the
/// first one ends or has the smaller byte.
pub open spec fn text_before(left: Seq<u8>, right: Seq<u8>) -> bool {
    exists|k: int| #[trigger] parts_at(left, right, k)
}

/// Whether two texts are alike up to a place where the first one ends, and the
/// second does not, or where the first one has the smaller byte.
pub open spec fn parts_at(left: Seq<u8>, right: Seq<u8>, k: int) -> bool {
    &&& 0 <= k <= left.len()
    &&& k < right.len()
    &&& forall|i: int| 0 <= i < k ==> left[i] == right[i]
    &&& k < left.len() ==> left[k] < right[k]
}

proof fn lemma_text(left: Seq<u8>, right: Seq<u8>)
    ensures
        value::bytes_order(left, right) == Ordered::Before <==> text_before(left, right),
        value::bytes_order(left, right) == Ordered::After <==> text_before(right, left),
    decreases left.len(),
{
    if left.len() == 0 || right.len() == 0 {
        if right.len() > 0 {
            assert(parts_at(left, right, 0));
        }
        if left.len() > 0 {
            assert(parts_at(right, left, 0));
        }
    } else if left[0] != right[0] {
        if left[0] < right[0] {
            assert(parts_at(left, right, 0));
        } else {
            assert(parts_at(right, left, 0));
        }
        assert forall|k: int| #[trigger] parts_at(left, right, k) implies k == 0 by {
            if k > 0 {
                assert(left[0] == right[0]);
            }
        }
        assert forall|k: int| #[trigger] parts_at(right, left, k) implies k == 0 by {
            if k > 0 {
                assert(right[0] == left[0]);
            }
        }
    } else {
        lemma_text(left.skip(1), right.skip(1));
        lemma_parts_behind(left, right);
        lemma_parts_behind(right, left);
    }
}

proof fn lemma_parts_behind(left: Seq<u8>, right: Seq<u8>)
    requires
        left.len() > 0,
        right.len() > 0,
        left[0] == right[0],
    ensures
        text_before(left, right) <==> text_before(left.skip(1), right.skip(1)),
{
    if text_before(left, right) {
        let k = choose|k: int| #[trigger] parts_at(left, right, k);
        assert(k > 0);
        assert forall|i: int| 0 <= i < k - 1 implies left.skip(1)[i] == right.skip(1)[i] by {
            assert(left[i + 1] == right[i + 1]);
        }
        assert(parts_at(left.skip(1), right.skip(1), k - 1));
    }
    if text_before(left.skip(1), right.skip(1)) {
        let k = choose|k: int| #[trigger] parts_at(left.skip(1), right.skip(1), k);
        assert forall|i: int| 0 <= i < k + 1 implies left[i] == right[i] by {
            if i > 0 {
                assert(left.skip(1)[i - 1] == right.skip(1)[i - 1]);
            }
        }
        assert(parts_at(left, right, k + 1));
    }
}

/// Values of one type compare by what they are: `false` comes before `true`, numbers
/// by size, texts byte by byte. No value comes before all others, then come truth
/// values, signed numbers, unsigned numbers and texts.
pub proof fn law_value_order(left: ScalarView, right: ScalarView)
    ensures
        value::value_order(left, right) == Ordered::Before <==> match (left, right) {
            (Scalar::Bool(a), Scalar::Bool(b)) => !a && b,
            (Scalar::Int64(a), Scalar::Int64(b)) => a < b,
            (Scalar::UInt64(a), Scalar::UInt64(b)) => a < b,
            (Scalar::Text(a), Scalar::Text(b)) => text_before(a, b),
            (Scalar::Null, _) => !(right is Null),
            (Scalar::Bool(_), _) => !(right is Null),
            (Scalar::Int64(_), _) => right is UInt64 || right is Text,
            (Scalar::UInt64(_), _) => right is Text,
            (Scalar::Text(_), _) => false,
        },
        value::value_order(left, right) == Ordered::Same <==> left == right,
        value::value_order(left, right) == Ordered::After <==> value::value_order(right, left)
            == Ordered::Before,
{
    value::lemma_same_order(left, right);
    value::lemma_same_order(right, left);
    match (left, right) {
        (Scalar::Text(a), Scalar::Text(b)) => lemma_text(a, b),
        _ => {},
    }
}

} // verus!
