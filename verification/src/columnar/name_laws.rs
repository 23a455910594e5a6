//! What the names of a projection's files tell.
use super::metadata;
use crate::ids::{ColumnarGeneration, ColumnarProjectionId, StorageDataVersion};
use crate::text;
use vstd::prelude::*;

verus! {

/// Whether a character is one of the ten digits.
pub open spec fn is_digit(c: char) -> bool {
    '0' <= c <= '9'
}

/// Whether a text is digits only.
pub open spec fn all_digits(s: Seq<char>) -> bool {
    forall|i: int| 0 <= i < s.len() ==> is_digit(#[trigger] s[i])
}

/// The number that digits stand for.
pub open spec fn number_of(s: Seq<char>) -> int
    decreases s.len(),
{
    if s.len() == 0 {
        0
    } else {
        10 * number_of(s.drop_last()) + (s.last() as int - '0' as int)
    }
}

/// A number in decimal is digits that stand for it, the first of them no zero but
/// where the number is zero.
pub proof fn law_decimal_stands_for_its_number(n: nat)
    ensures
        all_digits(text::decimal(n)),
        number_of(text::decimal(n)) == n,
        text::decimal(n).len() > 0,
        text::decimal(n)[0] == '0' <==> n == 0,
    decreases n,
{
    let s = text::decimal(n);
    if n < 10 {
        assert(s.drop_last() =~= Seq::<char>::empty());
        assert(number_of(Seq::<char>::empty()) == 0);
    } else {
        law_decimal_stands_for_its_number(n / 10);
        assert(s.drop_last() =~= text::decimal(n / 10));
    }
}

proof fn lemma_digits_end(x: Seq<char>, s: Seq<char>, y: Seq<char>, t: Seq<char>)
    requires
        all_digits(x),
        all_digits(y),
        s.len() > 0,
        t.len() > 0,
        !is_digit(s[0]),
        !is_digit(t[0]),
        x + s == y + t,
    ensures
        x == y,
        s == t,
{
    assert((x + s)[x.len() as int] == s[0]);
    assert((y + t)[y.len() as int] == t[0]);
    if x.len() < y.len() {
        assert((y + t)[x.len() as int] == y[x.len() as int]);
    }
    if y.len() < x.len() {
        assert((x + s)[y.len() as int] == x[y.len() as int]);
    }
    assert(x =~= (x + s).take(x.len() as int));
    assert(y =~= (y + t).take(y.len() as int));
    assert(s =~= (x + s).skip(x.len() as int));
    assert(t =~= (y + t).skip(y.len() as int));
}

proof fn lemma_same_start(p: Seq<char>, s: Seq<char>, t: Seq<char>)
    requires
        p + s == p + t,
    ensures
        s == t,
{
    assert(s =~= (p + s).skip(p.len() as int));
    assert(t =~= (p + t).skip(p.len() as int));
}

proof fn lemma_same_decimal(a: u64, s: Seq<char>, b: u64, t: Seq<char>)
    requires
        s.len() > 0,
        t.len() > 0,
        !is_digit(s[0]),
        !is_digit(t[0]),
        text::decimal(a as nat) + s == text::decimal(b as nat) + t,
    ensures
        a == b,
        s == t,
{
    law_decimal_stands_for_its_number(a as nat);
    law_decimal_stands_for_its_number(b as nat);
    lemma_digits_end(text::decimal(a as nat), s, text::decimal(b as nat), t);
}

/// The name of a base segment tells its projection and generation: no two have one name.
pub proof fn law_segment_names_differ(
    id: ColumnarProjectionId,
    generation: ColumnarGeneration,
    other_id: ColumnarProjectionId,
    other: ColumnarGeneration,
)
    ensures
        metadata::segment_name(id, generation) == metadata::segment_name(other_id, other) <==> id
            == other_id && generation == other,
{
    reveal_strlit("projection-");
    reveal_strlit("-g");
    reveal_strlit(".nbcs");
    if metadata::segment_name(id, generation) == metadata::segment_name(other_id, other) {
        let s = text::decimal(generation.0 as nat) + ".nbcs"@;
        let t = text::decimal(other.0 as nat) + ".nbcs"@;
        let x = text::decimal(id.0 as nat) + ("-g"@ + s);
        let y = text::decimal(other_id.0 as nat) + ("-g"@ + t);
        assert(metadata::segment_name(id, generation) =~= "projection-"@ + x);
        assert(metadata::segment_name(other_id, other) =~= "projection-"@ + y);
        lemma_same_start("projection-"@, x, y);
        lemma_same_decimal(id.0, "-g"@ + s, other_id.0, "-g"@ + t);
        lemma_same_start("-g"@, s, t);
        lemma_same_decimal(generation.0, ".nbcs"@, other.0, ".nbcs"@);
    }
}

/// The name of a delta segment tells its projection, its generation and where it ends:
/// no two have one name.
pub proof fn law_delta_names_differ(
    id: ColumnarProjectionId,
    generation: ColumnarGeneration,
    after: StorageDataVersion,
    other_id: ColumnarProjectionId,
    other: ColumnarGeneration,
    other_after: StorageDataVersion,
)
    ensures
        metadata::delta_name(id, generation, after) == metadata::delta_name(
            other_id,
            other,
            other_after,
        ) <==> id == other_id && generation == other && after == other_after,
{
    reveal_strlit("projection-");
    reveal_strlit("-g");
    reveal_strlit("-d");
    reveal_strlit(".nbcd");
    let name = metadata::delta_name(id, generation, after);
    let other_name = metadata::delta_name(other_id, other, other_after);
    if name == other_name {
        let u = text::decimal(after.0 as nat) + ".nbcd"@;
        let v = text::decimal(other_after.0 as nat) + ".nbcd"@;
        let s = text::decimal(generation.0 as nat) + ("-d"@ + u);
        let t = text::decimal(other.0 as nat) + ("-d"@ + v);
        let x = text::decimal(id.0 as nat) + ("-g"@ + s);
        let y = text::decimal(other_id.0 as nat) + ("-g"@ + t);
        assert(name =~= "projection-"@ + x);
        assert(other_name =~= "projection-"@ + y);
        lemma_same_start("projection-"@, x, y);
        lemma_same_decimal(id.0, "-g"@ + s, other_id.0, "-g"@ + t);
        lemma_same_start("-g"@, s, t);
        lemma_same_decimal(generation.0, "-d"@ + u, other.0, "-d"@ + v);
        lemma_same_start("-d"@, u, v);
        lemma_same_decimal(after.0, ".nbcd"@, other_after.0, ".nbcd"@);
    }
}

/// A base segment and a delta segment never have one name.
pub proof fn law_bases_and_deltas_differ(
    id: ColumnarProjectionId,
    generation: ColumnarGeneration,
    other_id: ColumnarProjectionId,
    other: ColumnarGeneration,
    after: StorageDataVersion,
)
    ensures
        metadata::segment_name(id, generation) != metadata::delta_name(other_id, other, after),
        metadata::segment_name(id, generation).last() == 's',
        metadata::delta_name(other_id, other, after).last() == 'd',
{
    reveal_strlit(".nbcs");
    reveal_strlit(".nbcd");
    assert(metadata::segment_name(id, generation).last() == ".nbcs"@.last());
    assert(metadata::delta_name(other_id, other, after).last() == ".nbcd"@.last());
}

} // verus!
