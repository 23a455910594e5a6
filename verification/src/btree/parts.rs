//! Stretches of a row, rows that are joined, and nodes over a row.
use super::key;
use super::key::EntryView;
use super::node::InternalView;
use super::pages;
use super::pages::PageView;
use super::shape;
use crate::ids::PageId;
use vstd::prelude::*;

verus! {

/// A stretch of a sound row is a sound row between the separators next to it.
pub proof fn lemma_stretch(
    pages: Seq<PageView>,
    capacity: u32,
    kids: Seq<PageId>,
    seps: Seq<EntryView>,
    height: nat,
    low: Option<EntryView>,
    high: Option<EntryView>,
    a: int,
    b: int,
)
    requires
        shape::row(pages, capacity, kids, seps, height, low, high),
        0 <= a < b <= kids.len(),
    ensures
        shape::row(
            pages,
            capacity,
            kids.subrange(a, b),
            seps.subrange(a, b - 1),
            height,
            shape::kid_low(seps, low, a),
            shape::kid_high(seps, high, b - 1),
        ),
{
    let k = kids.subrange(a, b);
    let s = seps.subrange(a, b - 1);
    let kl = shape::kid_low(seps, low, a);
    let kh = shape::kid_high(seps, high, b - 1);
    assert forall|i: int| 0 <= i < s.len() implies shape::between(#[trigger] s[i], kl, kh)
        && key::is_light(s[i], capacity) by {
        assert(s[i] == seps[a + i]);
        assert(shape::between(seps[a + i], low, high));
    }
    assert forall|i: int, j: int| 0 <= i < j < s.len() implies key::before(
        #[trigger] s[i],
        #[trigger] s[j],
    ) by {
        assert(s[i] == seps[a + i] && s[j] == seps[a + j]);
    }
    assert forall|i: int| 0 <= i < k.len() implies shape::branch(
        pages,
        capacity,
        #[trigger] k[i],
        height,
        shape::kid_low(s, kl, i),
        shape::kid_high(s, kh, i),
    ) by {
        assert(k[i] == kids[a + i]);
        assert(shape::kid_low(s, kl, i) == shape::kid_low(seps, low, a + i));
        assert(shape::kid_high(s, kh, i) == shape::kid_high(seps, high, a + i));
    }
    assert forall|i: int, j: int| 0 <= i < k.len() && 0 <= j < k.len() && i != j implies shape::apart(
        pages,
        #[trigger] k[i],
        #[trigger] k[j],
        height,
    ) by {
        assert(shape::apart(pages, kids[a + i], kids[a + j], height));
    }
    assert forall|i: int| 0 <= i < k.len() - 1 implies shape::next_of(
        pages,
        #[trigger] shape::last_leaf(pages, k[i], height),
    ) == Some(shape::first_leaf(pages, k[i + 1], height)) by {
        assert(k[i] == kids[a + i] && k[i + 1] == kids[a + i + 1]);
        assert(shape::next_of(pages, shape::last_leaf(pages, kids[a + i], height)) == Some(
            shape::first_leaf(pages, kids[a + i + 1], height),
        ));
    }
}

/// Two sound rows next to each other make one.
pub proof fn lemma_join(
    pages: Seq<PageView>,
    capacity: u32,
    left_kids: Seq<PageId>,
    left_seps: Seq<EntryView>,
    fence: EntryView,
    right_kids: Seq<PageId>,
    right_seps: Seq<EntryView>,
    height: nat,
    low: Option<EntryView>,
    high: Option<EntryView>,
)
    requires
        shape::row(pages, capacity, left_kids, left_seps, height, low, Some(fence)),
        shape::row(pages, capacity, right_kids, right_seps, height, Some(fence), high),
        shape::between(fence, low, high),
        key::is_light(fence, capacity),
        forall|p: PageId| #[trigger]
            shape::inside_row(pages, left_kids, height, p) ==> !#[trigger] shape::inside_row(
                pages,
                right_kids,
                height,
                p,
            ),
        shape::next_of(pages, shape::last_leaf(pages, left_kids.last(), height)) == Some(
            shape::first_leaf(pages, right_kids[0], height),
        ),
    ensures
        shape::row(
            pages,
            capacity,
            left_kids + right_kids,
            left_seps.push(fence) + right_seps,
            height,
            low,
            high,
        ),
{
    let k = left_kids + right_kids;
    let s = left_seps.push(fence) + right_seps;
    let m = left_seps.len() as int;
    assert forall|i: int| 0 <= i < s.len() implies shape::between(#[trigger] s[i], low, high)
        && key::is_light(s[i], capacity) by {
        if i < m {
            assert(s[i] == left_seps[i]);
            assert(shape::between(left_seps[i], low, Some(fence)));
            if high is Some {
                key::law_entry_order_is_transitive(left_seps[i], fence, high->0);
            }
        } else if i > m {
            assert(s[i] == right_seps[i - m - 1]);
            assert(shape::between(right_seps[i - m - 1], Some(fence), high));
            if low is Some {
                key::law_entry_order_is_transitive(low->0, fence, right_seps[i - m - 1]);
            }
        }
    }
    assert forall|i: int, j: int| 0 <= i < j < s.len() implies key::before(
        #[trigger] s[i],
        #[trigger] s[j],
    ) by {
        if i < m {
            assert(s[i] == left_seps[i]);
            assert(shape::between(left_seps[i], low, Some(fence)));
        }
        if j > m {
            assert(s[j] == right_seps[j - m - 1]);
            assert(shape::between(right_seps[j - m - 1], Some(fence), high));
        }
        if i < m && j > m {
            key::law_entry_order_is_transitive(left_seps[i], fence, right_seps[j - m - 1]);
        } else if j < m {
            assert(s[j] == left_seps[j]);
        } else if i > m {
            assert(s[i] == right_seps[i - m - 1]);
        }
    }
    assert forall|i: int| 0 <= i < k.len() implies shape::branch(
        pages,
        capacity,
        #[trigger] k[i],
        height,
        shape::kid_low(s, low, i),
        shape::kid_high(s, high, i),
    ) by {
        if i <= m {
            assert(k[i] == left_kids[i]);
            assert(shape::kid_low(s, low, i) == shape::kid_low(left_seps, low, i));
            assert(shape::kid_high(s, high, i) == shape::kid_high(left_seps, Some(fence), i));
        } else {
            let j = i - m - 1;
            assert(k[i] == right_kids[j]);
            assert(shape::kid_low(s, low, i) == shape::kid_low(right_seps, Some(fence), j));
            assert(shape::kid_high(s, high, i) == shape::kid_high(right_seps, high, j));
        }
    }
    assert forall|i: int, j: int| 0 <= i < k.len() && 0 <= j < k.len() && i != j implies shape::apart(
        pages,
        #[trigger] k[i],
        #[trigger] k[j],
        height,
    ) by {
        if i <= m && j <= m {
            assert(shape::apart(pages, left_kids[i], left_kids[j], height));
        } else if i > m && j > m {
            assert(shape::apart(pages, right_kids[i - m - 1], right_kids[j - m - 1], height));
        } else {
            assert forall|p: PageId| #[trigger] shape::inside(pages, k[i], height, p) implies !#[trigger] shape::inside(
                pages,
                k[j],
                height,
                p,
            ) by {
                if shape::inside(pages, k[j], height, p) {
                    if i <= m {
                        assert(shape::inside(pages, left_kids[i], height, p));
                        assert(shape::inside(pages, right_kids[j - m - 1], height, p));
                    } else {
                        assert(shape::inside(pages, left_kids[j], height, p));
                        assert(shape::inside(pages, right_kids[i - m - 1], height, p));
                    }
                    assert(shape::inside_row(pages, left_kids, height, p));
                    assert(shape::inside_row(pages, right_kids, height, p));
                }
            }
        }
    }
    assert forall|i: int| 0 <= i < k.len() - 1 implies shape::next_of(
        pages,
        #[trigger] shape::last_leaf(pages, k[i], height),
    ) == Some(shape::first_leaf(pages, k[i + 1], height)) by {
        if i < m {
            assert(shape::next_of(pages, shape::last_leaf(pages, left_kids[i], height)) == Some(
                shape::first_leaf(pages, left_kids[i + 1], height),
            ));
        } else if i > m {
            let j = i - m - 1;
            assert(shape::next_of(pages, shape::last_leaf(pages, right_kids[j], height)) == Some(
                shape::first_leaf(pages, right_kids[j + 1], height),
            ));
        }
    }
}

/// A page that holds a node over a sound row is a sound branch.
pub proof fn lemma_over_row(
    before: Seq<PageView>,
    after: Seq<PageView>,
    capacity: u32,
    page: PageId,
    kids: Seq<PageId>,
    seps: Seq<EntryView>,
    height: nat,
    low: Option<EntryView>,
    high: Option<EntryView>,
)
    requires
        height >= 1,
        shape::row(before, capacity, kids, seps, height, low, high),
        before.len() <= after.len(),
        forall|p: PageId| #[trigger]
            shape::inside_row(before, kids, height, p) ==> after[p.0 as int] == before[p.0 as int],
        !shape::inside_row(before, kids, height, page),
        pages::is_child(after, page),
        after[page.0 as int] == PageView::Internal(InternalView { kids, seps }),
        key::node_size(seps) <= capacity,
    ensures
        shape::branch(after, capacity, page, height + 1, low, high),
        forall|p: PageId| #[trigger]
            shape::inside(after, page, height + 1, p) <==> (p == page || shape::inside_row(
                before,
                kids,
                height,
                p,
            )),
        forall|e: EntryView| #[trigger]
            shape::has(after, page, height + 1, e) <==> shape::has_row(before, kids, height, e),
        shape::first_leaf(after, page, height + 1) == shape::first_leaf(before, kids[0], height),
        shape::next_of(after, shape::last_leaf(after, page, height + 1)) == shape::next_of(
            before,
            shape::last_leaf(before, kids.last(), height),
        ),
        shape::filled(after, page, height + 1) == shape::filled_row(before, kids, height),
{
    let h = height + 1;
    assert((h - 1) as nat == height);
    assert forall|i: int| #![trigger kids[i]] 0 <= i < kids.len() implies {
        &&& shape::kid_sound(after, capacity, kids, seps, height, low, high, i)
        &&& forall|p: PageId|
            #![trigger shape::inside(before, kids[i], height, p)]
            #![trigger shape::inside(after, kids[i], height, p)]
            shape::inside(before, kids[i], height, p) == shape::inside(after, kids[i], height, p)
        &&& forall|e: EntryView|
            #![trigger shape::has(before, kids[i], height, e)]
            #![trigger shape::has(after, kids[i], height, e)]
            shape::has(before, kids[i], height, e) == shape::has(after, kids[i], height, e)
        &&& shape::first_leaf(before, kids[i], height) == shape::first_leaf(after, kids[i], height)
        &&& shape::last_leaf(before, kids[i], height) == shape::last_leaf(after, kids[i], height)
        &&& shape::next_of(before, shape::last_leaf(before, kids[i], height)) == shape::next_of(
            after,
            shape::last_leaf(after, kids[i], height),
        )
        &&& shape::filled(before, kids[i], height) == shape::filled(after, kids[i], height)
    } by {
        assert forall|p: PageId| #[trigger]
            shape::inside(before, kids[i], height, p) && p.0 < before.len() implies after[p.0 as int]
            == before[p.0 as int] by {
            assert(shape::inside_row(before, kids, height, p));
        }
        assert(shape::alike(before, after, kids[i], height));
        shape::lemma_alike(
            before,
            after,
            capacity,
            kids[i],
            height,
            shape::kid_low(seps, low, i),
            shape::kid_high(seps, high, i),
        );
    }
    assert forall|i: int, j: int|
        0 <= i < kids.len() && 0 <= j < kids.len() && i != j implies shape::apart(
        after,
        #[trigger] kids[i],
        #[trigger] kids[j],
        height,
    ) by {
        assert(shape::apart(before, kids[i], kids[j], height));
        assert forall|p: PageId| #[trigger] shape::inside(after, kids[i], height, p) implies !#[trigger] shape::inside(
            after,
            kids[j],
            height,
            p,
        ) by {
            assert(shape::inside(before, kids[i], height, p));
        }
    }
    assert forall|i: int| 0 <= i < kids.len() - 1 implies shape::next_of(
        after,
        #[trigger] shape::last_leaf(after, kids[i], height),
    ) == Some(shape::first_leaf(after, kids[i + 1], height)) by {
        assert(shape::next_of(before, shape::last_leaf(before, kids[i], height)) == Some(
            shape::first_leaf(before, kids[i + 1], height),
        ));
    }
    assert(shape::row(after, capacity, kids, seps, height, low, high));
    assert forall|p: PageId| shape::inside_row(after, kids, height, p) == shape::inside_row(
        before,
        kids,
        height,
        p,
    ) by {
        if shape::inside_row(after, kids, height, p) {
            let i = choose|i: int|
                0 <= i < kids.len() && #[trigger] shape::inside(after, kids[i], height, p);
            assert(shape::inside(before, kids[i], height, p));
        }
        if shape::inside_row(before, kids, height, p) {
            let i = choose|i: int|
                0 <= i < kids.len() && #[trigger] shape::inside(before, kids[i], height, p);
            assert(shape::inside(after, kids[i], height, p));
        }
    }
    assert forall|p: PageId| #[trigger] shape::inside(after, page, h, p) <==> (p == page
        || shape::inside_row(before, kids, height, p)) by {
        if shape::inside(after, page, h, p) && p != page {
            let i = choose|i: int|
                0 <= i < kids.len() && shape::inside(after, #[trigger] kids[i], height, p);
            assert(shape::inside(before, kids[i], height, p));
        }
        if shape::inside_row(before, kids, height, p) {
            let i = choose|i: int|
                0 <= i < kids.len() && #[trigger] shape::inside(before, kids[i], height, p);
            assert(shape::inside(after, kids[i], height, p));
        }
    }
    assert forall|e: EntryView| #[trigger] shape::has(after, page, h, e) <==> shape::has_row(
        before,
        kids,
        height,
        e,
    ) by {
        if shape::has(after, page, h, e) {
            let i = choose|i: int|
                0 <= i < kids.len() && shape::has(after, #[trigger] kids[i], height, e);
            assert(shape::has(before, kids[i], height, e));
        }
        if shape::has_row(before, kids, height, e) {
            let i = choose|i: int|
                0 <= i < kids.len() && #[trigger] shape::has(before, kids[i], height, e);
            assert(shape::has(after, kids[i], height, e));
        }
    }
    assert(kids[0] == kids[0]);
    assert(kids[kids.len() - 1] == kids.last());
    if shape::filled(after, page, h) {
        assert forall|i: int| 0 <= i < kids.len() implies #[trigger] shape::filled(
            before,
            kids[i],
            height,
        ) by {}
    }
    if shape::filled_row(before, kids, height) {
        assert forall|i: int| 0 <= i < kids.len() implies shape::filled(
            after,
            #[trigger] kids[i],
            height,
        ) by {
            assert(shape::filled(before, kids[i], height));
        }
    }
}

/// A row of one node.
pub open spec fn alone(page: PageId) -> Seq<PageId> {
    seq![page]
}

/// A row of two nodes.
pub open spec fn pair(left: PageId, right: PageId) -> Seq<PageId> {
    seq![left, right]
}

/// A single sound branch is a sound row.
pub proof fn lemma_single(
    pages: Seq<PageView>,
    capacity: u32,
    page: PageId,
    height: nat,
    low: Option<EntryView>,
    high: Option<EntryView>,
)
    requires
        shape::branch(pages, capacity, page, height, low, high),
    ensures
        shape::row(pages, capacity, alone(page), Seq::empty(), height, low, high),
        forall|p: PageId| #[trigger]
            shape::inside_row(pages, alone(page), height, p) <==> shape::inside(
                pages,
                page,
                height,
                p,
            ),
        forall|e: EntryView| #[trigger]
            shape::has_row(pages, alone(page), height, e) <==> shape::has(pages, page, height, e),
        shape::filled_row(pages, alone(page), height) == shape::filled(pages, page, height),
{
    let kids = alone(page);
    assert(kids[0] == page);
    assert forall|p: PageId| #[trigger] shape::inside_row(pages, kids, height, p) <==> shape::inside(
        pages,
        page,
        height,
        p,
    ) by {
        if shape::inside(pages, page, height, p) {
            assert(shape::inside(pages, kids[0], height, p));
        }
    }
    assert forall|e: EntryView| #[trigger] shape::has_row(pages, kids, height, e) <==> shape::has(
        pages,
        page,
        height,
        e,
    ) by {
        if shape::has(pages, page, height, e) {
            assert(shape::has(pages, kids[0], height, e));
        }
    }
    if shape::filled_row(pages, kids, height) {
        assert(shape::filled(pages, kids[0], height));
    }
}

/// Two sound branches next to each other are a sound row.
pub proof fn lemma_pair(
    pages: Seq<PageView>,
    capacity: u32,
    left: PageId,
    fence: EntryView,
    right: PageId,
    height: nat,
    low: Option<EntryView>,
    high: Option<EntryView>,
)
    requires
        shape::branch(pages, capacity, left, height, low, Some(fence)),
        shape::branch(pages, capacity, right, height, Some(fence), high),
        shape::between(fence, low, high),
        key::is_light(fence, capacity),
        forall|p: PageId| #[trigger]
            shape::inside(pages, left, height, p) ==> !#[trigger] shape::inside(
                pages,
                right,
                height,
                p,
            ),
        shape::next_of(pages, shape::last_leaf(pages, left, height)) == Some(
            shape::first_leaf(pages, right, height),
        ),
    ensures
        shape::row(pages, capacity, pair(left, right), seq![fence], height, low, high),
        forall|p: PageId| #[trigger]
            shape::inside_row(pages, pair(left, right), height, p) <==> (shape::inside(
                pages,
                left,
                height,
                p,
            ) || shape::inside(pages, right, height, p)),
        forall|e: EntryView| #[trigger]
            shape::has_row(pages, pair(left, right), height, e) <==> (shape::has(
                pages,
                left,
                height,
                e,
            ) || shape::has(pages, right, height, e)),
        shape::filled_row(pages, pair(left, right), height) == (shape::filled(pages, left, height)
            && shape::filled(pages, right, height)),
{
    lemma_single(pages, capacity, left, height, low, Some(fence));
    lemma_single(pages, capacity, right, height, Some(fence), high);
    let none = Seq::<EntryView>::empty();
    lemma_join(
        pages,
        capacity,
        alone(left),
        none,
        fence,
        alone(right),
        none,
        height,
        low,
        high,
    );
    let kids = pair(left, right);
    assert(alone(left) + alone(right) =~= kids);
    assert(none.push(fence) + none =~= seq![fence]);
    assert(kids[0] == left && kids[1] == right);
    assert forall|p: PageId| #[trigger] shape::inside_row(pages, kids, height, p) <==> (
    shape::inside(pages, left, height, p) || shape::inside(pages, right, height, p)) by {
        if shape::inside(pages, left, height, p) {
            assert(shape::inside(pages, kids[0], height, p));
        }
        if shape::inside(pages, right, height, p) {
            assert(shape::inside(pages, kids[1], height, p));
        }
    }
    assert forall|e: EntryView| #[trigger] shape::has_row(pages, kids, height, e) <==> (shape::has(
        pages,
        left,
        height,
        e,
    ) || shape::has(pages, right, height, e)) by {
        if shape::has(pages, left, height, e) {
            assert(shape::has(pages, kids[0], height, e));
        }
        if shape::has(pages, right, height, e) {
            assert(shape::has(pages, kids[1], height, e));
        }
    }
    if shape::filled_row(pages, kids, height) {
        assert(shape::filled(pages, kids[0], height));
        assert(shape::filled(pages, kids[1], height));
    }
}

} // verus!
