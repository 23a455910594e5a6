//! Two neighbouring nodes that are joined.
use super::key;
use super::key::EntryView;
use super::node;
use super::node::{InternalView, LeafView};
use super::pages;
use super::pages::PageView;
use super::parts;
use super::rewrite;
use super::shape;
use super::insert_laws;
use crate::ids::PageId;
use vstd::prelude::*;

verus! {

/// Two sound neighbours.
pub open spec fn neighbours(
    pages: Seq<PageView>,
    capacity: u32,
    left: PageId,
    fence: EntryView,
    right: PageId,
    height: nat,
    low: Option<EntryView>,
    high: Option<EntryView>,
) -> bool {
    &&& shape::branch(pages, capacity, left, height, low, Some(fence))
    &&& shape::branch(pages, capacity, right, height, Some(fence), high)
    &&& shape::between(fence, low, high)
    &&& key::is_light(fence, capacity)
    &&& shape::apart(pages, left, right, height)
    &&& shape::next_of(pages, shape::last_leaf(pages, left, height)) == Some(
        shape::first_leaf(pages, right, height),
    )
}

/// What two neighbours make, where they fit in one page.
pub open spec fn joined(
    pages: Seq<PageView>,
    capacity: u32,
    left: PageId,
    fence: EntryView,
    right: PageId,
) -> Option<PageView> {
    match (pages[left.0 as int], pages[right.0 as int]) {
        (PageView::Leaf(l), PageView::Leaf(r)) => match node::leaves_joined(l, r, capacity) {
            Some(leaf) => Some(PageView::Leaf(leaf)),
            None => None,
        },
        (PageView::Internal(l), PageView::Internal(r)) => match node::internals_joined(
            l,
            fence,
            r,
            capacity,
        ) {
            Some(internal) => Some(PageView::Internal(internal)),
            None => None,
        },
        _ => None,
    }
}

/// The left of two neighbours holds both.
pub open spec fn both_in(
    before: Seq<PageView>,
    after: Seq<PageView>,
    capacity: u32,
    left: PageId,
    right: PageId,
    height: nat,
    low: Option<EntryView>,
    high: Option<EntryView>,
) -> bool {
    &&& shape::branch(after, capacity, left, height, low, high)
    &&& forall|p: PageId| #[trigger]
        shape::inside(after, left, height, p) <==> (shape::inside(before, left, height, p)
            || shape::inside(before, right, height, p)) && p != right
    &&& forall|e: EntryView| #[trigger]
        shape::has(after, left, height, e) <==> (shape::has(before, left, height, e) || shape::has(
            before,
            right,
            height,
            e,
        ))
    &&& shape::first_leaf(after, left, height) == shape::first_leaf(before, left, height)
    &&& shape::next_of(after, shape::last_leaf(after, left, height)) == shape::next_of(
        before,
        shape::last_leaf(before, right, height),
    )
}

/// Two leaves that are joined.
proof fn lemma_joined_leaves(
    before: Seq<PageView>,
    after: Seq<PageView>,
    capacity: u32,
    left: PageId,
    fence: EntryView,
    right: PageId,
    low: Option<EntryView>,
    high: Option<EntryView>,
)
    requires
        neighbours(before, capacity, left, fence, right, 1, low, high),
        joined(before, capacity, left, fence, right) == Some(after[left.0 as int]),
        before.len() == after.len(),
    ensures
        both_in(before, after, capacity, left, right, 1, low, high),
        shape::filled(after, left, 1) == (shape::filled(before, left, 1) || shape::filled(
            before,
            right,
            1,
        )),
{
    let l = before[left.0 as int]->Leaf_0;
    let r = before[right.0 as int]->Leaf_0;
    let all = LeafView { entries: l.entries + r.entries, next: r.next };
    assert(after[left.0 as int] == PageView::Leaf(all));
    insert_laws::lemma_leaf_under(before, left, l);
    insert_laws::lemma_leaf_under(before, right, r);
    insert_laws::lemma_leaf_under(after, left, all);
    let m = l.entries.len() as int;
    assert forall|i: int| 0 <= i < all.entries.len() implies shape::within(
        #[trigger] all.entries[i],
        low,
        high,
    ) && key::is_light(all.entries[i], capacity) by {
        if i < m {
            assert(all.entries[i] == l.entries[i]);
            assert(shape::within(l.entries[i], low, Some(fence)));
            if high is Some {
                key::law_entry_order_is_transitive(l.entries[i], fence, high->0);
            }
        } else {
            assert(all.entries[i] == r.entries[i - m]);
            assert(shape::within(r.entries[i - m], Some(fence), high));
            if low is Some {
                if key::before(r.entries[i - m], low->0) {
                    key::law_entry_order_is_transitive(r.entries[i - m], low->0, fence);
                }
            }
        }
    }
    assert forall|i: int, j: int| 0 <= i < j < all.entries.len() implies key::before(
        #[trigger] all.entries[i],
        #[trigger] all.entries[j],
    ) by {
        if j < m {
            assert(all.entries[i] == l.entries[i] && all.entries[j] == l.entries[j]);
        } else if i >= m {
            assert(all.entries[i] == r.entries[i - m] && all.entries[j] == r.entries[j - m]);
        } else {
            assert(all.entries[i] == l.entries[i] && all.entries[j] == r.entries[j - m]);
            assert(shape::within(l.entries[i], low, Some(fence)));
            assert(shape::within(r.entries[j - m], Some(fence), high));
            key::lemma_entry_order(fence, r.entries[j - m]);
            if fence != r.entries[j - m] {
                key::law_entry_order_is_transitive(l.entries[i], fence, r.entries[j - m]);
            }
        }
    }
    assert(shape::sound_leaf(all, capacity, low, high));
    assert(shape::branch(after, capacity, left, 1, low, high));
    assert forall|e: EntryView| #[trigger] shape::has(after, left, 1, e) <==> (shape::has(
        before,
        left,
        1,
        e,
    ) || shape::has(before, right, 1, e)) by {
        if l.entries.contains(e) {
            let i = choose|i: int| 0 <= i < l.entries.len() && l.entries[i] == e;
            assert(all.entries[i] == e);
        }
        if r.entries.contains(e) {
            let i = choose|i: int| 0 <= i < r.entries.len() && r.entries[i] == e;
            assert(all.entries[m + i] == e);
        }
        if all.entries.contains(e) {
            let i = choose|i: int| 0 <= i < all.entries.len() && all.entries[i] == e;
            if i < m {
                assert(l.entries[i] == e);
            } else {
                assert(r.entries[i - m] == e);
            }
        }
    }
    assert(left != right) by {
        assert(shape::inside(before, left, 1, left));
        assert(shape::inside(before, right, 1, right));
    }
}

/// Two inner nodes that are joined.
#[verifier::rlimit(40)]
proof fn lemma_joined_internals(
    before: Seq<PageView>,
    after: Seq<PageView>,
    capacity: u32,
    left: PageId,
    fence: EntryView,
    right: PageId,
    height: nat,
    low: Option<EntryView>,
    high: Option<EntryView>,
)
    requires
        height > 1,
        neighbours(before, capacity, left, fence, right, height, low, high),
        joined(before, capacity, left, fence, right) == Some(after[left.0 as int]),
        before.len() == after.len(),
        forall|p: PageId|
            p.0 < before.len() && p != left && p != right ==> #[trigger] after[p.0 as int]
                == before[p.0 as int],
    ensures
        both_in(before, after, capacity, left, right, height, low, high),
        shape::filled(after, left, height) == (shape::filled(before, left, height)
            && shape::filled(before, right, height)),
{
    let h = (height - 1) as nat;
    let l = before[left.0 as int]->Internal_0;
    let r = before[right.0 as int]->Internal_0;
    rewrite::lemma_under(before, capacity, left, height, low, Some(fence), l);
    rewrite::lemma_under(before, capacity, right, height, Some(fence), high, r);
    let kids = l.kids + r.kids;
    let seps = l.seps.push(fence) + r.seps;
    assert(after[left.0 as int] == PageView::Internal(InternalView { kids, seps }));
    assert forall|p: PageId| #[trigger] shape::inside_row(before, l.kids, h, p) implies !#[trigger] shape::inside_row(
        before,
        r.kids,
        h,
        p,
    ) by {
        assert(shape::inside(before, left, height, p));
        if shape::inside_row(before, r.kids, h, p) {
            assert(shape::inside(before, right, height, p));
        }
    }
    parts::lemma_join(before, capacity, l.kids, l.seps, fence, r.kids, r.seps, h, low, high);
    assert forall|p: PageId| #[trigger] shape::inside_row(before, kids, h, p) implies (
    shape::inside_row(before, l.kids, h, p) || shape::inside_row(before, r.kids, h, p)) by {
        let i = choose|i: int| 0 <= i < kids.len() && #[trigger] shape::inside(before, kids[i], h, p);
        if i < l.kids.len() {
            assert(shape::inside(before, l.kids[i], h, p));
        } else {
            assert(shape::inside(before, r.kids[i - l.kids.len()], h, p));
        }
    }
    assert(shape::inside(before, left, height, left));
    assert(shape::inside(before, right, height, right));
    assert(!shape::inside_row(before, kids, h, left)) by {
        if shape::inside_row(before, kids, h, left) {
            assert(shape::inside_row(before, r.kids, h, left));
            assert(shape::inside(before, right, height, left));
        }
    }
    assert(!shape::inside_row(before, kids, h, right)) by {
        if shape::inside_row(before, kids, h, right) {
            assert(shape::inside_row(before, l.kids, h, right));
            assert(shape::inside(before, left, height, right));
        }
    }
    assert forall|p: PageId| #[trigger] shape::inside_row(before, kids, h, p) implies after[p.0 as int]
        == before[p.0 as int] by {
        rewrite::lemma_row_nodes(before, capacity, kids, seps, h, low, high, p);
    }
    parts::lemma_over_row(before, after, capacity, left, kids, seps, h, low, high);
    assert(h + 1 == height);
    assert(kids[0] == l.kids[0] && kids.last() == r.kids.last());
    assert(left != right);
    assert forall|p: PageId| #[trigger] shape::inside(after, left, height, p) <==> (shape::inside(
        before,
        left,
        height,
        p,
    ) || shape::inside(before, right, height, p)) && p != right by {
        if shape::inside(after, left, height, p) && p != left {
            assert(shape::inside_row(before, kids, h, p));
        }
        if shape::inside_row(before, l.kids, h, p) {
            let i = choose|i: int|
                0 <= i < l.kids.len() && #[trigger] shape::inside(before, l.kids[i], h, p);
            assert(shape::inside(before, kids[i], h, p));
        }
        if shape::inside_row(before, r.kids, h, p) {
            let i = choose|i: int|
                0 <= i < r.kids.len() && #[trigger] shape::inside(before, r.kids[i], h, p);
            assert(shape::inside(before, kids[l.kids.len() + i], h, p));
        }
    }
    assert forall|e: EntryView| #[trigger] shape::has(after, left, height, e) <==> (shape::has(
        before,
        left,
        height,
        e,
    ) || shape::has(before, right, height, e)) by {
        if shape::has_row(before, kids, h, e) {
            let i = choose|i: int|
                0 <= i < kids.len() && #[trigger] shape::has(before, kids[i], h, e);
            if i < l.kids.len() {
                assert(shape::has(before, l.kids[i], h, e));
            } else {
                assert(shape::has(before, r.kids[i - l.kids.len()], h, e));
            }
        }
        if shape::has_row(before, l.kids, h, e) {
            let i = choose|i: int|
                0 <= i < l.kids.len() && #[trigger] shape::has(before, l.kids[i], h, e);
            assert(shape::has(before, kids[i], h, e));
        }
        if shape::has_row(before, r.kids, h, e) {
            let i = choose|i: int|
                0 <= i < r.kids.len() && #[trigger] shape::has(before, r.kids[i], h, e);
            assert(shape::has(before, kids[l.kids.len() + i], h, e));
        }
    }
    if shape::filled_row(before, kids, h) {
        assert forall|i: int| 0 <= i < l.kids.len() implies #[trigger] shape::filled(
            before,
            l.kids[i],
            h,
        ) by {
            assert(shape::filled(before, kids[i], h));
        }
        assert forall|i: int| 0 <= i < r.kids.len() implies #[trigger] shape::filled(
            before,
            r.kids[i],
            h,
        ) by {
            assert(shape::filled(before, kids[l.kids.len() + i], h));
        }
    }
    if shape::filled_row(before, l.kids, h) && shape::filled_row(before, r.kids, h) {
        assert forall|i: int| 0 <= i < kids.len() implies #[trigger] shape::filled(
            before,
            kids[i],
            h,
        ) by {
            if i < l.kids.len() {
                assert(shape::filled(before, l.kids[i], h));
            } else {
                assert(shape::filled(before, r.kids[i - l.kids.len()], h));
            }
        }
    }
}

/// Two neighbours that are joined in the left one: it holds what both held.
pub proof fn lemma_joined(
    before: Seq<PageView>,
    after: Seq<PageView>,
    capacity: u32,
    left: PageId,
    fence: EntryView,
    right: PageId,
    height: nat,
    low: Option<EntryView>,
    high: Option<EntryView>,
)
    requires
        neighbours(before, capacity, left, fence, right, height, low, high),
        joined(before, capacity, left, fence, right) == Some(after[left.0 as int]),
        before.len() == after.len(),
        forall|p: PageId|
            p.0 < before.len() && p != left && p != right ==> #[trigger] after[p.0 as int]
                == before[p.0 as int],
    ensures
        both_in(before, after, capacity, left, right, height, low, high),
        height > 1 ==> shape::filled(after, left, height) == (shape::filled(before, left, height)
            && shape::filled(before, right, height)),
        height == 1 ==> shape::filled(after, left, height) == (shape::filled(before, left, height)
            || shape::filled(before, right, height)),
{
    if height == 1 {
        lemma_joined_leaves(before, after, capacity, left, fence, right, low, high);
    } else {
        lemma_joined_internals(before, after, capacity, left, fence, right, height, low, high);
    }
}

} // verus!
