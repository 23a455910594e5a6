//! What a tree is: which pages it has, which entries it holds, and how its
//! parts fit together.
use super::key;
use super::key::EntryView;
use super::node::LeafView;
use super::pages;
use super::pages::PageView;
use crate::ids::PageId;
use vstd::prelude::*;

verus! {

// ---------------------------------------------------------------------------
// Parts
// ---------------------------------------------------------------------------
/// Whether a page belongs to the part of a tree under a node.
pub open spec fn inside(pages: Seq<PageView>, page: PageId, height: nat, other: PageId) -> bool
    decreases height,
{
    ||| other == page
    ||| height > 1 && match pages[page.0 as int] {
        PageView::Internal(node) => exists|i: int|
            0 <= i < node.kids.len() && inside(
                pages,
                #[trigger] node.kids[i],
                (height - 1) as nat,
                other,
            ),
        _ => false,
    }
}

/// Whether the part of a tree under a node holds an entry.
pub open spec fn has(pages: Seq<PageView>, page: PageId, height: nat, entry: EntryView) -> bool
    decreases height,
{
    match pages[page.0 as int] {
        PageView::Leaf(leaf) => height == 1 && leaf.entries.contains(entry),
        PageView::Internal(node) => height > 1 && exists|i: int|
            0 <= i < node.kids.len() && has(
                pages,
                #[trigger] node.kids[i],
                (height - 1) as nat,
                entry,
            ),
        _ => false,
    }
}

/// The first leaf under a node.
pub open spec fn first_leaf(pages: Seq<PageView>, page: PageId, height: nat) -> PageId
    decreases height,
{
    if height <= 1 {
        page
    } else {
        match pages[page.0 as int] {
            PageView::Internal(node) => first_leaf(pages, node.kids[0], (height - 1) as nat),
            _ => page,
        }
    }
}

/// The last leaf under a node.
pub open spec fn last_leaf(pages: Seq<PageView>, page: PageId, height: nat) -> PageId
    decreases height,
{
    if height <= 1 {
        page
    } else {
        match pages[page.0 as int] {
            PageView::Internal(node) => last_leaf(pages, node.kids.last(), (height - 1) as nat),
            _ => page,
        }
    }
}

/// The leaf that follows a leaf.
pub open spec fn next_of(pages: Seq<PageView>, page: PageId) -> Option<PageId> {
    match pages[page.0 as int] {
        PageView::Leaf(leaf) => leaf.next,
        _ => None,
    }
}

/// No leaf under a node is empty.
pub open spec fn filled(pages: Seq<PageView>, page: PageId, height: nat) -> bool
    decreases height,
{
    match pages[page.0 as int] {
        PageView::Leaf(leaf) => leaf.entries.len() > 0,
        PageView::Internal(node) => height > 1 && forall|i: int|
            0 <= i < node.kids.len() ==> filled(
                pages,
                #[trigger] node.kids[i],
                (height - 1) as nat,
            ),
        _ => false,
    }
}

/// Every inner node under a node has a separator.
pub open spec fn forked(pages: Seq<PageView>, page: PageId, height: nat) -> bool
    decreases height,
{
    match pages[page.0 as int] {
        PageView::Internal(node) => node.seps.len() > 0 && (height > 1 ==> forall|i: int|
            0 <= i < node.kids.len() ==> forked(
                pages,
                #[trigger] node.kids[i],
                (height - 1) as nat,
            )),
        _ => true,
    }
}

// ---------------------------------------------------------------------------
// Order
// ---------------------------------------------------------------------------
/// Entries in strictly ascending order.
pub open spec fn ascending(entries: Seq<EntryView>) -> bool {
    forall|i: int, j: int|
        0 <= i < j < entries.len() ==> key::before(#[trigger] entries[i], #[trigger] entries[j])
}

/// Whether an entry lies between two bounds, of which the lower one counts.
pub open spec fn within(entry: EntryView, low: Option<EntryView>, high: Option<EntryView>) -> bool {
    &&& low matches Some(bound) ==> !key::before(entry, bound)
    &&& high matches Some(bound) ==> key::before(entry, bound)
}

/// Whether a separator lies strictly between two bounds.
pub open spec fn between(entry: EntryView, low: Option<EntryView>, high: Option<EntryView>) -> bool {
    &&& low matches Some(bound) ==> key::before(bound, entry)
    &&& high matches Some(bound) ==> key::before(entry, bound)
}

/// The lower bound of a child.
pub open spec fn kid_low(seps: Seq<EntryView>, low: Option<EntryView>, i: int) -> Option<
    EntryView,
> {
    if i <= 0 {
        low
    } else {
        Some(seps[i - 1])
    }
}

/// The upper bound of a child.
pub open spec fn kid_high(seps: Seq<EntryView>, high: Option<EntryView>, i: int) -> Option<
    EntryView,
> {
    if i >= seps.len() {
        high
    } else {
        Some(seps[i])
    }
}

/// A leaf whose entries ascend between two bounds and fit in a page.
pub open spec fn sound_leaf(
    leaf: LeafView,
    capacity: u32,
    low: Option<EntryView>,
    high: Option<EntryView>,
) -> bool {
    &&& ascending(leaf.entries)
    &&& forall|i: int| 0 <= i < leaf.entries.len() ==> within(#[trigger] leaf.entries[i], low, high)
    &&& forall|i: int|
        0 <= i < leaf.entries.len() ==> key::is_light(#[trigger] leaf.entries[i], capacity)
    &&& key::node_size(leaf.entries) <= capacity
}

/// The separators of a row of nodes.
pub open spec fn sound_seps(
    seps: Seq<EntryView>,
    capacity: u32,
    low: Option<EntryView>,
    high: Option<EntryView>,
) -> bool {
    &&& ascending(seps)
    &&& forall|i: int| 0 <= i < seps.len() ==> between(#[trigger] seps[i], low, high)
    &&& forall|i: int| 0 <= i < seps.len() ==> key::is_light(#[trigger] seps[i], capacity)
}

/// The part of a tree under a node is sound: it has the height that it should
/// have, its entries lie between two bounds, and no page occurs twice.
pub open spec fn branch(
    pages: Seq<PageView>,
    capacity: u32,
    page: PageId,
    height: nat,
    low: Option<EntryView>,
    high: Option<EntryView>,
) -> bool
    decreases height, 0nat,
{
    &&& height >= 1
    &&& pages::is_child(pages, page)
    &&& match pages[page.0 as int] {
        PageView::Leaf(leaf) => height == 1 && sound_leaf(leaf, capacity, low, high),
        PageView::Internal(node) => {
            &&& height > 1
            &&& !inside_row(pages, node.kids, (height - 1) as nat, page)
            &&& row(pages, capacity, node.kids, node.seps, (height - 1) as nat, low, high)
            &&& key::node_size(node.seps) <= capacity
        },
        _ => false,
    }
}

/// Two nodes share no page.
pub open spec fn apart(pages: Seq<PageView>, left: PageId, right: PageId, height: nat) -> bool {
    forall|p: PageId| #[trigger]
        inside(pages, left, height, p) ==> !#[trigger] inside(pages, right, height, p)
}

/// A child of a row is sound between the separators next to it.
pub open spec fn kid_sound(
    pages: Seq<PageView>,
    capacity: u32,
    kids: Seq<PageId>,
    seps: Seq<EntryView>,
    height: nat,
    low: Option<EntryView>,
    high: Option<EntryView>,
    i: int,
) -> bool {
    branch(pages, capacity, kids[i], height, kid_low(seps, low, i), kid_high(seps, high, i))
}

/// A row of neighbouring nodes of one height, with separators between them,
/// is sound: the nodes share no page, and the last leaf under each leads to
/// the first leaf under the next.
pub open spec fn row(
    pages: Seq<PageView>,
    capacity: u32,
    kids: Seq<PageId>,
    seps: Seq<EntryView>,
    height: nat,
    low: Option<EntryView>,
    high: Option<EntryView>,
) -> bool
    decreases height, 1nat,
{
    &&& kids.len() == seps.len() + 1
    &&& sound_seps(seps, capacity, low, high)
    &&& forall|i: int|
        0 <= i < kids.len() ==> branch(
            pages,
            capacity,
            #[trigger] kids[i],
            height,
            kid_low(seps, low, i),
            kid_high(seps, high, i),
        )
    &&& forall|i: int, j: int|
        0 <= i < kids.len() && 0 <= j < kids.len() && i != j ==> apart(
            pages,
            #[trigger] kids[i],
            #[trigger] kids[j],
            height,
        )
    &&& forall|i: int|
        0 <= i < kids.len() - 1 ==> next_of(pages, #[trigger] last_leaf(pages, kids[i], height))
            == Some(first_leaf(pages, kids[i + 1], height))
}

/// Whether a page belongs to one of the nodes of a row.
pub open spec fn inside_row(
    pages: Seq<PageView>,
    kids: Seq<PageId>,
    height: nat,
    other: PageId,
) -> bool {
    exists|i: int| 0 <= i < kids.len() && #[trigger] inside(pages, kids[i], height, other)
}

/// Whether one of the nodes of a row holds an entry.
pub open spec fn has_row(
    pages: Seq<PageView>,
    kids: Seq<PageId>,
    height: nat,
    entry: EntryView,
) -> bool {
    exists|i: int| 0 <= i < kids.len() && #[trigger] has(pages, kids[i], height, entry)
}

/// No leaf under the nodes of a row is empty.
pub open spec fn filled_row(pages: Seq<PageView>, kids: Seq<PageId>, height: nat) -> bool {
    forall|i: int| 0 <= i < kids.len() ==> #[trigger] filled(pages, kids[i], height)
}

/// Every inner node under the nodes of a row has a separator.
pub open spec fn forked_row(pages: Seq<PageView>, kids: Seq<PageId>, height: nat) -> bool {
    forall|i: int| 0 <= i < kids.len() ==> #[trigger] forked(pages, kids[i], height)
}

// ---------------------------------------------------------------------------
// What a part depends on
// ---------------------------------------------------------------------------
/// Two files have the same content on every page under a node.
pub open spec fn alike(
    before: Seq<PageView>,
    after: Seq<PageView>,
    page: PageId,
    height: nat,
) -> bool {
    &&& before.len() <= after.len()
    &&& forall|p: PageId| #[trigger]
        inside(before, page, height, p) && p.0 < before.len() ==> after[p.0 as int]
            == before[p.0 as int]
}

/// A sound part of a tree depends on its own pages alone.
pub proof fn lemma_alike(
    before: Seq<PageView>,
    after: Seq<PageView>,
    capacity: u32,
    page: PageId,
    height: nat,
    low: Option<EntryView>,
    high: Option<EntryView>,
)
    requires
        branch(before, capacity, page, height, low, high),
        alike(before, after, page, height),
    ensures
        branch(after, capacity, page, height, low, high),
        forall|p: PageId|
            #![trigger inside(before, page, height, p)]
            #![trigger inside(after, page, height, p)]
            inside(before, page, height, p) == inside(after, page, height, p),
        forall|e: EntryView|
            #![trigger has(before, page, height, e)]
            #![trigger has(after, page, height, e)]
            has(before, page, height, e) == has(after, page, height, e),
        first_leaf(before, page, height) == first_leaf(after, page, height),
        last_leaf(before, page, height) == last_leaf(after, page, height),
        next_of(before, last_leaf(before, page, height)) == next_of(
            after,
            last_leaf(after, page, height),
        ),
        filled(before, page, height) == filled(after, page, height),
    decreases height,
{
    assert(inside(before, page, height, page));
    if height > 1 {
        let node = before[page.0 as int]->Internal_0;
        let kids = node.kids;
        let seps = node.seps;
        let h = (height - 1) as nat;
        assert(before[page.0 as int] is Internal);
        assert(row(before, capacity, kids, seps, h, low, high));
        assert forall|i: int| 0 <= i < kids.len() implies alike(
            before,
            after,
            #[trigger] kids[i],
            h,
        ) && kid_sound(before, capacity, kids, seps, h, low, high, i) by {
            assert(kid_sound(before, capacity, kids, seps, h, low, high, i));
            assert forall|p: PageId| #[trigger]
                inside(before, kids[i], h, p) && p.0 < before.len() implies after[p.0 as int]
                == before[p.0 as int] by {
                assert(inside(before, page, height, p));
            }
        }
        assert forall|i: int| #![trigger kids[i]] 0 <= i < kids.len() implies {
            &&& kid_sound(after, capacity, kids, seps, h, low, high, i)
            &&& forall|p: PageId|
                inside(before, kids[i], h, p) == inside(after, kids[i], h, p)
            &&& forall|e: EntryView| has(before, kids[i], h, e) == has(after, kids[i], h, e)
            &&& first_leaf(before, kids[i], h) == first_leaf(after, kids[i], h)
            &&& last_leaf(before, kids[i], h) == last_leaf(after, kids[i], h)
            &&& next_of(before, last_leaf(before, kids[i], h)) == next_of(
                after,
                last_leaf(after, kids[i], h),
            )
            &&& filled(before, kids[i], h) == filled(after, kids[i], h)
        } by {
            assert(alike(before, after, kids[i], h));
            lemma_alike(
                before,
                after,
                capacity,
                kids[i],
                h,
                kid_low(seps, low, i),
                kid_high(seps, high, i),
            );
        }
        assert forall|i: int, p: PageId| 0 <= i < kids.len() implies #[trigger] inside(
            before,
            kids[i],
            h,
            p,
        ) == inside(after, kids[i], h, p) by {
            assert(kid_sound(after, capacity, kids, seps, h, low, high, i));
        }
        assert forall|i: int, e: EntryView| 0 <= i < kids.len() implies #[trigger] has(
            before,
            kids[i],
            h,
            e,
        ) == has(after, kids[i], h, e) by {
            assert(kid_sound(after, capacity, kids, seps, h, low, high, i));
        }
        assert forall|i: int| 0 <= i < kids.len() - 1 implies next_of(
            after,
            #[trigger] last_leaf(after, kids[i], h),
        ) == Some(first_leaf(after, kids[i + 1], h)) by {
            assert(kid_sound(after, capacity, kids, seps, h, low, high, i));
            assert(kid_sound(after, capacity, kids, seps, h, low, high, i + 1));
            assert(next_of(before, last_leaf(before, kids[i], h)) == Some(
                first_leaf(before, kids[i + 1], h),
            ));
        }
        assert forall|i: int, j: int|
            0 <= i < kids.len() && 0 <= j < kids.len() && i != j implies apart(
            after,
            #[trigger] kids[i],
            #[trigger] kids[j],
            h,
        ) by {
            assert(apart(before, kids[i], kids[j], h));
            assert forall|p: PageId| #[trigger] inside(after, kids[i], h, p) implies !#[trigger] inside(
                after,
                kids[j],
                h,
                p,
            ) by {
                assert(inside(before, kids[i], h, p));
                assert(!inside(before, kids[j], h, p));
            }
        }
        assert(row(after, capacity, kids, seps, h, low, high));
        assert(!inside_row(after, kids, h, page)) by {
            if inside_row(after, kids, h, page) {
                let i = choose|i: int| 0 <= i < kids.len() && inside(after, kids[i], h, page);
                assert(inside(before, kids[i], h, page));
            }
        }
        assert forall|p: PageId| inside(before, page, height, p) == inside(
            after,
            page,
            height,
            p,
        ) by {
            if inside(before, page, height, p) && p != page {
                let i = choose|i: int| 0 <= i < kids.len() && inside(before, kids[i], h, p);
                assert(inside(after, kids[i], h, p));
            }
            if inside(after, page, height, p) && p != page {
                let i = choose|i: int| 0 <= i < kids.len() && inside(after, kids[i], h, p);
                assert(inside(before, kids[i], h, p));
            }
        }
        assert forall|e: EntryView| has(before, page, height, e) == has(after, page, height, e) by {
            if has(before, page, height, e) {
                let i = choose|i: int| 0 <= i < kids.len() && has(before, kids[i], h, e);
                assert(has(after, kids[i], h, e));
            }
            if has(after, page, height, e) {
                let i = choose|i: int| 0 <= i < kids.len() && has(after, kids[i], h, e);
                assert(has(before, kids[i], h, e));
            }
        }
        assert(kid_sound(after, capacity, kids, seps, h, low, high, 0));
        assert(kid_sound(after, capacity, kids, seps, h, low, high, kids.len() - 1));
        assert(filled(before, page, height) == filled(after, page, height));
    }
}

} // verus!
