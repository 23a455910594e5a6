//! Writing the node over a row that was replaced.
use super::key;
use super::key::EntryView;
use super::node::InternalView;
use super::pages;
use super::pages::PageView;
use super::parts;
use super::rows;
use super::shape;
use crate::ids::PageId;
use vstd::prelude::*;

verus! {

/// What is under an inner node.
pub proof fn lemma_under(
    pages: Seq<PageView>,
    capacity: u32,
    page: PageId,
    height: nat,
    low: Option<EntryView>,
    high: Option<EntryView>,
    node: InternalView,
)
    requires
        shape::branch(pages, capacity, page, height, low, high),
        height > 1,
        pages[page.0 as int] == PageView::Internal(node),
    ensures
        shape::row(pages, capacity, node.kids, node.seps, (height - 1) as nat, low, high),
        !shape::inside_row(pages, node.kids, (height - 1) as nat, page),
        forall|p: PageId| #[trigger]
            shape::inside(pages, page, height, p) <==> (p == page || shape::inside_row(
                pages,
                node.kids,
                (height - 1) as nat,
                p,
            )),
        forall|e: EntryView| #[trigger]
            shape::has(pages, page, height, e) <==> shape::has_row(
                pages,
                node.kids,
                (height - 1) as nat,
                e,
            ),
        shape::first_leaf(pages, page, height) == shape::first_leaf(
            pages,
            node.kids[0],
            (height - 1) as nat,
        ),
        shape::last_leaf(pages, page, height) == shape::last_leaf(
            pages,
            node.kids.last(),
            (height - 1) as nat,
        ),
        shape::filled(pages, page, height) == shape::filled_row(
            pages,
            node.kids,
            (height - 1) as nat,
        ),
{
    let h = (height - 1) as nat;
    let kids = node.kids;
    assert forall|p: PageId| #[trigger] shape::inside(pages, page, height, p) <==> (p == page
        || shape::inside_row(pages, kids, h, p)) by {
        if shape::inside(pages, page, height, p) && p != page {
            let i = choose|i: int|
                0 <= i < kids.len() && shape::inside(pages, #[trigger] kids[i], h, p);
            assert(shape::inside(pages, kids[i], h, p));
        }
        if shape::inside_row(pages, kids, h, p) {
            let i = choose|i: int|
                0 <= i < kids.len() && #[trigger] shape::inside(pages, kids[i], h, p);
            assert(shape::inside(pages, kids[i], h, p));
        }
    }
    assert forall|e: EntryView| #[trigger] shape::has(pages, page, height, e) <==> shape::has_row(
        pages,
        kids,
        h,
        e,
    ) by {
        if shape::has(pages, page, height, e) {
            let i = choose|i: int|
                0 <= i < kids.len() && shape::has(pages, #[trigger] kids[i], h, e);
            assert(shape::has(pages, kids[i], h, e));
        }
        if shape::has_row(pages, kids, h, e) {
            let i = choose|i: int|
                0 <= i < kids.len() && #[trigger] shape::has(pages, kids[i], h, e);
            assert(shape::has(pages, kids[i], h, e));
        }
    }
    if shape::filled(pages, page, height) {
        assert forall|i: int| 0 <= i < kids.len() implies #[trigger] shape::filled(
            pages,
            kids[i],
            h,
        ) by {}
    }
    if shape::filled_row(pages, kids, h) {
        assert forall|i: int| 0 <= i < kids.len() implies shape::filled(
            pages,
            #[trigger] kids[i],
            h,
        ) by {
            assert(shape::filled(pages, kids[i], h));
        }
    }
}

/// The row under a node was replaced and the node is written over the new
/// one: the node is replaced by itself.
pub proof fn lemma_rewrite(
    before: Seq<PageView>,
    mid: Seq<PageView>,
    after: Seq<PageView>,
    capacity: u32,
    page: PageId,
    height: nat,
    low: Option<EntryView>,
    high: Option<EntryView>,
    node: InternalView,
    kids: Seq<PageId>,
    seps: Seq<EntryView>,
)
    requires
        shape::branch(before, capacity, page, height, low, high),
        height > 1,
        before[page.0 as int] == PageView::Internal(node),
        rows::replaces(
            before,
            mid,
            capacity,
            node.kids,
            kids,
            seps,
            (height - 1) as nat,
            low,
            high,
        ),
        after =~= mid.update(page.0 as int, PageView::Internal(InternalView { kids, seps })),
        key::node_size(seps) <= capacity,
    ensures
        rows::replaces(
            before,
            after,
            capacity,
            parts::alone(page),
            parts::alone(page),
            Seq::empty(),
            height,
            low,
            high,
        ),
        forall|e: EntryView| #[trigger]
            shape::has_row(after, parts::alone(page), height, e) <==> shape::has_row(
                mid,
                kids,
                (height - 1) as nat,
                e,
            ),
        shape::filled_row(after, parts::alone(page), height) == shape::filled_row(
            mid,
            kids,
            (height - 1) as nat,
        ),
        forall|p: PageId| #[trigger]
            shape::inside_row(after, parts::alone(page), height, p) <==> (p == page
                || shape::inside_row(mid, kids, (height - 1) as nat, p)),
{
    let h = (height - 1) as nat;
    lemma_under(before, capacity, page, height, low, high, node);
    if shape::inside_row(mid, kids, h, page) {
        assert(shape::inside_row(before, node.kids, h, page));
    }
    assert forall|p: PageId| #[trigger] shape::inside_row(mid, kids, h, p) implies after[p.0 as int]
        == mid[p.0 as int] by {
        assert(p != page);
        lemma_row_nodes(mid, capacity, kids, seps, h, low, high, p);
    }
    parts::lemma_over_row(mid, after, capacity, page, kids, seps, h, low, high);
    assert(h + 1 == height);
    parts::lemma_single(after, capacity, page, height, low, high);
    parts::lemma_single(before, capacity, page, height, low, high);
    let one = parts::alone(page);
    assert(one[0] == page && one.last() == page);
    assert forall|p: PageId| p.0 < before.len() && !#[trigger] shape::inside_row(
        before,
        one,
        height,
        p,
    ) implies after[p.0 as int] == before[p.0 as int] by {
        assert(!shape::inside(before, page, height, p));
        assert(!shape::inside_row(before, node.kids, h, p));
        assert(p != page);
    }
    assert forall|p: PageId| #[trigger] shape::inside_row(after, one, height, p) implies shape::inside_row(
        before,
        one,
        height,
        p,
    ) || p.0 >= before.len() by {
        assert(shape::inside(after, page, height, p));
        if p != page {
            assert(shape::inside_row(mid, kids, h, p));
        }
        assert(shape::inside(before, page, height, p) || p.0 >= before.len());
    }
}

/// Every page of a sound row lies in the file and holds a node.
pub proof fn lemma_row_nodes(
    pages: Seq<PageView>,
    capacity: u32,
    kids: Seq<PageId>,
    seps: Seq<EntryView>,
    height: nat,
    low: Option<EntryView>,
    high: Option<EntryView>,
    p: PageId,
)
    requires
        shape::row(pages, capacity, kids, seps, height, low, high),
        shape::inside_row(pages, kids, height, p),
    ensures
        pages::is_child(pages, p),
        pages[p.0 as int] is Leaf || pages[p.0 as int] is Internal,
{
    let i = choose|i: int| 0 <= i < kids.len() && #[trigger] shape::inside(pages, kids[i], height, p);
    rows::lemma_inside_nodes(
        pages,
        capacity,
        kids[i],
        height,
        shape::kid_low(seps, low, i),
        shape::kid_high(seps, high, i),
        p,
    );
}

/// The two halves of a row, parted at a separator.
proof fn lemma_halves(
    pages: Seq<PageView>,
    capacity: u32,
    kids: Seq<PageId>,
    seps: Seq<EntryView>,
    height: nat,
    low: Option<EntryView>,
    high: Option<EntryView>,
    m: int,
)
    requires
        shape::row(pages, capacity, kids, seps, height, low, high),
        0 <= m < seps.len(),
    ensures
        shape::row(
            pages,
            capacity,
            kids.take(m + 1),
            seps.take(m),
            height,
            low,
            Some(seps[m]),
        ),
        shape::row(
            pages,
            capacity,
            kids.skip(m + 1),
            seps.skip(m + 1),
            height,
            Some(seps[m]),
            high,
        ),
        forall|p: PageId| #[trigger]
            shape::inside_row(pages, kids, height, p) <==> (shape::inside_row(
                pages,
                kids.take(m + 1),
                height,
                p,
            ) || shape::inside_row(pages, kids.skip(m + 1), height, p)),
        forall|p: PageId| #[trigger]
            shape::inside_row(pages, kids.take(m + 1), height, p) ==> !shape::inside_row(
                pages,
                kids.skip(m + 1),
                height,
                p,
            ),
        forall|e: EntryView| #[trigger]
            shape::has_row(pages, kids, height, e) <==> (shape::has_row(
                pages,
                kids.take(m + 1),
                height,
                e,
            ) || shape::has_row(pages, kids.skip(m + 1), height, e)),
        shape::filled_row(pages, kids, height) == (shape::filled_row(
            pages,
            kids.take(m + 1),
            height,
        ) && shape::filled_row(pages, kids.skip(m + 1), height)),
        shape::next_of(pages, shape::last_leaf(pages, kids.take(m + 1).last(), height)) == Some(
            shape::first_leaf(pages, kids.skip(m + 1)[0], height),
        ),
        kids.take(m + 1)[0] == kids[0],
        kids.skip(m + 1).last() == kids.last(),
{
    let h = height;
    let lk = kids.take(m + 1);
    let ls = seps.take(m);
    let rk = kids.skip(m + 1);
    let rs = seps.skip(m + 1);
    parts::lemma_stretch(pages, capacity, kids, seps, h, low, high, 0, m + 1);
    parts::lemma_stretch(pages, capacity, kids, seps, h, low, high, m + 1, kids.len() as int);
    assert(kids.subrange(0, m + 1) =~= lk);
    assert(seps.subrange(0, m) =~= ls);
    assert(kids.subrange(m + 1, kids.len() as int) =~= rk);
    assert(seps.subrange(m + 1, kids.len() - 1) =~= rs);
    assert forall|p: PageId| #[trigger] shape::inside_row(pages, kids, h, p) <==> (
    shape::inside_row(pages, lk, h, p) || shape::inside_row(pages, rk, h, p)) by {
        if shape::inside_row(pages, lk, h, p) {
            let i = choose|i: int| 0 <= i < lk.len() && #[trigger] shape::inside(pages, lk[i], h, p);
            assert(shape::inside(pages, kids[i], h, p));
        }
        if shape::inside_row(pages, rk, h, p) {
            let i = choose|i: int| 0 <= i < rk.len() && #[trigger] shape::inside(pages, rk[i], h, p);
            assert(shape::inside(pages, kids[m + 1 + i], h, p));
        }
        if shape::inside_row(pages, kids, h, p) {
            let i = choose|i: int|
                0 <= i < kids.len() && #[trigger] shape::inside(pages, kids[i], h, p);
            if i <= m {
                assert(shape::inside(pages, lk[i], h, p));
            } else {
                assert(shape::inside(pages, rk[i - m - 1], h, p));
            }
        }
    }
    assert forall|p: PageId| #[trigger] shape::inside_row(pages, lk, h, p) implies !shape::inside_row(
        pages,
        rk,
        h,
        p,
    ) by {
        if shape::inside_row(pages, rk, h, p) {
            let i = choose|i: int| 0 <= i < lk.len() && #[trigger] shape::inside(pages, lk[i], h, p);
            let j = choose|j: int| 0 <= j < rk.len() && #[trigger] shape::inside(pages, rk[j], h, p);
            assert(lk[i] == kids[i] && rk[j] == kids[m + 1 + j]);
            assert(shape::apart(pages, kids[i], kids[m + 1 + j], h));
        }
    }
    assert forall|e: EntryView| #[trigger] shape::has_row(pages, kids, h, e) <==> (shape::has_row(
        pages,
        lk,
        h,
        e,
    ) || shape::has_row(pages, rk, h, e)) by {
        if shape::has_row(pages, kids, h, e) {
            let i = choose|i: int| 0 <= i < kids.len() && #[trigger] shape::has(pages, kids[i], h, e);
            if i <= m {
                assert(shape::has(pages, lk[i], h, e));
            } else {
                assert(shape::has(pages, rk[i - m - 1], h, e));
            }
        }
        if shape::has_row(pages, lk, h, e) {
            let i = choose|i: int| 0 <= i < lk.len() && #[trigger] shape::has(pages, lk[i], h, e);
            assert(shape::has(pages, kids[i], h, e));
        }
        if shape::has_row(pages, rk, h, e) {
            let i = choose|i: int| 0 <= i < rk.len() && #[trigger] shape::has(pages, rk[i], h, e);
            assert(shape::has(pages, kids[m + 1 + i], h, e));
        }
    }
    if shape::filled_row(pages, kids, h) {
        assert forall|i: int| 0 <= i < lk.len() implies #[trigger] shape::filled(pages, lk[i], h) by {
            assert(shape::filled(pages, kids[i], h));
        }
        assert forall|i: int| 0 <= i < rk.len() implies #[trigger] shape::filled(pages, rk[i], h) by {
            assert(shape::filled(pages, kids[m + 1 + i], h));
        }
    }
    if shape::filled_row(pages, lk, h) && shape::filled_row(pages, rk, h) {
        assert forall|i: int| 0 <= i < kids.len() implies #[trigger] shape::filled(
            pages,
            kids[i],
            h,
        ) by {
            if i <= m {
                assert(shape::filled(pages, lk[i], h));
            } else {
                assert(shape::filled(pages, rk[i - m - 1], h));
            }
        }
    }
    assert(lk.last() == kids[m] && rk[0] == kids[m + 1]);
    assert(shape::next_of(pages, shape::last_leaf(pages, kids[m], h)) == Some(
        shape::first_leaf(pages, kids[m + 1], h),
    ));
}

/// The row under a node was replaced and the new one is parted between the
/// node and a new page: the node is replaced by the two.
#[verifier::rlimit(40)]
pub proof fn lemma_rewrite_two(
    before: Seq<PageView>,
    mid: Seq<PageView>,
    after: Seq<PageView>,
    capacity: u32,
    page: PageId,
    height: nat,
    low: Option<EntryView>,
    high: Option<EntryView>,
    node: InternalView,
    kids: Seq<PageId>,
    seps: Seq<EntryView>,
    m: int,
    right: PageId,
)
    requires
        shape::branch(before, capacity, page, height, low, high),
        height > 1,
        before[page.0 as int] == PageView::Internal(node),
        rows::replaces(
            before,
            mid,
            capacity,
            node.kids,
            kids,
            seps,
            (height - 1) as nat,
            low,
            high,
        ),
        0 <= m < seps.len(),
        right.0 == mid.len(),
        after =~= mid.push(
            PageView::Internal(InternalView { kids: kids.skip(m + 1), seps: seps.skip(m + 1) }),
        ).update(
            page.0 as int,
            PageView::Internal(InternalView { kids: kids.take(m + 1), seps: seps.take(m) }),
        ),
        key::node_size(seps.take(m)) <= capacity,
        key::node_size(seps.skip(m + 1)) <= capacity,
    ensures
        rows::replaces(
            before,
            after,
            capacity,
            parts::alone(page),
            parts::pair(page, right),
            seq![seps[m]],
            height,
            low,
            high,
        ),
        forall|e: EntryView| #[trigger]
            shape::has_row(after, parts::pair(page, right), height, e) <==> shape::has_row(
                mid,
                kids,
                (height - 1) as nat,
                e,
            ),
        shape::filled_row(after, parts::pair(page, right), height) == shape::filled_row(
            mid,
            kids,
            (height - 1) as nat,
        ),
{
    let h = (height - 1) as nat;
    let fence = seps[m];
    let lk = kids.take(m + 1);
    let ls = seps.take(m);
    let rk = kids.skip(m + 1);
    let rs = seps.skip(m + 1);
    lemma_under(before, capacity, page, height, low, high, node);
    lemma_halves(mid, capacity, kids, seps, h, low, high, m);
    assert forall|p: PageId| #[trigger] shape::inside_row(mid, kids, h, p) implies p != page && p.0
        < mid.len() && after[p.0 as int] == mid[p.0 as int] by {
        lemma_row_nodes(mid, capacity, kids, seps, h, low, high, p);
        if p == page {
            assert(shape::inside_row(before, node.kids, h, page));
        }
    }
    assert(right != page);
    assert(h + 1 == height);
    assert(!shape::inside_row(mid, kids, h, page) && !shape::inside_row(mid, kids, h, right));
    assert forall|p: PageId| #[trigger] shape::inside_row(mid, lk, h, p) implies after[p.0 as int]
        == mid[p.0 as int] by {
        assert(shape::inside_row(mid, kids, h, p));
    }
    assert forall|p: PageId| #[trigger] shape::inside_row(mid, rk, h, p) implies after[p.0 as int]
        == mid[p.0 as int] by {
        assert(shape::inside_row(mid, kids, h, p));
    }
    parts::lemma_over_row(mid, after, capacity, page, lk, ls, h, low, Some(fence));
    parts::lemma_over_row(mid, after, capacity, right, rk, rs, h, Some(fence), high);
    assert(shape::between(seps[m], low, high));
    parts::lemma_pair(after, capacity, page, fence, right, height, low, high);
    parts::lemma_single(before, capacity, page, height, low, high);
    let one = parts::alone(page);
    let two = parts::pair(page, right);
    assert(one[0] == page && one.last() == page && two[0] == page && two.last() == right);
    assert forall|p: PageId| p.0 < before.len() && !#[trigger] shape::inside_row(
        before,
        one,
        height,
        p,
    ) implies after[p.0 as int] == before[p.0 as int] by {
        assert(!shape::inside(before, page, height, p));
        assert(!shape::inside_row(before, node.kids, h, p));
        assert(p != page);
    }
    assert forall|p: PageId| #[trigger] shape::inside_row(after, two, height, p) implies shape::inside_row(
        before,
        one,
        height,
        p,
    ) || p.0 >= before.len() by {
        if p != page && p != right {
            assert(shape::inside_row(mid, kids, h, p));
        }
        assert(shape::inside(before, page, height, p) || p.0 >= before.len());
    }
    assert forall|e: EntryView| #[trigger] shape::has_row(after, two, height, e) <==> shape::has_row(
        mid,
        kids,
        h,
        e,
    ) by {
        assert(shape::has(after, page, height, e) <==> shape::has_row(mid, lk, h, e));
        assert(shape::has(after, right, height, e) <==> shape::has_row(mid, rk, h, e));
    }
}

} // verus!
