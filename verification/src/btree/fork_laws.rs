//! An insertion leaves a separator in every inner node.
use super::change;
use super::find_laws;
use super::insert;
use super::insert::Rise;
use super::insert_laws;
use super::internal;
use super::key;
use super::key::{EntryView, IndexSpec};
use super::node;
use super::node::InternalView;
use super::pages::{PageView, StepView};
use super::parts;
use super::rewrite;
use super::rows;
use super::rows::Splice;
use super::shape;
use super::tree;
use crate::ids::PageId;
use vstd::prelude::*;

verus! {

/// Whether the inner nodes have separators depends on the pages of a part
/// alone.
proof fn lemma_alike(
    before: Seq<PageView>,
    after: Seq<PageView>,
    capacity: u32,
    page: PageId,
    height: nat,
    low: Option<EntryView>,
    high: Option<EntryView>,
)
    requires
        shape::branch(before, capacity, page, height, low, high),
        shape::alike(before, after, page, height),
        shape::forked(before, page, height),
    ensures
        shape::forked(after, page, height),
    decreases height,
{
    assert(shape::inside(before, page, height, page));
    if height > 1 {
        let node = before[page.0 as int]->Internal_0;
        let h = (height - 1) as nat;
        assert(shape::row(before, capacity, node.kids, node.seps, h, low, high));
        assert forall|i: int| 0 <= i < node.kids.len() implies shape::forked(
            after,
            #[trigger] node.kids[i],
            h,
        ) by {
            assert forall|p: PageId| #[trigger]
                shape::inside(before, node.kids[i], h, p) && p.0 < before.len() implies after[p.0 as int]
                == before[p.0 as int] by {
                assert(shape::inside(before, page, height, p));
            }
            lemma_alike(
                before,
                after,
                capacity,
                node.kids[i],
                h,
                shape::kid_low(node.seps, low, i),
                shape::kid_high(node.seps, high, i),
            );
        }
    }
}

/// A row some of whose nodes are replaced.
proof fn lemma_splice_forked(s: Splice)
    requires
        s.ok(),
        shape::forked_row(s.after, s.put_kids, s.height),
        shape::forked_row(s.before, s.kids, s.height),
    ensures
        shape::forked_row(s.after, s.all_kids(), s.height),
{
    let all = s.all_kids();
    assert forall|t: int| 0 <= t < all.len() implies #[trigger] shape::forked(
        s.after,
        all[t],
        s.height,
    ) by {
        if s.is_put(t) {
            assert(all[t] == s.put_kids[t - s.start]);
            assert(shape::forked(s.after, s.put_kids[t - s.start], s.height));
        } else {
            let i = s.origin(t);
            assert(s.stays(i) && all[t] == s.kids[i]);
            rows::lemma_untouched(s, i);
            assert(shape::forked(s.before, s.kids[i], s.height));
            lemma_alike(
                s.before,
                s.after,
                s.capacity,
                s.kids[i],
                s.height,
                shape::kid_low(s.seps, s.low, i),
                shape::kid_high(s.seps, s.high, i),
            );
        }
    }
}

/// A node with a separator over a row.
pub proof fn lemma_over_row(
    before: Seq<PageView>,
    after: Seq<PageView>,
    capacity: u32,
    page: PageId,
    kids: Seq<PageId>,
    seps: Seq<EntryView>,
    height: nat,
    low: Option<EntryView>,
    high: Option<EntryView>,
)
    requires
        height >= 1,
        shape::row(before, capacity, kids, seps, height, low, high),
        before.len() <= after.len(),
        forall|p: PageId| #[trigger]
            shape::inside_row(before, kids, height, p) ==> after[p.0 as int] == before[p.0 as int],
        after[page.0 as int] == PageView::Internal(InternalView { kids, seps }),
        seps.len() > 0,
        shape::forked_row(before, kids, height),
    ensures
        shape::forked(after, page, height + 1),
{
    assert((height + 1 - 1) as nat == height);
    assert forall|i: int| 0 <= i < kids.len() implies shape::forked(
        after,
        #[trigger] kids[i],
        height,
    ) by {
        assert forall|p: PageId| #[trigger]
            shape::inside(before, kids[i], height, p) && p.0 < before.len() implies after[p.0 as int]
            == before[p.0 as int] by {
            assert(shape::inside_row(before, kids, height, p));
        }
        assert(shape::forked(before, kids[i], height));
        lemma_alike(
            before,
            after,
            capacity,
            kids[i],
            height,
            shape::kid_low(seps, low, i),
            shape::kid_high(seps, high, i),
        );
    }
}

/// A part of a row.
proof fn lemma_part(
    pages: Seq<PageView>,
    kids: Seq<PageId>,
    height: nat,
    from: int,
    to: int,
)
    requires
        shape::forked_row(pages, kids, height),
        0 <= from <= to <= kids.len(),
    ensures
        shape::forked_row(pages, kids.subrange(from, to), height),
        forall|p: PageId| #[trigger]
            shape::inside_row(pages, kids.subrange(from, to), height, p) ==> shape::inside_row(
                pages,
                kids,
                height,
                p,
            ),
{
    let part = kids.subrange(from, to);
    assert forall|i: int| 0 <= i < part.len() implies #[trigger] shape::forked(
        pages,
        part[i],
        height,
    ) by {
        assert(shape::forked(pages, kids[from + i], height));
    }
    assert forall|p: PageId| #[trigger] shape::inside_row(pages, part, height, p) implies shape::inside_row(
        pages,
        kids,
        height,
        p,
    ) by {
        let i = choose|i: int| 0 <= i < part.len() && #[trigger] shape::inside(
            pages,
            part[i],
            height,
            p,
        );
        assert(shape::inside(pages, kids[from + i], height, p));
    }
}

/// An overfull node that was parted.
proof fn lemma_parted(
    mid: Seq<PageView>,
    after: Seq<PageView>,
    capacity: u32,
    page: PageId,
    kids: Seq<PageId>,
    seps: Seq<EntryView>,
    height: nat,
    low: Option<EntryView>,
    high: Option<EntryView>,
    m: int,
    right: PageId,
)
    requires
        height >= 1,
        shape::row(mid, capacity, kids, seps, height, low, high),
        shape::forked_row(mid, kids, height),
        1 <= m < seps.len() - 1,
        right.0 == mid.len(),
        page.0 < mid.len(),
        !shape::inside_row(mid, kids, height, page),
        after =~= mid.push(
            PageView::Internal(InternalView { kids: kids.skip(m + 1), seps: seps.skip(m + 1) }),
        ).update(
            page.0 as int,
            PageView::Internal(InternalView { kids: kids.take(m + 1), seps: seps.take(m) }),
        ),
    ensures
        shape::forked_row(after, parts::pair(page, right), height + 1),
{
    let n = kids.len() as int;
    let lk = kids.take(m + 1);
    let rk = kids.skip(m + 1);
    let ls = seps.take(m);
    let rs = seps.skip(m + 1);
    assert(kids.subrange(0, m + 1) =~= lk);
    assert(kids.subrange(m + 1, n) =~= rk);
    lemma_part(mid, kids, height, 0, m + 1);
    lemma_part(mid, kids, height, m + 1, n);
    parts::lemma_stretch(mid, capacity, kids, seps, height, low, high, 0, m + 1);
    parts::lemma_stretch(mid, capacity, kids, seps, height, low, high, m + 1, n);
    assert(seps.subrange(0, m) =~= ls);
    assert(seps.subrange(m + 1, n - 1) =~= rs);
    assert forall|p: PageId| #[trigger] shape::inside_row(mid, kids, height, p) implies after[p.0 as int]
        == mid[p.0 as int] by {
        rewrite::lemma_row_nodes(mid, capacity, kids, seps, height, low, high, p);
    }
    assert forall|p: PageId| #[trigger] shape::inside_row(mid, lk, height, p) implies after[p.0 as int]
        == mid[p.0 as int] by {
        assert(shape::inside_row(mid, kids, height, p));
    }
    assert forall|p: PageId| #[trigger] shape::inside_row(mid, rk, height, p) implies after[p.0 as int]
        == mid[p.0 as int] by {
        assert(shape::inside_row(mid, kids, height, p));
    }
    lemma_over_row(
        mid,
        after,
        capacity,
        page,
        lk,
        ls,
        height,
        shape::kid_low(seps, low, 0),
        shape::kid_high(seps, high, m),
    );
    lemma_over_row(
        mid,
        after,
        capacity,
        right,
        rk,
        rs,
        height,
        shape::kid_low(seps, low, m + 1),
        shape::kid_high(seps, high, n - 1),
    );
    let two = parts::pair(page, right);
    assert(two[0] == page && two[1] == right);
}

/// What an inner node with separators makes of an insertion under a child.
#[verifier::rlimit(30)]
proof fn lemma_step_forked(
    pages: Seq<PageView>,
    capacity: u32,
    page: PageId,
    height: nat,
    low: Option<EntryView>,
    high: Option<EntryView>,
    e: EntryView,
    node: InternalView,
    below: Rise,
)
    requires
        shape::branch(pages, capacity, page, height, low, high),
        height > 1,
        pages[page.0 as int] == PageView::Internal(node),
        shape::within(e, low, high),
        !shape::has(pages, page, height, e),
        pages.len() + height < u64::MAX,
        shape::forked(pages, page, height),
        insert_laws::rose(
            pages,
            capacity,
            node.kids[node::place_of(node.seps, e)],
            (height - 1) as nat,
            shape::kid_low(node.seps, low, node::place_of(node.seps, e)),
            shape::kid_high(node.seps, high, node::place_of(node.seps, e)),
            e,
            below,
        ),
        shape::forked_row(
            change::applied(pages, below.changes),
            insert_laws::top_kids(node.kids[node::place_of(node.seps, e)], below),
            (height - 1) as nat,
        ),
        insert::step_rise(
            (StepView { page, node, place: node::place_of(node.seps, e) }),
            below,
            capacity,
        ) is Ok,
    ensures
        ({
            let step = StepView { page, node, place: node::place_of(node.seps, e) };
            let above = insert::step_rise(step, below, capacity)->Ok_0;
            shape::forked_row(
                change::applied(pages, above.changes),
                insert_laws::top_kids(page, above),
                height,
            )
        }),
{
    let h = (height - 1) as nat;
    let place = node::place_of(node.seps, e);
    let step = StepView { page, node, place };
    let s = insert_laws::lemma_row_rose(pages, capacity, page, height, low, high, e, node, below);
    let mid = s.after;
    rewrite::lemma_under(pages, capacity, page, height, low, high, node);
    assert forall|i: int| 0 <= i < node.kids.len() implies #[trigger] shape::forked(
        pages,
        node.kids[i],
        h,
    ) by {}
    lemma_splice_forked(s);
    assert(!shape::inside_row(mid, s.all_kids(), h, page)) by {
        if shape::inside_row(mid, s.all_kids(), h, page) {
            assert(shape::inside_row(pages, node.kids, h, page));
        }
    }
    let one = parts::alone(page);
    assert(one[0] == page);
    assert(h + 1 == height);
    match below.up {
        None => {
            assert(mid[page.0 as int] == pages[page.0 as int]);
            assert(node == (InternalView { kids: node.kids, seps: node.seps }));
            lemma_over_row(mid, mid, capacity, page, node.kids, node.seps, h, low, high);
        },
        Some(promoted) => {
            let taken = internal::internal_with(node, place, promoted.fence, promoted.right);
            tree::lemma_step_rise_placed(pages.len(), step, below, capacity);
            let above = insert::step_rise(step, below, capacity)->Ok_0;
            let after = change::applied(pages, above.changes);
            assert(taken == (InternalView { kids: taken.kids, seps: taken.seps }));
            if key::node_size(taken.seps) <= capacity {
                let last = change::rewritten(page, PageView::Internal(taken));
                change::lemma_one_more(pages, pages.len(), below.changes, last);
                assert forall|p: PageId| #[trigger] shape::inside_row(mid, taken.kids, h, p) implies after[p.0 as int]
                    == mid[p.0 as int] by {
                    rewrite::lemma_row_nodes(
                        mid,
                        capacity,
                        taken.kids,
                        taken.seps,
                        h,
                        low,
                        high,
                        p,
                    );
                    assert(p != page);
                }
                lemma_over_row(mid, after, capacity, page, taken.kids, taken.seps, h, low, high);
            } else {
                let m = node::fence_place(taken.seps);
                let right = insert::page_at(below.next);
                node::lemma_cut(taken.seps, 1);
                let n = below.changes.len() as int;
                let first = below.changes.push(above.changes[n]);
                change::lemma_one_more(pages, pages.len(), below.changes, above.changes[n]);
                change::lemma_one_more(pages, pages.len(), first, above.changes[n + 1]);
                assert(first.push(above.changes[n + 1]) =~= above.changes);
                lemma_parted(
                    mid,
                    after,
                    capacity,
                    page,
                    taken.kids,
                    taken.seps,
                    h,
                    low,
                    high,
                    m,
                    right,
                );
            }
        },
    }
}

/// An insertion under a node whose inner nodes have separators.
pub proof fn lemma_rose_forked(
    pages: Seq<PageView>,
    capacity: u32,
    page: PageId,
    height: nat,
    low: Option<EntryView>,
    high: Option<EntryView>,
    spec: IndexSpec,
    e: EntryView,
)
    requires
        shape::branch(pages, capacity, page, height, low, high),
        shape::within(e, low, high),
        key::fit_check(spec, e, capacity) is Ok,
        !shape::has(pages, page, height, e),
        pages.len() + height < u64::MAX,
        shape::forked(pages, page, height),
    ensures
        ({
            let rise = insert_laws::rise_under(pages, capacity, page, height, spec, e)->Ok_0;
            shape::forked_row(
                change::applied(pages, rise.changes),
                insert_laws::top_kids(page, rise),
                height,
            )
        }),
    decreases height,
{
    insert_laws::lemma_rose(pages, capacity, page, height, low, high, spec, e);
    let rise = insert_laws::rise_under(pages, capacity, page, height, spec, e)->Ok_0;
    if height == 1 {
        let after = change::applied(pages, rise.changes);
        let kids = insert_laws::top_kids(page, rise);
        assert forall|i: int| 0 <= i < kids.len() implies #[trigger] shape::forked(
            after,
            kids[i],
            1,
        ) by {
            assert(shape::branch(
                after,
                capacity,
                kids[i],
                1,
                shape::kid_low(insert_laws::top_seps(rise), low, i),
                shape::kid_high(insert_laws::top_seps(rise), high, i),
            ));
        }
    } else {
        find_laws::lemma_read_internal(pages, capacity, page, height, low, high);
        let node = pages[page.0 as int]->Internal_0;
        let h = (height - 1) as nat;
        let place = node::place_of(node.seps, e);
        find_laws::lemma_has_under(pages, capacity, page, height, low, high, node, e);
        assert(shape::row(pages, capacity, node.kids, node.seps, h, low, high));
        find_laws::lemma_place(node.seps, capacity, low, high, e);
        let kl = shape::kid_low(node.seps, low, place);
        let kh = shape::kid_high(node.seps, high, place);
        assert(shape::branch(pages, capacity, node.kids[place], h, kl, kh));
        insert_laws::lemma_rose(pages, capacity, node.kids[place], h, kl, kh, spec, e);
        lemma_rose_forked(pages, capacity, node.kids[place], h, kl, kh, spec, e);
        insert_laws::lemma_rise_step(pages, capacity, page, height, spec, e, node);
        let below = insert_laws::rise_under(
            pages,
            capacity,
            node.kids[place],
            h,
            spec,
            e,
        )->Ok_0;
        lemma_step_forked(pages, capacity, page, height, low, high, e, node, below);
    }
}

} // verus!
