//! When a removal leaves an inner node without separators.
use super::change;
use super::change::ChangeView;
use super::delete;
use super::delete::Sink;
use super::delete_laws;
use super::error::IndexError;
use super::find_laws;
use super::key;
use super::key::{EntryView, IndexSpec};
use super::node;
use super::node::InternalView;
use super::pages::{PageView, StepView};
use super::rewrite;
use super::shape;
use crate::ids::PageId;
use vstd::prelude::*;

verus! {

/// Whether a page is an inner node without separators.
pub open spec fn bare(page: PageView) -> bool {
    page matches PageView::Internal(node) && node.seps.len() == 0
}

/// Whether one of the changes writes an inner node without separators.
pub open spec fn writes_bare(changes: Seq<ChangeView>) -> bool {
    exists|i: int| 0 <= i < changes.len() && bare((#[trigger] changes[i]).after)
}

/// Every inner node under a node has a separator exactly where none of its
/// pages is bare.
pub proof fn lemma_forked_pages(
    pages: Seq<PageView>,
    capacity: u32,
    page: PageId,
    height: nat,
    low: Option<EntryView>,
    high: Option<EntryView>,
)
    requires
        shape::branch(pages, capacity, page, height, low, high),
    ensures
        shape::forked(pages, page, height) <==> forall|p: PageId| #[trigger]
            shape::inside(pages, page, height, p) ==> !bare(pages[p.0 as int]),
    decreases height,
{
    assert(shape::inside(pages, page, height, page));
    if height > 1 {
        let node = pages[page.0 as int]->Internal_0;
        let h = (height - 1) as nat;
        rewrite::lemma_under(pages, capacity, page, height, low, high, node);
        assert forall|i: int| 0 <= i < node.kids.len() implies (shape::forked(
            pages,
            #[trigger] node.kids[i],
            h,
        ) <==> forall|p: PageId| #[trigger]
            shape::inside(pages, node.kids[i], h, p) ==> !bare(pages[p.0 as int])) by {
            lemma_forked_pages(
                pages,
                capacity,
                node.kids[i],
                h,
                shape::kid_low(node.seps, low, i),
                shape::kid_high(node.seps, high, i),
            );
        }
        if shape::forked(pages, page, height) {
            assert forall|p: PageId| #[trigger] shape::inside(pages, page, height, p) implies !bare(
                pages[p.0 as int],
            ) by {
                if p != page {
                    assert(shape::inside_row(pages, node.kids, h, p));
                    let i = choose|i: int|
                        0 <= i < node.kids.len() && #[trigger] shape::inside(
                            pages,
                            node.kids[i],
                            h,
                            p,
                        );
                    assert(shape::forked(pages, node.kids[i], h));
                }
            }
        }
        if forall|p: PageId| #[trigger]
            shape::inside(pages, page, height, p) ==> !bare(pages[p.0 as int]) {
            assert forall|i: int| 0 <= i < node.kids.len() implies shape::forked(
                pages,
                #[trigger] node.kids[i],
                h,
            ) by {
                assert forall|p: PageId| #[trigger]
                    shape::inside(pages, node.kids[i], h, p) implies !bare(pages[p.0 as int]) by {
                    assert(shape::inside_row(pages, node.kids, h, p));
                    assert(shape::inside(pages, page, height, p));
                }
            }
        }
    }
}

/// A page after changes is as before, or one of them wrote it.
pub proof fn lemma_applied_page(pages: Seq<PageView>, changes: Seq<ChangeView>, p: int)
    requires
        forall|i: int|
            0 <= i < changes.len() ==> !(#[trigger] changes[i]).new && changes[i].page.0
                < pages.len(),
        0 <= p < pages.len(),
    ensures
        change::applied(pages, changes).len() == pages.len(),
        change::applied(pages, changes)[p] == pages[p] || exists|i: int|
            0 <= i < changes.len() && (#[trigger] changes[i]).after == change::applied(
                pages,
                changes,
            )[p],
    decreases changes.len(),
{
    if changes.len() > 0 {
        let less = changes.drop_last();
        let n = changes.len() - 1;
        assert(!changes[n].new);
        assert forall|i: int| 0 <= i < less.len() implies !(#[trigger] less[i]).new
            && less[i].page.0 < pages.len() by {
            assert(less[i] == changes[i]);
        }
        lemma_applied_page(pages, less, p);
        if changes[n].page.0 == p {
            assert(changes[n].after == change::applied(pages, changes)[p]);
        } else if change::applied(pages, less)[p] != pages[p] {
            let i = choose|i: int|
                0 <= i < less.len() && (#[trigger] less[i]).after == change::applied(
                    pages,
                    less,
                )[p];
            assert(changes[i] == less[i]);
        }
    }
}

/// A removal writes pages of the file alone, and each inner node without separators that it
/// wrote so far stays as it was written.
pub open spec fn bare_stays(pages: Seq<PageView>, page: PageId, height: nat, sink: Sink) -> bool {
    forall|i: int|
        0 <= i < sink.changes.len() ==> {
            let change = #[trigger] sink.changes[i];
            &&& !change.new
            &&& change.page.0 < pages.len()
            &&& bare(change.after) ==> {
                &&& change.page != page
                &&& shape::inside(pages, page, height, change.page)
                &&& !sink.retired.contains(change.page)
                &&& delete_laws::with_pending(pages, sink)[change.page.0 as int] == change.after
            }
        }
}

proof fn lemma_step_bare(
    pages: Seq<PageView>,
    capacity: u32,
    page: PageId,
    height: nat,
    low: Option<EntryView>,
    high: Option<EntryView>,
    e: EntryView,
    node: InternalView,
    below: Sink,
    above: Sink,
)
    requires
        shape::branch(pages, capacity, page, height, low, high),
        height > 1,
        pages[page.0 as int] == PageView::Internal(node),
        shape::within(e, low, high),
        delete_laws::sank(
            pages,
            capacity,
            node.kids[node::place_of(node.seps, e)],
            (height - 1) as nat,
            shape::kid_low(node.seps, low, node::place_of(node.seps, e)),
            shape::kid_high(node.seps, high, node::place_of(node.seps, e)),
            e,
            below,
        ),
        bare_stays(pages, node.kids[node::place_of(node.seps, e)], (height - 1) as nat, below),
        delete::step_sink(
            pages,
            (StepView { page, node, place: node::place_of(node.seps, e) }),
            below,
            capacity,
        ) == Ok::<Sink, IndexError>(above),
        delete_laws::sank(pages, capacity, page, height, low, high, e, above),
    ensures
        bare_stays(pages, page, height, above),
{
    let h = (height - 1) as nat;
    let place = node::place_of(node.seps, e);
    rewrite::lemma_under(pages, capacity, page, height, low, high, node);
    find_laws::lemma_place(node.seps, capacity, low, high, e);
    let kid = node.kids[place];
    let mid = delete_laws::with_pending(pages, below);
    let after = delete_laws::with_pending(pages, above);
    assert(shape::inside(pages, kid, h, kid));
    assert(shape::inside_row(pages, node.kids, h, kid));
    assert(shape::branch(
        pages,
        capacity,
        node.kids[place],
        h,
        shape::kid_low(node.seps, low, place),
        shape::kid_high(node.seps, high, place),
    ));
    assert forall|i: int| 0 <= i < below.changes.len() && bare(
        (#[trigger] below.changes[i]).after,
    ) implies ({
        let p = below.changes[i].page;
        &&& p != page
        &&& p != kid
        &&& shape::inside(pages, page, height, p)
        &&& shape::inside(pages, kid, h, p)
        &&& !below.retired.contains(p)
        &&& mid[p.0 as int] == below.changes[i].after
    }) by {
        let p = below.changes[i].page;
        assert(shape::inside(pages, node.kids[place], h, p));
        assert(shape::inside_row(pages, node.kids, h, p));
    }
    match below.pending {
        None => {},
        Some(current) => {
            let base = change::applied(pages, below.changes);
            let n = below.changes.len() as int;
            assert(mid == base.update(kid.0 as int, current.node));
            assert(base.len() == pages.len());
            let settled = delete::page_size(current.node) >= capacity / 2 || delete::merge_of(
                pages,
                node,
                place,
                current,
                capacity,
            ) == Ok::<Option<delete::Merged>, IndexError>(None);
            if settled {
                let last = change::rewritten(current.page, current.node);
                change::lemma_one_more(pages, pages.len(), below.changes, last);
                assert(after == mid);
                assert(!below.retired.contains(kid));
                assert forall|i: int| 0 <= i < above.changes.len() implies ({
                    let change = #[trigger] above.changes[i];
                    &&& !change.new
                    &&& change.page.0 < pages.len()
                    &&& bare(change.after) ==> {
                        &&& change.page != page
                        &&& shape::inside(pages, page, height, change.page)
                        &&& !above.retired.contains(change.page)
                        &&& after[change.page.0 as int] == change.after
                    }
                }) by {
                    if i < n {
                        assert(above.changes[i] == below.changes[i]);
                    }
                }
            } else {
                let merged = (delete::merge_of(pages, node, place, current, capacity)->Ok_0)->0;
                let k = delete::merge_place(node, place);
                let last = change::rewritten(merged.page, merged.node);
                change::lemma_one_more(pages, pages.len(), below.changes, last);
                let other = if k == place {
                    k + 1
                } else {
                    k
                };
                assert(!bare(merged.node));
                assert(0 <= other < node.kids.len() && other != place);
                assert(shape::inside(pages, node.kids[other], h, node.kids[other]));
                assert(shape::apart(pages, node.kids[place], node.kids[other], h));
                assert(shape::branch(
                    pages,
                    capacity,
                    node.kids[other],
                    h,
                    shape::kid_low(node.seps, low, other),
                    shape::kid_high(node.seps, high, other),
                ));
                assert(merged.page == node.kids[k]);
                let less = (above.pending->0).node;
                assert(after == base.update(merged.page.0 as int, merged.node).update(
                    page.0 as int,
                    less,
                ));
                assert forall|i: int| 0 <= i < above.changes.len() implies ({
                    let change = #[trigger] above.changes[i];
                    &&& !change.new
                    &&& change.page.0 < pages.len()
                    &&& bare(change.after) ==> {
                        &&& change.page != page
                        &&& shape::inside(pages, page, height, change.page)
                        &&& !above.retired.contains(change.page)
                        &&& after[change.page.0 as int] == change.after
                    }
                }) by {
                    if i < n {
                        assert(above.changes[i] == below.changes[i]);
                        if bare(below.changes[i].after) {
                            let p = below.changes[i].page;
                            assert(p != node.kids[other]);
                            assert(p != merged.page);
                            assert(after[p.0 as int] == base[p.0 as int]);
                            assert(mid[p.0 as int] == base[p.0 as int]);
                            let right = node.kids[k + 1];
                            assert(above.retired == below.retired.push(right));
                            delete_laws::lemma_pushed(below.retired, right, p);
                        }
                    }
                }
            }
        },
    }
}

/// What a removal under a node writes of inner nodes without separators stays.
pub proof fn lemma_bare_stays(
    pages: Seq<PageView>,
    capacity: u32,
    page: PageId,
    height: nat,
    low: Option<EntryView>,
    high: Option<EntryView>,
    spec: IndexSpec,
    e: EntryView,
)
    requires
        shape::branch(pages, capacity, page, height, low, high),
        shape::has(pages, page, height, e),
        key::entry_check(spec, e) is Ok,
        height > 1 ==> shape::filled(pages, page, height),
    ensures
        delete_laws::sink_under(pages, capacity, page, height, spec, e) matches Ok(sink)
            ==> bare_stays(pages, page, height, sink),
    decreases height,
{
    delete_laws::lemma_sank(pages, capacity, page, height, low, high, spec, e);
    find_laws::lemma_held_within(pages, capacity, page, height, low, high, e);
    if height > 1 {
        find_laws::lemma_read_internal(pages, capacity, page, height, low, high);
        let node = pages[page.0 as int]->Internal_0;
        let h = (height - 1) as nat;
        let place = node::place_of(node.seps, e);
        find_laws::lemma_has_under(pages, capacity, page, height, low, high, node, e);
        rewrite::lemma_under(pages, capacity, page, height, low, high, node);
        let kl = shape::kid_low(node.seps, low, place);
        let kh = shape::kid_high(node.seps, high, place);
        assert(shape::branch(pages, capacity, node.kids[place], h, kl, kh));
        assert(shape::filled(pages, node.kids[place], h));
        delete_laws::lemma_sank(pages, capacity, node.kids[place], h, kl, kh, spec, e);
        lemma_bare_stays(pages, capacity, node.kids[place], h, kl, kh, spec, e);
        delete_laws::lemma_sink_step(pages, capacity, page, height, spec, e, node);
        if let Ok(above) = delete_laws::sink_under(pages, capacity, page, height, spec, e) {
            let below = delete_laws::sink_under(
                pages,
                capacity,
                node.kids[place],
                h,
                spec,
                e,
            )->Ok_0;
            lemma_step_bare(
                pages,
                capacity,
                page,
                height,
                low,
                high,
                e,
                node,
                below,
                above,
            );
        }
    }
}

} // verus!
