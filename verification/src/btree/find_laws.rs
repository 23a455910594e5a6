//! Where the entries of a sound tree are found.
use super::error::IndexError;
use super::key;
use super::key::EntryView;
use super::node;
use super::node::InternalView;
use super::pages;
use super::pages::PageView;
use super::rewrite;
use super::shape;
use crate::ids::PageId;
use vstd::prelude::*;

verus! {

/// Every entry under a sound node lies between its bounds.
pub proof fn lemma_held_within(
    pages: Seq<PageView>,
    capacity: u32,
    page: PageId,
    height: nat,
    low: Option<EntryView>,
    high: Option<EntryView>,
    e: EntryView,
)
    requires
        shape::branch(pages, capacity, page, height, low, high),
        shape::has(pages, page, height, e),
    ensures
        shape::within(e, low, high),
        key::is_light(e, capacity),
    decreases height,
{
    if height > 1 {
        let node = pages[page.0 as int]->Internal_0;
        let h = (height - 1) as nat;
        rewrite::lemma_under(pages, capacity, page, height, low, high, node);
        let i = choose|i: int|
            0 <= i < node.kids.len() && #[trigger] shape::has(pages, node.kids[i], h, e);
        let kl = shape::kid_low(node.seps, low, i);
        let kh = shape::kid_high(node.seps, high, i);
        lemma_held_within(pages, capacity, node.kids[i], h, kl, kh, e);
        if i > 0 && low is Some {
            assert(shape::between(node.seps[i - 1], low, high));
            if key::before(e, low->0) {
                key::law_entry_order_is_transitive(e, low->0, node.seps[i - 1]);
            }
        }
        if i < node.seps.len() && high is Some {
            assert(shape::between(node.seps[i], low, high));
            key::law_entry_order_is_transitive(e, node.seps[i], high->0);
        }
    } else {
        let leaf = pages[page.0 as int]->Leaf_0;
        let i = choose|i: int| 0 <= i < leaf.entries.len() && leaf.entries[i] == e;
        assert(shape::within(leaf.entries[i], low, high));
        assert(key::is_light(leaf.entries[i], capacity));
    }
}

/// The child that an entry belongs to is the one whose bounds it lies
/// between.
pub proof fn lemma_place(
    seps: Seq<EntryView>,
    capacity: u32,
    low: Option<EntryView>,
    high: Option<EntryView>,
    e: EntryView,
)
    requires
        shape::sound_seps(seps, capacity, low, high),
        shape::within(e, low, high),
    ensures
        ({
            let place = node::place_of(seps, e);
            &&& 0 <= place <= seps.len()
            &&& shape::within(e, shape::kid_low(seps, low, place), shape::kid_high(seps, high, place))
            &&& forall|i: int|
                0 <= i <= seps.len() && #[trigger] shape::within(
                    e,
                    shape::kid_low(seps, low, i),
                    shape::kid_high(seps, high, i),
                ) ==> i == place
        }),
{
    let place = node::place_of(seps, e);
    node::lemma_place_from(seps, e, 0);
    assert forall|i: int|
        0 <= i <= seps.len() && #[trigger] shape::within(
            e,
            shape::kid_low(seps, low, i),
            shape::kid_high(seps, high, i),
        ) implies i == place by {
        if i < place {
            assert(!key::before(e, seps[i]));
        } else if i > place {
            assert(key::before(e, seps[place]));
            if i - 1 > place {
                assert(key::before(seps[place], seps[i - 1]));
                key::law_entry_order_is_transitive(e, seps[place], seps[i - 1]);
            }
        }
    }
}

/// An entry that a sound inner node holds is under the child that it belongs
/// to.
pub proof fn lemma_has_under(
    pages: Seq<PageView>,
    capacity: u32,
    page: PageId,
    height: nat,
    low: Option<EntryView>,
    high: Option<EntryView>,
    node: InternalView,
    e: EntryView,
)
    requires
        shape::branch(pages, capacity, page, height, low, high),
        height > 1,
        pages[page.0 as int] == PageView::Internal(node),
        shape::within(e, low, high),
    ensures
        shape::has(pages, page, height, e) <==> shape::has(
            pages,
            node.kids[node::place_of(node.seps, e)],
            (height - 1) as nat,
            e,
        ),
        0 <= node::place_of(node.seps, e) < node.kids.len(),
{
    let h = (height - 1) as nat;
    let place = node::place_of(node.seps, e);
    rewrite::lemma_under(pages, capacity, page, height, low, high, node);
    lemma_place(node.seps, capacity, low, high, e);
    if shape::has(pages, page, height, e) {
        let i = choose|i: int|
            0 <= i < node.kids.len() && #[trigger] shape::has(pages, node.kids[i], h, e);
        lemma_held_within(
            pages,
            capacity,
            node.kids[i],
            h,
            shape::kid_low(node.seps, low, i),
            shape::kid_high(node.seps, high, i),
            e,
        );
        assert(i == place);
    }
    if shape::has(pages, node.kids[place], h, e) {
        assert(shape::has_row(pages, node.kids, h, e));
    }
}

/// An inner node of a sound tree can be read.
pub proof fn lemma_read_internal(
    pages: Seq<PageView>,
    capacity: u32,
    page: PageId,
    height: nat,
    low: Option<EntryView>,
    high: Option<EntryView>,
)
    requires
        shape::branch(pages, capacity, page, height, low, high),
        height > 1,
    ensures
        pages[page.0 as int] is Internal,
        pages::internal_read(pages, page) == Ok::<InternalView, IndexError>(
            pages[page.0 as int]->Internal_0,
        ),
{
    let node = pages[page.0 as int]->Internal_0;
    let h = (height - 1) as nat;
    assert(shape::row(pages, capacity, node.kids, node.seps, h, low, high));
    assert forall|j: int| 0 <= j < node.kids.len() implies pages::is_child(
        pages,
        #[trigger] node.kids[j],
    ) by {
        assert(shape::branch(
            pages,
            capacity,
            node.kids[j],
            h,
            shape::kid_low(node.seps, low, j),
            shape::kid_high(node.seps, high, j),
        ));
    }
    pages::lemma_no_stray_child(pages, node.kids, 0);
}

/// Whether an ascending leaf holds an entry is seen at its place.
pub proof fn lemma_leaf_holds(entries: Seq<EntryView>, e: EntryView)
    requires
        shape::ascending(entries),
    ensures
        ({
            let place = node::rank_of(entries, e);
            &&& 0 <= place <= entries.len()
            &&& (place < entries.len() && entries[place] == e) == entries.contains(e)
            &&& forall|i: int| 0 <= i < place ==> key::before(#[trigger] entries[i], e)
            &&& forall|i: int|
                place <= i < entries.len() && entries[i] != e ==> key::before(
                    e,
                    #[trigger] entries[i],
                )
        }),
{
    let place = node::rank_of(entries, e);
    node::lemma_rank_from(entries, e, 0);
    assert forall|i: int| place <= i < entries.len() && entries[i] != e implies key::before(
        e,
        #[trigger] entries[i],
    ) by {
        key::lemma_entry_order(entries[place], e);
        if i > place {
            assert(key::before(entries[place], entries[i]));
            if entries[place] != e {
                key::law_entry_order_is_transitive(e, entries[place], entries[i]);
            }
        }
    }
    if entries.contains(e) {
        let i = choose|i: int| 0 <= i < entries.len() && entries[i] == e;
        key::lemma_entry_order(e, e);
        if i < place {
            assert(key::before(entries[i], e));
        } else if i > place {
            assert(key::before(entries[place], entries[i]));
        }
    }
}

/// The way to an entry of a sound tree ends at a leaf that holds the entry
/// exactly where the tree does.
pub proof fn lemma_descent(
    pages: Seq<PageView>,
    capacity: u32,
    page: PageId,
    height: nat,
    low: Option<EntryView>,
    high: Option<EntryView>,
    e: EntryView,
)
    requires
        shape::branch(pages, capacity, page, height, low, high),
        shape::within(e, low, high),
    ensures
        pages::descent(pages, page, height, e) is Ok,
        ({
            let way = pages::descent(pages, page, height, e)->Ok_0;
            &&& node::leaf_holds(way.leaf, e) == shape::has(pages, page, height, e)
            &&& height == 1 ==> way.page == page && way.path == Seq::<pages::StepView>::empty()
                && pages[page.0 as int] == PageView::Leaf(way.leaf)
        }),
    decreases height,
{
    if height > 1 {
        lemma_read_internal(pages, capacity, page, height, low, high);
        let node = pages[page.0 as int]->Internal_0;
        let h = (height - 1) as nat;
        lemma_has_under(pages, capacity, page, height, low, high, node, e);
        lemma_place(node.seps, capacity, low, high, e);
        let place = node::place_of(node.seps, e);
        assert(shape::row(pages, capacity, node.kids, node.seps, h, low, high));
        lemma_descent(
            pages,
            capacity,
            node.kids[place],
            h,
            shape::kid_low(node.seps, low, place),
            shape::kid_high(node.seps, high, place),
            e,
        );
    } else {
        let leaf = pages[page.0 as int]->Leaf_0;
        lemma_leaf_holds(leaf.entries, e);
    }
}

} // verus!
