//! What a lookup finds in a sound tree.
use super::error::IndexError;
use super::find_laws;
use super::internal;
use super::key;
use super::key::EntryView;
use super::laws;
use super::lookup;
use super::lookup::Previous;
use super::node::{InternalView, LeafView};
use super::pages;
use super::pages::{BTreeHandle, PageView};
use super::rewrite;
use super::rows;
use super::shape;
use crate::ids::{PageId, RowId};
use crate::value;
use crate::value::{Ordered, ScalarView};
use vstd::prelude::*;

verus! {

/// The entries of a leaf.
pub open spec fn entries_of(pages: Seq<PageView>, leaf: PageId) -> Seq<EntryView> {
    (pages[leaf.0 as int]->Leaf_0).entries
}

/// Whether an entry comes behind every entry of a leaf.
pub open spec fn later(pages: Seq<PageView>, leaf: PageId, e: EntryView) -> bool {
    forall|i: int|
        0 <= i < entries_of(pages, leaf).len() ==> key::before(
            #[trigger] entries_of(pages, leaf)[i],
            e,
        )
}

/// Whether an entry comes before every entry of a leaf.
pub open spec fn earlier(pages: Seq<PageView>, leaf: PageId, e: EntryView) -> bool {
    forall|i: int|
        0 <= i < entries_of(pages, leaf).len() ==> key::before(
            e,
            #[trigger] entries_of(pages, leaf)[i],
        )
}

/// Whether a page is a leaf under a node.
pub open spec fn is_leaf_of(
    pages: Seq<PageView>,
    page: PageId,
    height: nat,
    leaf: PageId,
) -> bool {
    shape::inside(pages, page, height, leaf) && pages[leaf.0 as int] is Leaf
}

/// What the leaves under a node hold, the node holds.
proof fn lemma_leaf_entry(
    pages: Seq<PageView>,
    capacity: u32,
    page: PageId,
    height: nat,
    low: Option<EntryView>,
    high: Option<EntryView>,
    leaf: PageId,
    i: int,
)
    requires
        shape::branch(pages, capacity, page, height, low, high),
        is_leaf_of(pages, page, height, leaf),
        0 <= i < entries_of(pages, leaf).len(),
    ensures
        shape::has(pages, page, height, entries_of(pages, leaf)[i]),
        shape::within(entries_of(pages, leaf)[i], low, high),
    decreases height,
{
    let e = entries_of(pages, leaf)[i];
    if height == 1 {
        assert(entries_of(pages, leaf).contains(e));
    } else {
        let node = pages[page.0 as int]->Internal_0;
        let h = (height - 1) as nat;
        rewrite::lemma_under(pages, capacity, page, height, low, high, node);
        let k = choose|k: int|
            0 <= k < node.kids.len() && #[trigger] shape::inside(pages, node.kids[k], h, leaf);
        lemma_leaf_entry(
            pages,
            capacity,
            node.kids[k],
            h,
            shape::kid_low(node.seps, low, k),
            shape::kid_high(node.seps, high, k),
            leaf,
            i,
        );
        assert(shape::has_row(pages, node.kids, h, e));
    }
    find_laws::lemma_held_within(pages, capacity, page, height, low, high, e);
}

/// Entries of an earlier child come before those of a later one.
proof fn lemma_children_ascend(
    pages: Seq<PageView>,
    capacity: u32,
    kids: Seq<PageId>,
    seps: Seq<EntryView>,
    height: nat,
    low: Option<EntryView>,
    high: Option<EntryView>,
    i: int,
    j: int,
    x: EntryView,
    y: EntryView,
)
    requires
        shape::row(pages, capacity, kids, seps, height, low, high),
        0 <= i < j < kids.len(),
        shape::has(pages, kids[i], height, x),
        shape::has(pages, kids[j], height, y),
    ensures
        key::before(x, y),
{
    find_laws::lemma_held_within(
        pages,
        capacity,
        kids[i],
        height,
        shape::kid_low(seps, low, i),
        shape::kid_high(seps, high, i),
        x,
    );
    find_laws::lemma_held_within(
        pages,
        capacity,
        kids[j],
        height,
        shape::kid_low(seps, low, j),
        shape::kid_high(seps, high, j),
        y,
    );
    assert(key::before(x, seps[i]));
    if i < j - 1 {
        assert(key::before(seps[i], seps[j - 1]));
        key::law_entry_order_is_transitive(x, seps[i], seps[j - 1]);
    }
    key::lemma_entry_order(y, seps[j - 1]);
    if y != seps[j - 1] {
        key::law_entry_order_is_transitive(x, seps[j - 1], y);
    }
}

/// A row holds what its children hold.
proof fn lemma_child_has(
    pages: Seq<PageView>,
    kids: Seq<PageId>,
    height: nat,
    e: EntryView,
) -> (i: int)
    requires
        shape::has_row(pages, kids, height, e),
    ensures
        0 <= i < kids.len(),
        shape::has(pages, kids[i], height, e),
{
    choose|i: int| 0 <= i < kids.len() && #[trigger] shape::has(pages, kids[i], height, e)
}

/// The first leaf under a node: everything under the node is in it or behind
/// it.
proof fn lemma_first_leaf(
    pages: Seq<PageView>,
    capacity: u32,
    page: PageId,
    height: nat,
    low: Option<EntryView>,
    high: Option<EntryView>,
)
    requires
        shape::branch(pages, capacity, page, height, low, high),
    ensures
        is_leaf_of(pages, page, height, shape::first_leaf(pages, page, height)),
        forall|x: EntryView| #[trigger]
            shape::has(pages, page, height, x) ==> entries_of(
                pages,
                shape::first_leaf(pages, page, height),
            ).contains(x) || later(pages, shape::first_leaf(pages, page, height), x),
    decreases height,
{
    if height > 1 {
        let node = pages[page.0 as int]->Internal_0;
        let h = (height - 1) as nat;
        rewrite::lemma_under(pages, capacity, page, height, low, high, node);
        let kl = shape::kid_low(node.seps, low, 0);
        let kh = shape::kid_high(node.seps, high, 0);
        assert(shape::branch(pages, capacity, node.kids[0], h, kl, kh));
        lemma_first_leaf(pages, capacity, node.kids[0], h, kl, kh);
        let first = shape::first_leaf(pages, page, height);
        assert(shape::inside_row(pages, node.kids, h, first));
        assert forall|x: EntryView| #[trigger] shape::has(pages, page, height, x) implies entries_of(
            pages,
            first,
        ).contains(x) || later(pages, first, x) by {
            let j = lemma_child_has(pages, node.kids, h, x);
            if j > 0 {
                assert forall|i: int| 0 <= i < entries_of(pages, first).len() implies key::before(
                    #[trigger] entries_of(pages, first)[i],
                    x,
                ) by {
                    lemma_leaf_entry(pages, capacity, node.kids[0], h, kl, kh, first, i);
                    lemma_children_ascend(
                        pages,
                        capacity,
                        node.kids,
                        node.seps,
                        h,
                        low,
                        high,
                        0,
                        j,
                        entries_of(pages, first)[i],
                        x,
                    );
                }
            }
        }
    }
}

/// Everything under a node is in a leaf or before it.
pub open spec fn nothing_later(
    pages: Seq<PageView>,
    page: PageId,
    height: nat,
    leaf: PageId,
) -> bool {
    forall|x: EntryView| #[trigger]
        shape::has(pages, page, height, x) ==> entries_of(pages, leaf).contains(x) || earlier(
            pages,
            leaf,
            x,
        )
}

/// A leaf is followed by another under the same node, with nothing between
/// them.
pub open spec fn followed(
    pages: Seq<PageView>,
    page: PageId,
    height: nat,
    leaf: PageId,
    next: PageId,
) -> bool {
    &&& shape::next_of(pages, leaf) == Some(next)
    &&& is_leaf_of(pages, page, height, next)
    &&& forall|i: int|
        0 <= i < entries_of(pages, leaf).len() ==> earlier(
            pages,
            next,
            #[trigger] entries_of(pages, leaf)[i],
        )
    &&& forall|x: EntryView| #[trigger]
        shape::has(pages, page, height, x) ==> entries_of(pages, leaf).contains(x) || earlier(
            pages,
            leaf,
            x,
        ) || entries_of(pages, next).contains(x) || later(pages, next, x)
}

/// A leaf under a node is the last, or it is followed by another.
proof fn lemma_successor(
    pages: Seq<PageView>,
    capacity: u32,
    page: PageId,
    height: nat,
    low: Option<EntryView>,
    high: Option<EntryView>,
    leaf: PageId,
)
    requires
        shape::branch(pages, capacity, page, height, low, high),
        is_leaf_of(pages, page, height, leaf),
    ensures
        (leaf == shape::last_leaf(pages, page, height) && nothing_later(
            pages,
            page,
            height,
            leaf,
        )) || (shape::next_of(pages, leaf) is Some && followed(
            pages,
            page,
            height,
            leaf,
            shape::next_of(pages, leaf)->0,
        )),
    decreases height,
{
    if height > 1 {
        let node = pages[page.0 as int]->Internal_0;
        let h = (height - 1) as nat;
        rewrite::lemma_under(pages, capacity, page, height, low, high, node);
        let kids = node.kids;
        let seps = node.seps;
        let k = choose|k: int|
            0 <= k < kids.len() && #[trigger] shape::inside(pages, kids[k], h, leaf);
        let kl = shape::kid_low(seps, low, k);
        let kh = shape::kid_high(seps, high, k);
        assert(shape::branch(pages, capacity, kids[k], h, kl, kh));
        lemma_successor(pages, capacity, kids[k], h, kl, kh, leaf);
        let entries = entries_of(pages, leaf);
        // What an earlier child holds comes before the leaf.
        assert forall|j: int, x: EntryView| 0 <= j < k && #[trigger] shape::has(
            pages,
            kids[j],
            h,
            x,
        ) implies earlier(pages, leaf, x) by {
            assert forall|i: int| 0 <= i < entries.len() implies key::before(
                x,
                #[trigger] entries_of(pages, leaf)[i],
            ) by {
                lemma_leaf_entry(pages, capacity, kids[k], h, kl, kh, leaf, i);
                lemma_children_ascend(
                    pages,
                    capacity,
                    kids,
                    seps,
                    h,
                    low,
                    high,
                    j,
                    k,
                    x,
                    entries[i],
                );
            }
        }
        if leaf == shape::last_leaf(pages, kids[k], h) && nothing_later(pages, kids[k], h, leaf) {
            if k == kids.len() - 1 {
                assert(kids.last() == kids[k]);
                assert forall|x: EntryView| #[trigger] shape::has(pages, page, height, x) implies entries.contains(
                    x,
                ) || earlier(pages, leaf, x) by {
                    let j = lemma_child_has(pages, kids, h, x);
                }
            } else {
                lemma_step_over(pages, capacity, page, height, low, high, node, k, leaf);
            }
        } else {
            let next = shape::next_of(pages, leaf)->0;
            assert(shape::inside_row(pages, kids, h, next));
            assert forall|x: EntryView| #[trigger] shape::has(pages, page, height, x) implies entries.contains(
                x,
            ) || earlier(pages, leaf, x) || entries_of(pages, next).contains(x) || later(
                pages,
                next,
                x,
            ) by {
                let j = lemma_child_has(pages, kids, h, x);
                if j > k {
                    assert forall|i: int|
                        0 <= i < entries_of(pages, next).len() implies key::before(
                        #[trigger] entries_of(pages, next)[i],
                        x,
                    ) by {
                        lemma_leaf_entry(pages, capacity, kids[k], h, kl, kh, next, i);
                        lemma_children_ascend(
                            pages,
                            capacity,
                            kids,
                            seps,
                            h,
                            low,
                            high,
                            k,
                            j,
                            entries_of(pages, next)[i],
                            x,
                        );
                    }
                }
            }
        }
    }
}

/// The last leaf under a child is followed by the first under the next.
proof fn lemma_step_over(
    pages: Seq<PageView>,
    capacity: u32,
    page: PageId,
    height: nat,
    low: Option<EntryView>,
    high: Option<EntryView>,
    node: InternalView,
    k: int,
    leaf: PageId,
)
    requires
        shape::branch(pages, capacity, page, height, low, high),
        height > 1,
        pages[page.0 as int] == PageView::Internal(node),
        0 <= k < node.kids.len() - 1,
        is_leaf_of(pages, node.kids[k], (height - 1) as nat, leaf),
        leaf == shape::last_leaf(pages, node.kids[k], (height - 1) as nat),
        nothing_later(pages, node.kids[k], (height - 1) as nat, leaf),
        forall|j: int, x: EntryView|
            0 <= j < k && #[trigger] shape::has(pages, node.kids[j], (height - 1) as nat, x)
                ==> earlier(pages, leaf, x),
    ensures
        shape::next_of(pages, leaf) is Some,
        followed(pages, page, height, leaf, shape::next_of(pages, leaf)->0),
{
    let h = (height - 1) as nat;
    let kids = node.kids;
    let seps = node.seps;
    rewrite::lemma_under(pages, capacity, page, height, low, high, node);
    assert(shape::next_of(pages, shape::last_leaf(pages, kids[k], h)) == Some(
        shape::first_leaf(pages, kids[k + 1], h),
    ));
    let next = shape::first_leaf(pages, kids[k + 1], h);
    let kl = shape::kid_low(seps, low, k);
    let kh = shape::kid_high(seps, high, k);
    let nl = shape::kid_low(seps, low, k + 1);
    let nh = shape::kid_high(seps, high, k + 1);
    assert(shape::branch(pages, capacity, kids[k], h, kl, kh));
    assert(shape::branch(pages, capacity, kids[k + 1], h, nl, nh));
    lemma_first_leaf(pages, capacity, kids[k + 1], h, nl, nh);
    assert(shape::inside_row(pages, kids, h, next));
    assert forall|i: int| 0 <= i < entries_of(pages, leaf).len() implies earlier(
        pages,
        next,
        #[trigger] entries_of(pages, leaf)[i],
    ) by {
        lemma_leaf_entry(pages, capacity, kids[k], h, kl, kh, leaf, i);
        assert forall|j: int| 0 <= j < entries_of(pages, next).len() implies key::before(
            entries_of(pages, leaf)[i],
            #[trigger] entries_of(pages, next)[j],
        ) by {
            lemma_leaf_entry(pages, capacity, kids[k + 1], h, nl, nh, next, j);
            lemma_children_ascend(
                pages,
                capacity,
                kids,
                seps,
                h,
                low,
                high,
                k,
                k + 1,
                entries_of(pages, leaf)[i],
                entries_of(pages, next)[j],
            );
        }
    }
    assert forall|x: EntryView| #[trigger] shape::has(pages, page, height, x) implies entries_of(
        pages,
        leaf,
    ).contains(x) || earlier(pages, leaf, x) || entries_of(pages, next).contains(x) || later(
        pages,
        next,
        x,
    ) by {
        let j = lemma_child_has(pages, kids, h, x);
        if j > k + 1 {
            assert forall|i: int| 0 <= i < entries_of(pages, next).len() implies key::before(
                #[trigger] entries_of(pages, next)[i],
                x,
            ) by {
                lemma_leaf_entry(pages, capacity, kids[k + 1], h, nl, nh, next, i);
                lemma_children_ascend(
                    pages,
                    capacity,
                    kids,
                    seps,
                    h,
                    low,
                    high,
                    k + 1,
                    j,
                    entries_of(pages, next)[i],
                    x,
                );
            }
        }
    }
}

// ---------------------------------------------------------------------------
// The first leaf of a key
// ---------------------------------------------------------------------------
/// The first leaf that a key may be in: every entry of the key is in it or
/// behind it.
proof fn lemma_key_leaf(
    pages: Seq<PageView>,
    capacity: u32,
    page: PageId,
    height: nat,
    low: Option<EntryView>,
    high: Option<EntryView>,
    key: ScalarView,
)
    requires
        shape::branch(pages, capacity, page, height, low, high),
    ensures
        lookup::key_leaf(pages, page, height, key) is Ok,
        ({
            let leaf = lookup::key_leaf(pages, page, height, key)->Ok_0;
            &&& is_leaf_of(pages, page, height, leaf)
            &&& forall|x: EntryView| #[trigger]
                shape::has(pages, page, height, x) && x.key == key ==> entries_of(
                    pages,
                    leaf,
                ).contains(x) || later(pages, leaf, x)
        }),
    decreases height,
{
    if height > 1 {
        find_laws::lemma_read_internal(pages, capacity, page, height, low, high);
        let node = pages[page.0 as int]->Internal_0;
        let h = (height - 1) as nat;
        rewrite::lemma_under(pages, capacity, page, height, low, high, node);
        let kids = node.kids;
        let seps = node.seps;
        let place = internal::key_place_from(seps, key, 0);
        internal::lemma_key_place_from(seps, key, 0);
        let kl = shape::kid_low(seps, low, place);
        let kh = shape::kid_high(seps, high, place);
        assert(shape::branch(pages, capacity, kids[place], h, kl, kh));
        lemma_key_leaf(pages, capacity, kids[place], h, kl, kh, key);
        let leaf = lookup::key_leaf(pages, kids[place], h, key)->Ok_0;
        assert(shape::inside_row(pages, kids, h, leaf));
        assert forall|x: EntryView| #[trigger]
            shape::has(pages, page, height, x) && x.key == key implies entries_of(
            pages,
            leaf,
        ).contains(x) || later(pages, leaf, x) by {
            let j = lemma_child_has(pages, kids, h, x);
            if j < place {
                find_laws::lemma_held_within(
                    pages,
                    capacity,
                    kids[j],
                    h,
                    shape::kid_low(seps, low, j),
                    shape::kid_high(seps, high, j),
                    x,
                );
                assert(key::before(x, seps[j]));
                assert(value::value_order(key, seps[j].key) == Ordered::After);
                key::lemma_order_by_key(x, seps[j]);
            } else if j > place {
                assert forall|i: int| 0 <= i < entries_of(pages, leaf).len() implies key::before(
                    #[trigger] entries_of(pages, leaf)[i],
                    x,
                ) by {
                    lemma_leaf_entry(pages, capacity, kids[place], h, kl, kh, leaf, i);
                    lemma_children_ascend(
                        pages,
                        capacity,
                        kids,
                        seps,
                        h,
                        low,
                        high,
                        place,
                        j,
                        entries_of(pages, leaf)[i],
                        x,
                    );
                }
            }
        }
    }
}

// ---------------------------------------------------------------------------
// One leaf
// ---------------------------------------------------------------------------
/// Rows in strictly ascending order.
pub open spec fn rows_ascend(rows: Seq<RowId>) -> bool {
    forall|i: int, j: int|
        0 <= i < j < rows.len() ==> key::row_order(#[trigger] rows[i], #[trigger] rows[j])
            == Ordered::Before
}

/// The entry of a key and a row.
pub open spec fn entry_for(key: ScalarView, row: RowId) -> EntryView {
    EntryView { key, row_id: row }
}

/// What one ascending leaf holds of a key from a place on.
proof fn lemma_leaf_rows(entries: Seq<EntryView>, key: ScalarView, i: int)
    requires
        shape::ascending(entries),
        0 <= i <= entries.len(),
    ensures
        rows_ascend(lookup::leaf_rows(entries, key, i).rows),
        forall|row: RowId| #[trigger]
            lookup::leaf_rows(entries, key, i).rows.contains(row) <==> exists|j: int|
                i <= j < entries.len() && #[trigger] entries[j] == entry_for(key, row),
        lookup::leaf_rows(entries, key, i).beyond <==> exists|j: int|
            i <= j < entries.len() && value::value_order(key, (#[trigger] entries[j]).key)
                == Ordered::Before,
    decreases entries.len() - i,
{
    let here = lookup::leaf_rows(entries, key, i);
    if i < entries.len() {
        lemma_leaf_rows(entries, key, i + 1);
        let rest = lookup::leaf_rows(entries, key, i + 1);
        value::lemma_same_order(key, entries[i].key);
        match value::value_order(key, entries[i].key) {
            Ordered::Before => {
                assert(here.rows =~= Seq::empty());
                assert forall|row: RowId| #[trigger] here.rows.contains(row) <==> exists|j: int|
                    i <= j < entries.len() && #[trigger] entries[j] == entry_for(key, row) by {
                    if exists|j: int|
                        i <= j < entries.len() && #[trigger] entries[j] == entry_for(key, row) {
                        let j = choose|j: int|
                            i <= j < entries.len() && #[trigger] entries[j] == entry_for(key, row);
                        if j > i {
                            assert(key::before(entries[i], entries[j]));
                            key::lemma_order_by_key(entries[i], entries[j]);
                            value::lemma_same_order(entries[i].key, key);
                        }
                    }
                }
            },
            Ordered::After => {
                assert forall|row: RowId| #[trigger] here.rows.contains(row) <==> exists|j: int|
                    i <= j < entries.len() && #[trigger] entries[j] == entry_for(key, row) by {
                    if exists|j: int|
                        i <= j < entries.len() && #[trigger] entries[j] == entry_for(key, row) {
                        let j = choose|j: int|
                            i <= j < entries.len() && #[trigger] entries[j] == entry_for(key, row);
                        assert(j > i);
                    }
                }
            },
            Ordered::Same => {
                let row0 = entries[i].row_id;
                assert(entries[i] == entry_for(key, row0));
                assert(here.rows =~= seq![row0] + rest.rows);
                assert forall|row: RowId| #[trigger] here.rows.contains(row) <==> exists|j: int|
                    i <= j < entries.len() && #[trigger] entries[j] == entry_for(key, row) by {
                    if here.rows.contains(row) {
                        let t = choose|t: int| 0 <= t < here.rows.len() && here.rows[t] == row;
                        if t == 0 {
                            assert(entries[i] == entry_for(key, row));
                        } else {
                            assert(rest.rows[t - 1] == row);
                            assert(rest.rows.contains(row));
                        }
                    }
                    if exists|j: int|
                        i <= j < entries.len() && #[trigger] entries[j] == entry_for(key, row) {
                        let j = choose|j: int|
                            i <= j < entries.len() && #[trigger] entries[j] == entry_for(key, row);
                        if j == i {
                            assert(here.rows[0] == row);
                        } else {
                            assert(rest.rows.contains(row));
                            let t = choose|t: int| 0 <= t < rest.rows.len() && rest.rows[t] == row;
                            assert(here.rows[t + 1] == row);
                        }
                    }
                }
                assert forall|s: int, t: int| 0 <= s < t < here.rows.len() implies key::row_order(
                    #[trigger] here.rows[s],
                    #[trigger] here.rows[t],
                ) == Ordered::Before by {
                    assert(here.rows[t] == rest.rows[t - 1]);
                    if s == 0 {
                        assert(rest.rows.contains(here.rows[t]));
                        let j = choose|j: int|
                            i + 1 <= j < entries.len() && #[trigger] entries[j] == entry_for(
                                key,
                                here.rows[t],
                            );
                        assert(key::before(entries[i], entries[j]));
                        key::lemma_order_by_key(entries[i], entries[j]);
                    } else {
                        assert(here.rows[s] == rest.rows[s - 1]);
                    }
                }
            },
        }
    }
}

// ---------------------------------------------------------------------------
// The walk
// ---------------------------------------------------------------------------
/// A set of numbers below a bound has no more members than the bound.
proof fn lemma_bounded_set(numbers: Set<u64>, bound: nat)
    requires
        numbers.finite(),
        forall|p: u64| #[trigger] numbers.contains(p) ==> p < bound,
    ensures
        numbers.len() <= bound,
    decreases bound,
{
    if bound == 0 {
        assert(numbers =~= Set::empty());
    } else if bound - 1 <= u64::MAX {
        let last = (bound - 1) as u64;
        lemma_bounded_set(numbers.remove(last), (bound - 1) as nat);
    } else {
        lemma_bounded_set(numbers, (bound - 1) as nat);
    }
}

/// A leaf under a node without empty leaves has entries.
proof fn lemma_leaf_filled(
    pages: Seq<PageView>,
    capacity: u32,
    page: PageId,
    height: nat,
    low: Option<EntryView>,
    high: Option<EntryView>,
    leaf: PageId,
)
    requires
        shape::branch(pages, capacity, page, height, low, high),
        is_leaf_of(pages, page, height, leaf),
    ensures
        shape::filled(pages, page, height) ==> entries_of(pages, leaf).len() > 0,
        pages::is_child(pages, leaf),
        shape::ascending(entries_of(pages, leaf)),
    decreases height,
{
    if height > 1 {
        let node = pages[page.0 as int]->Internal_0;
        let h = (height - 1) as nat;
        rewrite::lemma_under(pages, capacity, page, height, low, high, node);
        let k = choose|k: int|
            0 <= k < node.kids.len() && #[trigger] shape::inside(pages, node.kids[k], h, leaf);
        lemma_leaf_filled(
            pages,
            capacity,
            node.kids[k],
            h,
            shape::kid_low(node.seps, low, k),
            shape::kid_high(node.seps, high, k),
            leaf,
        );
        if shape::filled(pages, page, height) {
            assert(shape::filled(pages, node.kids[k], h));
        }
    }
}

/// A leaf with entries all of which come before those of another.
pub open spec fn passed(pages: Seq<PageView>, page: PageId, leaf: PageId) -> bool {
    &&& entries_of(pages, page).len() > 0
    &&& forall|i: int|
        0 <= i < entries_of(pages, page).len() ==> earlier(
            pages,
            leaf,
            #[trigger] entries_of(pages, page)[i],
        )
}

/// Whether a walk from a leaf on still meets an entry.
pub open spec fn ahead(
    pages: Seq<PageView>,
    root: PageId,
    height: nat,
    leaf: PageId,
    e: EntryView,
) -> bool {
    shape::has(pages, root, height, e) && (entries_of(pages, leaf).contains(e) || later(
        pages,
        leaf,
        e,
    ))
}

/// What stands between a leaf that ends the walk and the rest of the tree.
proof fn lemma_walk_ends(
    pages: Seq<PageView>,
    capacity: u32,
    root: PageId,
    height: nat,
    key: ScalarView,
    leaf: PageId,
    row: RowId,
)
    requires
        shape::branch(pages, capacity, root, height, None, None),
        shape::next_of(pages, shape::last_leaf(pages, root, height)) is None,
        is_leaf_of(pages, root, height, leaf),
        height > 1 ==> entries_of(pages, leaf).len() > 0,
        !lookup::goes_on(pages[leaf.0 as int]->Leaf_0, key),
        ahead(pages, root, height, leaf, entry_for(key, row)),
    ensures
        entries_of(pages, leaf).contains(entry_for(key, row)),
{
    let e = entry_for(key, row);
    let entries = entries_of(pages, leaf);
    lemma_leaf_filled(pages, capacity, root, height, None, None, leaf);
    if !entries.contains(e) {
        assert(later(pages, leaf, e));
        if entries.len() == 0 {
            // A lone empty root: the tree holds nothing.
            assert(height == 1);
            assert(false);
        }
        let last = entries.len() - 1;
        assert(key::before(entries[last], e));
        key::lemma_order_by_key(entries[last], e);
        value::lemma_same_order(entries[last].key, key);
        lemma_leaf_rows(entries, key, 0);
        if lookup::leaf_rows(entries, key, 0).beyond {
            let j = choose|j: int|
                0 <= j < entries.len() && value::value_order(key, (#[trigger] entries[j]).key)
                    == Ordered::Before;
            assert(key::before(entries[j], e));
            key::lemma_order_by_key(entries[j], e);
            value::lemma_same_order(entries[j].key, key);
            assert(false);
        }
        assert((pages[leaf.0 as int]->Leaf_0).next is None);
        lemma_successor(pages, capacity, root, height, None, None, leaf);
        assert(nothing_later(pages, root, height, leaf));
        assert(earlier(pages, leaf, e));
        assert(key::before(e, entries[last]));
        key::lemma_entry_order(e, entries[last]);
        assert(false);
    }
}

/// A walk from a leaf on finds the rows of a key that are ahead, in ascending
/// order.
#[verifier::rlimit(40)]
proof fn lemma_walk(
    pages: Seq<PageView>,
    capacity: u32,
    root: PageId,
    height: nat,
    key: ScalarView,
    leaf: PageId,
    visited: Set<u64>,
    previous: Option<Previous>,
    left: nat,
)
    requires
        shape::branch(pages, capacity, root, height, None, None),
        height > 1 ==> shape::filled(pages, root, height),
        shape::next_of(pages, shape::last_leaf(pages, root, height)) is None,
        is_leaf_of(pages, root, height, leaf),
        visited.finite(),
        forall|v: u64| #[trigger]
            visited.contains(v) ==> v < pages.len() && passed(pages, PageId(v), leaf),
        previous matches Some(known) ==> earlier(pages, leaf, known.last),
        height > 1 || (visited == Set::<u64>::empty() && previous is None),
        left == pages.len() - visited.len(),
    ensures
        lookup::rows_from(pages, height, key, leaf, visited, previous, left) is Ok,
        ({
            let rows = lookup::rows_from(
                pages,
                height,
                key,
                leaf,
                visited,
                previous,
                left,
            )->Ok_0;
            &&& rows_ascend(rows)
            &&& forall|row: RowId| #[trigger]
                rows.contains(row) <==> ahead(pages, root, height, leaf, entry_for(key, row))
        }),
    decreases left,
{
    let node = pages[leaf.0 as int]->Leaf_0;
    let entries = node.entries;
    lemma_leaf_filled(pages, capacity, root, height, None, None, leaf);
    if visited.contains(leaf.0) {
        assert(passed(pages, PageId(leaf.0), leaf));
        assert(earlier(pages, leaf, entries_of(pages, leaf)[0]));
        key::lemma_entry_order(entries[0], entries[0]);
        assert(false);
    }
    lemma_bounded_set(visited.insert(leaf.0), pages.len());
    assert(left > 0);
    assert(pages::leaf_read(pages, leaf) == Ok::<LeafView, IndexError>(node));
    if entries.len() == 0 {
        assert(height == 1);
        assert(node.next is None) by {
            assert(leaf == shape::last_leaf(pages, root, height));
        }
    }
    if previous is Some {
        assert(key::before((previous->0).last, entries_of(pages, leaf)[0]));
    }
    assert(lookup::leaf_fault(node, leaf, height, previous) is None);
    lemma_leaf_rows(entries, key, 0);
    let here = lookup::leaf_rows(entries, key, 0).rows;
    assert forall|row: RowId| #[trigger] here.contains(row) <==> entries.contains(
        entry_for(key, row),
    ) by {
        if entries.contains(entry_for(key, row)) {
            let j = choose|j: int| 0 <= j < entries.len() && entries[j] == entry_for(key, row);
            assert(entries[j] == entry_for(key, row));
        }
    }
    assert forall|row: RowId| entries.contains(entry_for(key, row)) implies ahead(
        pages,
        root,
        height,
        leaf,
        #[trigger] entry_for(key, row),
    ) by {
        let j = choose|j: int| 0 <= j < entries.len() && entries[j] == entry_for(key, row);
        lemma_leaf_entry(pages, capacity, root, height, None, None, leaf, j);
    }
    if !lookup::goes_on(node, key) {
        assert forall|row: RowId| #[trigger] here.contains(row) <==> ahead(
            pages,
            root,
            height,
            leaf,
            entry_for(key, row),
        ) by {
            if ahead(pages, root, height, leaf, entry_for(key, row)) {
                lemma_walk_ends(pages, capacity, root, height, key, leaf, row);
            }
        }
    } else {
        let next = node.next->0;
        lemma_successor(pages, capacity, root, height, None, None, leaf);
        assert(followed(pages, root, height, leaf, next));
        lemma_leaf_filled(pages, capacity, root, height, None, None, next);
        if height == 1 {
            assert(next == leaf);
            assert(earlier(pages, next, entries_of(pages, leaf)[0]));
            key::lemma_entry_order(entries[0], entries[0]);
            assert(false);
        }
        let more = visited.insert(leaf.0);
        let known = Previous { page: leaf, last: entries.last() };
        assert forall|v: u64| #[trigger] more.contains(v) implies v < pages.len() && passed(
            pages,
            PageId(v),
            next,
        ) by {
            if v != leaf.0 {
                assert(visited.contains(v));
                assert forall|i: int|
                    0 <= i < entries_of(pages, PageId(v)).len() implies earlier(
                    pages,
                    next,
                    #[trigger] entries_of(pages, PageId(v))[i],
                ) by {
                    assert(earlier(pages, leaf, entries_of(pages, PageId(v))[i]));
                    assert(earlier(pages, next, entries_of(pages, leaf)[0]));
                    assert forall|j: int| 0 <= j < entries_of(pages, next).len() implies key::before(
                        entries_of(pages, PageId(v))[i],
                        #[trigger] entries_of(pages, next)[j],
                    ) by {
                        key::law_entry_order_is_transitive(
                            entries_of(pages, PageId(v))[i],
                            entries[0],
                            entries_of(pages, next)[j],
                        );
                    }
                }
            } else {
                assert(PageId(v) == leaf);
            }
        }
        assert(entries.last() == entries_of(pages, leaf)[entries.len() - 1]);
        lemma_walk(
            pages,
            capacity,
            root,
            height,
            key,
            next,
            more,
            Some(known),
            (left - 1) as nat,
        );
        let rest = lookup::rows_from(
            pages,
            height,
            key,
            next,
            more,
            Some(known),
            (left - 1) as nat,
        )->Ok_0;
        let rows = here + rest;
        assert forall|row: RowId| #[trigger] rows.contains(row) <==> ahead(
            pages,
            root,
            height,
            leaf,
            entry_for(key, row),
        ) by {
            lemma_ahead_next(pages, capacity, root, height, leaf, next, entry_for(key, row));
            if rows.contains(row) {
                let t = choose|t: int| 0 <= t < rows.len() && rows[t] == row;
                if t < here.len() {
                    assert(here[t] == row);
                    assert(here.contains(row));
                } else {
                    assert(rest[t - here.len()] == row);
                    assert(rest.contains(row));
                }
            }
            if here.contains(row) {
                let t = choose|t: int| 0 <= t < here.len() && here[t] == row;
                assert(rows[t] == row);
            }
            if rest.contains(row) {
                let t = choose|t: int| 0 <= t < rest.len() && rest[t] == row;
                assert(rows[here.len() + t] == row);
            }
        }
        assert forall|i: int, j: int| 0 <= i < j < rows.len() implies key::row_order(
            #[trigger] rows[i],
            #[trigger] rows[j],
        ) == Ordered::Before by {
            let m = here.len() as int;
            if j < m {
                assert(rows[i] == here[i] && rows[j] == here[j]);
            } else if i >= m {
                assert(rows[i] == rest[i - m] && rows[j] == rest[j - m]);
            } else {
                assert(here.contains(rows[i])) by {
                    assert(here[i] == rows[i]);
                }
                assert(rest.contains(rows[j])) by {
                    assert(rest[j - m] == rows[j]);
                }
                let x = entry_for(key, rows[i]);
                let y = entry_for(key, rows[j]);
                lemma_ahead_next(pages, capacity, root, height, leaf, next, y);
                let a = choose|a: int| 0 <= a < entries.len() && entries[a] == x;
                assert(entries_of(pages, leaf)[a] == x);
                assert(key::before(x, y));
                key::lemma_order_by_key(x, y);
            }
        }
    }
}

/// What is ahead of a leaf is in it, or ahead of the next, which lies behind
/// it.
proof fn lemma_ahead_next(
    pages: Seq<PageView>,
    capacity: u32,
    root: PageId,
    height: nat,
    leaf: PageId,
    next: PageId,
    e: EntryView,
)
    requires
        shape::branch(pages, capacity, root, height, None, None),
        is_leaf_of(pages, root, height, leaf),
        followed(pages, root, height, leaf, next),
        entries_of(pages, leaf).len() > 0,
        entries_of(pages, next).len() > 0,
    ensures
        ahead(pages, root, height, next, e) ==> later(pages, leaf, e) && shape::has(
            pages,
            root,
            height,
            e,
        ),
        ahead(pages, root, height, leaf, e) && !entries_of(pages, leaf).contains(e) ==> ahead(
            pages,
            root,
            height,
            next,
            e,
        ),
{
    let entries = entries_of(pages, leaf);
    let following = entries_of(pages, next);
    if ahead(pages, root, height, next, e) {
        assert forall|i: int| 0 <= i < entries.len() implies key::before(
            #[trigger] entries_of(pages, leaf)[i],
            e,
        ) by {
            assert(earlier(pages, next, entries_of(pages, leaf)[i]));
            if following.contains(e) {
                let j = choose|j: int| 0 <= j < following.len() && following[j] == e;
                assert(key::before(entries[i], entries_of(pages, next)[j]));
            } else {
                assert(key::before(entries[i], entries_of(pages, next)[0]));
                assert(key::before(entries_of(pages, next)[0], e));
                key::law_entry_order_is_transitive(entries[i], following[0], e);
            }
        }
    }
    if ahead(pages, root, height, leaf, e) && !entries.contains(e) {
        assert(key::before(entries_of(pages, leaf)[0], e));
        if earlier(pages, leaf, e) {
            assert(key::before(e, entries_of(pages, leaf)[0]));
            key::lemma_entry_order(e, entries[0]);
        }
    }
}

/// A lookup in a sound tree of a key that the index takes finds the rows of
/// the entries with that key, all of them and no others, in ascending order.
pub proof fn law_lookup(
    pages: Seq<PageView>,
    capacity: u32,
    handle: BTreeHandle,
    key: ScalarView,
)
    requires
        laws::sound_tree(pages, capacity, handle),
        key::key_check(laws::meta_of(pages, handle).spec, key) is Ok,
    ensures
        lookup::rows_of(pages, handle, key) is Ok,
        ({
            let rows = lookup::rows_of(pages, handle, key)->Ok_0;
            &&& rows_ascend(rows)
            &&& forall|row: RowId| #[trigger]
                rows.contains(row) <==> laws::holds(pages, handle, entry_for(key, row))
        }),
{
    let meta = laws::meta_of(pages, handle);
    let height = meta.height as nat;
    let root = meta.root_page;
    lemma_key_leaf(pages, capacity, root, height, None, None, key);
    let leaf = lookup::key_leaf(pages, root, height, key)->Ok_0;
    lemma_walk(
        pages,
        capacity,
        root,
        height,
        key,
        leaf,
        Set::empty(),
        None,
        pages.len(),
    );
    let rows = lookup::rows_of(pages, handle, key)->Ok_0;
    assert forall|row: RowId| #[trigger] rows.contains(row) <==> laws::holds(
        pages,
        handle,
        entry_for(key, row),
    ) by {
        assert(rows.contains(row) <==> ahead(pages, root, height, leaf, entry_for(key, row)));
    }
}

} // verus!
