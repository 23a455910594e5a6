//! What an insertion does to a sound tree.
use super::change;
use super::change::ChangeView;
use super::error::IndexError;
use super::find_laws;
use super::insert;
use super::insert::Rise;
use super::internal;
use super::key;
use super::key::{EntryView, IndexSpec};
use super::node;
use super::node::{InternalView, LeafView};
use super::pages;
use super::pages::{PageView, StepView};
use super::parts;
use super::rewrite;
use super::rows;
use super::rows::Splice;
use super::shape;
use super::tree;
use crate::ids::PageId;
use vstd::prelude::*;

verus! {

/// What an insertion under a node comes to.
pub open spec fn rise_under(
    pages: Seq<PageView>,
    capacity: u32,
    page: PageId,
    height: nat,
    spec: IndexSpec,
    entry: EntryView,
) -> Result<Rise, IndexError> {
    match pages::descent(pages, page, height, entry) {
        Err(error) => Err(error),
        Ok(way) => match node::leaf_with(spec, way.leaf, entry) {
            Err(error) => Err(error),
            Ok(leaf) => insert::risen(
                way.path,
                insert::leaf_rise(pages.len(), way.page, leaf, capacity),
                capacity,
            ),
        },
    }
}

/// The nodes that stand where the node stood.
pub open spec fn top_kids(page: PageId, rise: Rise) -> Seq<PageId> {
    match rise.up {
        None => parts::alone(page),
        Some(promoted) => parts::pair(page, promoted.right),
    }
}

/// The separators between them.
pub open spec fn top_seps(rise: Rise) -> Seq<EntryView> {
    match rise.up {
        None => Seq::empty(),
        Some(promoted) => seq![promoted.fence],
    }
}

/// An insertion under a node did what it should: the node is replaced by one
/// or two that hold the entry as well.
pub open spec fn rose(
    pages: Seq<PageView>,
    capacity: u32,
    page: PageId,
    height: nat,
    low: Option<EntryView>,
    high: Option<EntryView>,
    entry: EntryView,
    rise: Rise,
) -> bool {
    let after = change::applied(pages, rise.changes);
    let kids = top_kids(page, rise);
    &&& tree::rise_placed(pages.len(), rise)
    &&& rise.next == after.len()
    &&& rise.next <= pages.len() + height
    &&& rise.up is Some ==> rise.next == pages.len() + height
    &&& rows::replaces(
        pages,
        after,
        capacity,
        parts::alone(page),
        kids,
        top_seps(rise),
        height,
        low,
        high,
    )
    &&& forall|e: EntryView| #[trigger]
        shape::has_row(after, kids, height, e) <==> (shape::has(pages, page, height, e) || e
            == entry)
    &&& height == 1 || shape::filled(pages, page, height) ==> shape::filled_row(
        after,
        kids,
        height,
    )
}

// ---------------------------------------------------------------------------
// Sizes
// ---------------------------------------------------------------------------
/// One more entry adds its own bytes.
proof fn lemma_size_with(entries: Seq<EntryView>, place: int, e: EntryView)
    requires
        0 <= place <= entries.len(),
    ensures
        key::node_size(entries.insert(place, e)) == key::node_size(entries) + key::entry_size(e),
{
    let more = entries.insert(place, e);
    let n = entries.len() as int;
    key::lemma_front_size_parts(entries, place, n);
    key::lemma_front_size_parts(more, place, n + 1);
    key::lemma_front_size_parts(more, place + 1, n + 1);
    key::lemma_front_size_alike(more, entries, place);
    assert(more.skip(place + 1) =~= entries.skip(place));
    assert(more[place] == e);
}

/// The bytes of the first entries are no more than those of the whole.
proof fn lemma_front_smaller(entries: Seq<EntryView>, m: int, n: int)
    requires
        0 <= m <= n,
    ensures
        key::front_size(entries, m) <= key::front_size(entries, n),
    decreases n,
{
    if m < n {
        lemma_front_smaller(entries, m, n - 1);
    }
}

/// A node of light entries that overflows by one of them can be parted.
proof fn lemma_parts_fit(entries: Seq<EntryView>, capacity: u32, e: EntryView)
    requires
        forall|i: int| 0 <= i < entries.len() ==> key::is_light(#[trigger] entries[i], capacity),
        key::is_light(e, capacity),
        key::node_size(entries) > capacity,
        key::node_size(entries) <= capacity + key::entry_size(e),
    ensures
        entries.len() >= 4,
        1 <= node::cut(entries, 1) < entries.len(),
        key::node_size(entries.take(node::cut(entries, 1))) <= capacity,
        key::node_size(entries.skip(node::cut(entries, 1))) <= capacity,
        1 <= node::fence_place(entries) < entries.len() - 1,
        key::node_size(entries.take(node::fence_place(entries))) <= capacity,
        key::node_size(entries.skip(node::fence_place(entries) + 1)) <= capacity,
        key::node_size(entries) < u64::MAX / 2,
{
    let n = entries.len() as int;
    let total = key::front_size(entries, n);
    reveal_with_fuel(key::front_size, 4);
    if n <= 3 {
        if n >= 1 {
            assert(key::is_light(entries[0], capacity));
        }
        if n >= 2 {
            assert(key::is_light(entries[1], capacity));
        }
        if n >= 3 {
            assert(key::is_light(entries[2], capacity));
        }
    }
    node::lemma_cut(entries, 1);
    let m = node::cut(entries, 1);
    let f = node::fence_place(entries);
    assert(key::is_light(entries[m - 1], capacity));
    assert(key::is_light(entries[n - 1], capacity));
    key::lemma_front_size_parts(entries, m, n);
    key::lemma_front_size_parts(entries, f, n);
    key::lemma_front_size_parts(entries, f + 1, n);
    key::lemma_front_size_parts(entries, n - 1, n);
    lemma_front_smaller(entries, f, m);
    assert(entries.take(m).len() == m && entries.skip(m).len() == n - m);
    assert(entries.take(f).len() == f && entries.skip(f + 1).len() == n - f - 1);
    assert(key::front_size(entries, m) == key::front_size(entries, m - 1) + key::entry_size(
        entries[m - 1],
    ));
    assert(key::front_size(entries, n) == key::front_size(entries, n - 1) + key::entry_size(
        entries[n - 1],
    ));
}

// ---------------------------------------------------------------------------
// The leaf
// ---------------------------------------------------------------------------
/// A leaf with one more entry in its place.
proof fn lemma_leaf_with(
    leaf: LeafView,
    capacity: u32,
    low: Option<EntryView>,
    high: Option<EntryView>,
    e: EntryView,
)
    requires
        shape::sound_leaf(leaf, capacity, low, high),
        shape::within(e, low, high),
        key::is_light(e, capacity),
        !leaf.entries.contains(e),
    ensures
        ({
            let more = leaf.entries.insert(node::rank_of(leaf.entries, e), e);
            &&& 0 <= node::rank_of(leaf.entries, e) <= leaf.entries.len()
            &&& shape::ascending(more)
            &&& forall|i: int|
                0 <= i < more.len() ==> shape::within(#[trigger] more[i], low, high)
            &&& forall|i: int| 0 <= i < more.len() ==> key::is_light(#[trigger] more[i], capacity)
            &&& key::node_size(more) <= capacity + key::entry_size(e)
            &&& forall|x: EntryView| #[trigger]
                more.contains(x) <==> (leaf.entries.contains(x) || x == e)
        }),
{
    let entries = leaf.entries;
    let place = node::rank_of(entries, e);
    let more = entries.insert(place, e);
    find_laws::lemma_leaf_holds(entries, e);
    lemma_size_with(entries, place, e);
    assert forall|i: int| 0 <= i < more.len() implies #[trigger] more[i] == if i < place {
        entries[i]
    } else if i == place {
        e
    } else {
        entries[i - 1]
    } by {}
    assert forall|i: int, j: int| 0 <= i < j < more.len() implies key::before(
        #[trigger] more[i],
        #[trigger] more[j],
    ) by {
        if i == place {
            assert(entries[j - 1] != e) by {
                if entries[j - 1] == e {
                    assert(entries.contains(e));
                }
            }
        }
        if j == place {
            assert(key::before(entries[i], e));
        }
    }
    assert forall|x: EntryView| #[trigger] more.contains(x) <==> (entries.contains(x) || x == e) by {
        if more.contains(x) {
            let i = choose|i: int| 0 <= i < more.len() && more[i] == x;
            if i < place {
                assert(entries[i] == x);
            } else if i > place {
                assert(entries[i - 1] == x);
            }
        }
        if entries.contains(x) {
            let i = choose|i: int| 0 <= i < entries.len() && entries[i] == x;
            if i < place {
                assert(more[i] == x);
            } else {
                assert(more[i + 1] == x);
            }
        }
        if x == e {
            assert(more[place] == x);
        }
    }
}

/// What is under a leaf.
pub proof fn lemma_leaf_under(pages: Seq<PageView>, page: PageId, leaf: LeafView)
    requires
        pages[page.0 as int] == PageView::Leaf(leaf),
    ensures
        forall|p: PageId| #[trigger] shape::inside(pages, page, 1, p) <==> p == page,
        forall|e: EntryView| #[trigger]
            shape::has(pages, page, 1, e) <==> leaf.entries.contains(e),
        shape::first_leaf(pages, page, 1) == page,
        shape::last_leaf(pages, page, 1) == page,
        shape::next_of(pages, page) == leaf.next,
        shape::filled(pages, page, 1) == (leaf.entries.len() > 0),
{
}

/// A leaf is rewritten with other entries between the same bounds.
pub proof fn lemma_leaf_rewritten(
    before: Seq<PageView>,
    after: Seq<PageView>,
    capacity: u32,
    page: PageId,
    low: Option<EntryView>,
    high: Option<EntryView>,
    leaf: LeafView,
)
    requires
        shape::branch(before, capacity, page, 1, low, high),
        shape::sound_leaf(leaf, capacity, low, high),
        leaf.next == (before[page.0 as int]->Leaf_0).next,
        after =~= before.update(page.0 as int, PageView::Leaf(leaf)),
    ensures
        rows::replaces(
            before,
            after,
            capacity,
            parts::alone(page),
            parts::alone(page),
            Seq::empty(),
            1,
            low,
            high,
        ),
        forall|e: EntryView| #[trigger]
            shape::has_row(after, parts::alone(page), 1, e) <==> leaf.entries.contains(e),
        shape::filled_row(after, parts::alone(page), 1) == (leaf.entries.len() > 0),
{
    let old = before[page.0 as int]->Leaf_0;
    lemma_leaf_under(before, page, old);
    lemma_leaf_under(after, page, leaf);
    assert(shape::branch(after, capacity, page, 1, low, high));
    parts::lemma_single(before, capacity, page, 1, low, high);
    parts::lemma_single(after, capacity, page, 1, low, high);
    let one = parts::alone(page);
    assert(one[0] == page && one.last() == page);
    assert forall|p: PageId| p.0 < before.len() && !#[trigger] shape::inside_row(before, one, 1, p) implies after[p.0 as int]
        == before[p.0 as int] by {
        assert(!shape::inside(before, page, 1, p));
    }
    assert forall|p: PageId| #[trigger] shape::inside_row(after, one, 1, p) implies shape::inside_row(
        before,
        one,
        1,
        p,
    ) || p.0 >= before.len() by {
        assert(shape::inside(after, page, 1, p));
        assert(shape::inside(before, page, 1, p));
    }
}

/// A leaf is parted.
proof fn lemma_leaf_parted(
    before: Seq<PageView>,
    after: Seq<PageView>,
    capacity: u32,
    page: PageId,
    low: Option<EntryView>,
    high: Option<EntryView>,
    entries: Seq<EntryView>,
    m: int,
    right: PageId,
)
    requires
        shape::branch(before, capacity, page, 1, low, high),
        shape::ascending(entries),
        forall|i: int| 0 <= i < entries.len() ==> shape::within(#[trigger] entries[i], low, high),
        forall|i: int| 0 <= i < entries.len() ==> key::is_light(#[trigger] entries[i], capacity),
        1 <= m < entries.len(),
        key::node_size(entries.take(m)) <= capacity,
        key::node_size(entries.skip(m)) <= capacity,
        right.0 == before.len(),
        after =~= before.push(
            PageView::Leaf(
                LeafView {
                    entries: entries.skip(m),
                    next: (before[page.0 as int]->Leaf_0).next,
                },
            ),
        ).update(
            page.0 as int,
            PageView::Leaf(LeafView { entries: entries.take(m), next: Some(right) }),
        ),
    ensures
        rows::replaces(
            before,
            after,
            capacity,
            parts::alone(page),
            parts::pair(page, right),
            seq![entries[m]],
            1,
            low,
            high,
        ),
        forall|e: EntryView| #[trigger]
            shape::has_row(after, parts::pair(page, right), 1, e) <==> entries.contains(e),
        shape::filled_row(after, parts::pair(page, right), 1),
{
    let old = before[page.0 as int]->Leaf_0;
    let left_leaf = LeafView { entries: entries.take(m), next: Some(right) };
    let right_leaf = LeafView { entries: entries.skip(m), next: old.next };
    let fence = entries[m];
    lemma_leaf_under(before, page, old);
    lemma_leaf_under(after, page, left_leaf);
    lemma_leaf_under(after, right, right_leaf);
    assert(shape::within(entries[0], low, high));
    assert(shape::within(entries[m], low, high));
    assert(key::before(entries[0], entries[m]));
    if low is Some {
        key::lemma_entry_order(low->0, entries[0]);
        if low->0 != entries[0] {
            key::law_entry_order_is_transitive(low->0, entries[0], entries[m]);
        }
    }
    assert(shape::between(fence, low, high));
    assert(shape::sound_leaf(left_leaf, capacity, low, Some(fence))) by {
        assert forall|i: int| 0 <= i < left_leaf.entries.len() implies shape::within(
            #[trigger] left_leaf.entries[i],
            low,
            Some(fence),
        ) && key::is_light(left_leaf.entries[i], capacity) by {
            assert(left_leaf.entries[i] == entries[i]);
        }
        assert forall|i: int, j: int| 0 <= i < j < left_leaf.entries.len() implies key::before(
            #[trigger] left_leaf.entries[i],
            #[trigger] left_leaf.entries[j],
        ) by {
            assert(left_leaf.entries[i] == entries[i] && left_leaf.entries[j] == entries[j]);
        }
    }
    assert(shape::sound_leaf(right_leaf, capacity, Some(fence), high)) by {
        assert forall|i: int| 0 <= i < right_leaf.entries.len() implies shape::within(
            #[trigger] right_leaf.entries[i],
            Some(fence),
            high,
        ) && key::is_light(right_leaf.entries[i], capacity) by {
            assert(right_leaf.entries[i] == entries[m + i]);
            key::lemma_entry_order(entries[m + i], fence);
            key::lemma_entry_order(fence, entries[m + i]);
            if i > 0 {
                assert(key::before(entries[m], entries[m + i]));
            }
        }
        assert forall|i: int, j: int| 0 <= i < j < right_leaf.entries.len() implies key::before(
            #[trigger] right_leaf.entries[i],
            #[trigger] right_leaf.entries[j],
        ) by {
            assert(right_leaf.entries[i] == entries[m + i] && right_leaf.entries[j] == entries[m
                + j]);
        }
    }
    assert(right != page);
    assert(shape::branch(after, capacity, page, 1, low, Some(fence)));
    assert(shape::branch(after, capacity, right, 1, Some(fence), high));
    parts::lemma_pair(after, capacity, page, fence, right, 1, low, high);
    parts::lemma_single(before, capacity, page, 1, low, high);
    let one = parts::alone(page);
    let two = parts::pair(page, right);
    assert(one[0] == page && one.last() == page && two[0] == page && two.last() == right);
    assert forall|p: PageId| p.0 < before.len() && !#[trigger] shape::inside_row(before, one, 1, p) implies after[p.0 as int]
        == before[p.0 as int] by {
        assert(!shape::inside(before, page, 1, p));
    }
    assert forall|p: PageId| #[trigger] shape::inside_row(after, two, 1, p) implies shape::inside_row(
        before,
        one,
        1,
        p,
    ) || p.0 >= before.len() by {
        assert(shape::inside(after, page, 1, p) || shape::inside(after, right, 1, p));
        assert(shape::inside(before, page, 1, page));
    }
    assert forall|e: EntryView| #[trigger] shape::has_row(after, two, 1, e) <==> entries.contains(
        e,
    ) by {
        assert(shape::has(after, page, 1, e) <==> left_leaf.entries.contains(e));
        assert(shape::has(after, right, 1, e) <==> right_leaf.entries.contains(e));
        if entries.contains(e) {
            let i = choose|i: int| 0 <= i < entries.len() && entries[i] == e;
            if i < m {
                assert(left_leaf.entries[i] == e);
            } else {
                assert(right_leaf.entries[i - m] == e);
            }
        }
        if left_leaf.entries.contains(e) {
            let i = choose|i: int| 0 <= i < left_leaf.entries.len() && left_leaf.entries[i] == e;
            assert(entries[i] == e);
        }
        if right_leaf.entries.contains(e) {
            let i = choose|i: int| 0 <= i < right_leaf.entries.len() && right_leaf.entries[i] == e;
            assert(entries[m + i] == e);
        }
    }
}

/// An insertion at a leaf.
proof fn lemma_leaf_rose(
    pages: Seq<PageView>,
    capacity: u32,
    page: PageId,
    low: Option<EntryView>,
    high: Option<EntryView>,
    spec: IndexSpec,
    e: EntryView,
)
    requires
        shape::branch(pages, capacity, page, 1, low, high),
        shape::within(e, low, high),
        key::fit_check(spec, e, capacity) is Ok,
        !shape::has(pages, page, 1, e),
        pages.len() < u64::MAX - 1,
    ensures
        rise_under(pages, capacity, page, 1, spec, e) is Ok,
        rose(
            pages,
            capacity,
            page,
            1,
            low,
            high,
            e,
            rise_under(pages, capacity, page, 1, spec, e)->Ok_0,
        ),
{
    let leaf = pages[page.0 as int]->Leaf_0;
    lemma_leaf_under(pages, page, leaf);
    assert(!leaf.entries.contains(e));
    find_laws::lemma_leaf_holds(leaf.entries, e);
    lemma_leaf_with(leaf, capacity, low, high, e);
    let more = LeafView {
        entries: leaf.entries.insert(node::rank_of(leaf.entries, e), e),
        next: leaf.next,
    };
    let none = Seq::<ChangeView>::empty();
    tree::lemma_leaf_rise_placed(pages.len(), page, more, capacity);
    if key::node_size(more.entries) <= capacity {
        let rise = insert::leaf_rise(pages.len(), page, more, capacity)->Ok_0;
        change::lemma_one_more(pages, pages.len(), none, rise.changes[0]);
        assert(none.push(rise.changes[0]) =~= rise.changes);
        let after = change::applied(pages, rise.changes);
        lemma_leaf_rewritten(pages, after, capacity, page, low, high, more);
    } else {
        lemma_parts_fit(more.entries, capacity, e);
        let rise = insert::leaf_rise(pages.len(), page, more, capacity)->Ok_0;
        change::lemma_one_more(pages, pages.len(), none, rise.changes[0]);
        let first = none.push(rise.changes[0]);
        change::lemma_one_more(pages, pages.len(), first, rise.changes[1]);
        assert(first.push(rise.changes[1]) =~= rise.changes);
        let after = change::applied(pages, rise.changes);
        lemma_leaf_parted(
            pages,
            after,
            capacity,
            page,
            low,
            high,
            more.entries,
            node::cut(more.entries, 1),
            insert::page_at(pages.len()),
        );
    }
}

// ---------------------------------------------------------------------------
// The nodes above
// ---------------------------------------------------------------------------
/// An insertion under an inner node is one under a child and what the node
/// makes of it.
pub proof fn lemma_rise_step(
    pages: Seq<PageView>,
    capacity: u32,
    page: PageId,
    height: nat,
    spec: IndexSpec,
    e: EntryView,
    node: InternalView,
)
    requires
        height > 1,
        pages::internal_read(pages, page) == Ok::<InternalView, IndexError>(node),
    ensures
        rise_under(pages, capacity, page, height, spec, e) == match rise_under(
            pages,
            capacity,
            node.kids[node::place_of(node.seps, e)],
            (height - 1) as nat,
            spec,
            e,
        ) {
            Err(error) => Err(error),
            Ok(below) => insert::step_rise(
                StepView { page, node, place: node::place_of(node.seps, e) },
                below,
                capacity,
            ),
        },
{
    let place = node::place_of(node.seps, e);
    let h = (height - 1) as nat;
    match pages::descent(pages, node.kids[place], h, e) {
        Err(_) => {},
        Ok(below) => {
            let way = pages::descent(pages, page, height, e)->Ok_0;
            assert(way.path.drop_first() =~= below.path);
            assert(way.path[0] == (StepView { page, node, place }));
        },
    }
}

/// The row under a node after an insertion under one of its children.
pub proof fn lemma_row_rose(
    pages: Seq<PageView>,
    capacity: u32,
    page: PageId,
    height: nat,
    low: Option<EntryView>,
    high: Option<EntryView>,
    e: EntryView,
    node: InternalView,
    below: Rise,
) -> (s: Splice)
    requires
        shape::branch(pages, capacity, page, height, low, high),
        height > 1,
        pages[page.0 as int] == PageView::Internal(node),
        shape::within(e, low, high),
        !shape::has(pages, page, height, e),
        rose(
            pages,
            capacity,
            node.kids[node::place_of(node.seps, e)],
            (height - 1) as nat,
            shape::kid_low(node.seps, low, node::place_of(node.seps, e)),
            shape::kid_high(node.seps, high, node::place_of(node.seps, e)),
            e,
            below,
        ),
    ensures
        s.ok(),
        s.before == pages,
        s.after == change::applied(pages, below.changes),
        s.capacity == capacity,
        s.kids == node.kids,
        s.put_kids == top_kids(node.kids[node::place_of(node.seps, e)], below),
        s.height == (height - 1) as nat,
        s.low == low,
        s.high == high,
        rows::replaces(
            pages,
            s.after,
            capacity,
            node.kids,
            s.all_kids(),
            s.all_seps(),
            (height - 1) as nat,
            low,
            high,
        ),
        forall|x: EntryView| #[trigger]
            shape::has_row(s.after, s.all_kids(), (height - 1) as nat, x) <==> (shape::has(
                pages,
                page,
                height,
                x,
            ) || x == e),
        shape::filled(pages, page, height) ==> shape::filled_row(
            s.after,
            s.all_kids(),
            (height - 1) as nat,
        ),
        match below.up {
            None => s.all_kids() == node.kids && s.all_seps() == node.seps,
            Some(promoted) => ({
                let taken = internal::internal_with(
                    node,
                    node::place_of(node.seps, e),
                    promoted.fence,
                    promoted.right,
                );
                s.all_kids() == taken.kids && s.all_seps() == taken.seps
            }),
        },
        0 <= node::place_of(node.seps, e) <= node.seps.len(),
{
    let h = (height - 1) as nat;
    let place = node::place_of(node.seps, e);
    rewrite::lemma_under(pages, capacity, page, height, low, high, node);
    find_laws::lemma_place(node.seps, capacity, low, high, e);
    let kid = node.kids[place];
    let after = change::applied(pages, below.changes);
    let s = Splice {
        before: pages,
        after,
        capacity,
        kids: node.kids,
        seps: node.seps,
        height: h,
        low,
        high,
        start: place,
        width: 1,
        put_kids: top_kids(kid, below),
        put_seps: top_seps(below),
    };
    assert(s.cut() =~= parts::alone(kid));
    rows::lemma_splice(s);
    assert forall|x: EntryView| #[trigger] shape::has_row(s.after, s.all_kids(), h, x) <==> (
    shape::has(pages, page, height, x) || x == e) by {
        rows::lemma_splice_holds(s, x);
        assert(shape::has_row(after, s.put_kids, h, x) <==> (shape::has(pages, kid, h, x) || x
            == e));
        if shape::has(pages, page, height, x) {
            let i = choose|i: int|
                0 <= i < node.kids.len() && #[trigger] shape::has(pages, node.kids[i], h, x);
            if i != place {
                assert(rows::has_elsewhere(pages, node.kids, h, place, 1, x));
            }
        }
        if rows::has_elsewhere(pages, node.kids, h, place, 1, x) {
            let i = choose|i: int|
                0 <= i < node.kids.len() && (i < place || i >= place + 1) && #[trigger] shape::has(
                    pages,
                    node.kids[i],
                    h,
                    x,
                );
            assert(shape::has_row(pages, node.kids, h, x));
        }
        if shape::has(pages, kid, h, x) {
            assert(shape::has_row(pages, node.kids, h, x));
        }
    }
    if shape::filled(pages, page, height) {
        assert(shape::filled(pages, node.kids[place], h));
        assert forall|i: int| #[trigger] s.stays(i) implies shape::filled(
            s.before,
            s.kids[i],
            s.height,
        ) by {}
        rows::lemma_splice_filled(s);
    }
    match below.up {
        None => {
            assert(s.all_kids() =~= node.kids);
            assert(s.all_seps() =~= node.seps);
        },
        Some(promoted) => {
            assert(s.all_kids() =~= node.kids.insert(place + 1, promoted.right));
            assert(s.all_seps() =~= node.seps.insert(place, promoted.fence));
        },
    }
    s
}

/// An insertion under an inner node.
#[verifier::rlimit(40)]
proof fn lemma_step_rose(
    pages: Seq<PageView>,
    capacity: u32,
    page: PageId,
    height: nat,
    low: Option<EntryView>,
    high: Option<EntryView>,
    e: EntryView,
    node: InternalView,
    below: Rise,
)
    requires
        shape::branch(pages, capacity, page, height, low, high),
        height > 1,
        pages[page.0 as int] == PageView::Internal(node),
        shape::within(e, low, high),
        !shape::has(pages, page, height, e),
        pages.len() + height < u64::MAX,
        rose(
            pages,
            capacity,
            node.kids[node::place_of(node.seps, e)],
            (height - 1) as nat,
            shape::kid_low(node.seps, low, node::place_of(node.seps, e)),
            shape::kid_high(node.seps, high, node::place_of(node.seps, e)),
            e,
            below,
        ),
    ensures
        ({
            let step = StepView { page, node, place: node::place_of(node.seps, e) };
            &&& insert::step_rise(step, below, capacity) is Ok
            &&& rose(
                pages,
                capacity,
                page,
                height,
                low,
                high,
                e,
                insert::step_rise(step, below, capacity)->Ok_0,
            )
        }),
{
    let h = (height - 1) as nat;
    let place = node::place_of(node.seps, e);
    let step = StepView { page, node, place };
    let s = lemma_row_rose(pages, capacity, page, height, low, high, e, node, below);
    let mid = s.after;
    rewrite::lemma_under(pages, capacity, page, height, low, high, node);
    match below.up {
        None => {
            assert(!shape::inside_row(pages, node.kids, h, page));
            assert(mid[page.0 as int] == pages[page.0 as int]);
            assert(mid =~= mid.update(page.0 as int, PageView::Internal(node)));
            assert(node == (InternalView { kids: node.kids, seps: node.seps }));
            rewrite::lemma_rewrite(
                pages,
                mid,
                mid,
                capacity,
                page,
                height,
                low,
                high,
                node,
                node.kids,
                node.seps,
            );
        },
        Some(promoted) => {
            let taken = internal::internal_with(node, place, promoted.fence, promoted.right);
            tree::lemma_step_rise_placed(pages.len(), step, below, capacity);
            if key::node_size(taken.seps) <= capacity {
                let above = insert::step_rise(step, below, capacity)->Ok_0;
                let last = change::rewritten(page, PageView::Internal(taken));
                change::lemma_one_more(pages, pages.len(), below.changes, last);
                let after = change::applied(pages, above.changes);
                assert(taken == (InternalView { kids: taken.kids, seps: taken.seps }));
                rewrite::lemma_rewrite(
                    pages,
                    mid,
                    after,
                    capacity,
                    page,
                    height,
                    low,
                    high,
                    node,
                    taken.kids,
                    taken.seps,
                );
            } else {
                assert(shape::sound_seps(taken.seps, capacity, low, high));
                lemma_size_with(node.seps, place, promoted.fence);
                assert(taken.seps[place] == promoted.fence);
                lemma_parts_fit(taken.seps, capacity, promoted.fence);
                let above = insert::step_rise(step, below, capacity)->Ok_0;
                let m = node::fence_place(taken.seps);
                let right = insert::page_at(below.next);
                let n = below.changes.len() as int;
                let one = below.changes.push(above.changes[n]);
                change::lemma_one_more(pages, pages.len(), below.changes, above.changes[n]);
                change::lemma_one_more(pages, pages.len(), one, above.changes[n + 1]);
                assert(one.push(above.changes[n + 1]) =~= above.changes);
                let after = change::applied(pages, above.changes);
                rewrite::lemma_rewrite_two(
                    pages,
                    mid,
                    after,
                    capacity,
                    page,
                    height,
                    low,
                    high,
                    node,
                    taken.kids,
                    taken.seps,
                    m,
                    right,
                );
            }
        },
    }
}

/// An insertion under a sound node: where the entry is not held yet, the node
/// is replaced by one or two that hold it as well.
pub proof fn lemma_rose(
    pages: Seq<PageView>,
    capacity: u32,
    page: PageId,
    height: nat,
    low: Option<EntryView>,
    high: Option<EntryView>,
    spec: IndexSpec,
    e: EntryView,
)
    requires
        shape::branch(pages, capacity, page, height, low, high),
        shape::within(e, low, high),
        key::fit_check(spec, e, capacity) is Ok,
        !shape::has(pages, page, height, e),
        pages.len() + height < u64::MAX,
    ensures
        rise_under(pages, capacity, page, height, spec, e) is Ok,
        rose(
            pages,
            capacity,
            page,
            height,
            low,
            high,
            e,
            rise_under(pages, capacity, page, height, spec, e)->Ok_0,
        ),
    decreases height,
{
    if height == 1 {
        lemma_leaf_rose(pages, capacity, page, low, high, spec, e);
    } else {
        find_laws::lemma_read_internal(pages, capacity, page, height, low, high);
        let node = pages[page.0 as int]->Internal_0;
        let h = (height - 1) as nat;
        let place = node::place_of(node.seps, e);
        find_laws::lemma_has_under(pages, capacity, page, height, low, high, node, e);
        assert(shape::row(pages, capacity, node.kids, node.seps, h, low, high));
        find_laws::lemma_place(node.seps, capacity, low, high, e);
        let kl = shape::kid_low(node.seps, low, place);
        let kh = shape::kid_high(node.seps, high, place);
        assert(shape::branch(pages, capacity, node.kids[place], h, kl, kh));
        lemma_rose(pages, capacity, node.kids[place], h, kl, kh, spec, e);
        lemma_rise_step(pages, capacity, page, height, spec, e, node);
        let below = rise_under(pages, capacity, node.kids[place], h, spec, e)->Ok_0;
        lemma_step_rose(pages, capacity, page, height, low, high, e, node, below);
    }
}

} // verus!
