//! What a removal does to a sound tree.
use super::change;
use super::delete;
use super::delete::{Merged, Pending, Sink};
use super::error::IndexError;
use super::find_laws;
use super::insert_laws;
use super::internal;
use super::key;
use super::key::{EntryView, IndexSpec};
use super::merge_laws;
use super::node;
use super::node::{InternalView, LeafView};
use super::pages;
use super::pages::{PageView, StepView};
use super::parts;
use super::rewrite;
use super::rows;
use super::rows::Splice;
use super::shape;
use crate::ids::PageId;
use vstd::prelude::*;

verus! {

/// What a removal under a node comes to.
pub open spec fn sink_under(
    pages: Seq<PageView>,
    capacity: u32,
    page: PageId,
    height: nat,
    spec: IndexSpec,
    entry: EntryView,
) -> Result<Sink, IndexError> {
    match pages::descent(pages, page, height, entry) {
        Err(error) => Err(error),
        Ok(way) => match node::leaf_without(spec, way.leaf, entry) {
            Err(error) => Err(error),
            Ok(leaf) => delete::sunk(
                pages,
                way.path,
                Ok(delete::leaf_sink(way.page, leaf)),
                capacity,
            ),
        },
    }
}

/// Whether every inner node on the way from a node to the leaf of an entry has
/// a separator.
pub open spec fn way_forked(
    pages: Seq<PageView>,
    page: PageId,
    height: nat,
    entry: EntryView,
) -> bool {
    pages::descent(pages, page, height, entry) matches Ok(way) ==> forall|i: int|
        0 <= i < way.path.len() ==> (#[trigger] way.path[i]).node.seps.len() > 0
}

/// Where every inner node under a node has a separator, so has every inner node
/// on a way down.
pub proof fn lemma_forked_way(
    pages: Seq<PageView>,
    capacity: u32,
    page: PageId,
    height: nat,
    low: Option<EntryView>,
    high: Option<EntryView>,
    entry: EntryView,
)
    requires
        shape::branch(pages, capacity, page, height, low, high),
        shape::within(entry, low, high),
        shape::forked(pages, page, height),
    ensures
        way_forked(pages, page, height, entry),
    decreases height,
{
    find_laws::lemma_descent(pages, capacity, page, height, low, high, entry);
    if height > 1 {
        find_laws::lemma_read_internal(pages, capacity, page, height, low, high);
        let node = pages[page.0 as int]->Internal_0;
        let h = (height - 1) as nat;
        let place = node::place_of(node.seps, entry);
        assert(shape::row(pages, capacity, node.kids, node.seps, h, low, high));
        find_laws::lemma_place(node.seps, capacity, low, high, entry);
        let kl = shape::kid_low(node.seps, low, place);
        let kh = shape::kid_high(node.seps, high, place);
        assert(shape::branch(pages, capacity, node.kids[place], h, kl, kh));
        lemma_forked_way(pages, capacity, node.kids[place], h, kl, kh, entry);
        let below = pages::descent(pages, node.kids[place], h, entry)->Ok_0;
        let way = pages::descent(pages, page, height, entry)->Ok_0;
        assert forall|i: int| 0 <= i < way.path.len() implies (
        #[trigger] way.path[i]).node.seps.len() > 0 by {
            if i > 0 {
                assert(way.path[i] == below.path[i - 1]);
            }
        }
    }
}

/// The pages with the changes of a removal, and with the node that is not
/// written yet.
pub open spec fn with_pending(pages: Seq<PageView>, sink: Sink) -> Seq<PageView> {
    let written = change::applied(pages, sink.changes);
    match sink.pending {
        None => written,
        Some(current) => written.update(current.page.0 as int, current.node),
    }
}

/// A removal under a node did what it should: the node is replaced by itself
/// without the entry.
pub open spec fn sank(
    pages: Seq<PageView>,
    capacity: u32,
    page: PageId,
    height: nat,
    low: Option<EntryView>,
    high: Option<EntryView>,
    entry: EntryView,
    sink: Sink,
) -> bool {
    let after = with_pending(pages, sink);
    let one = parts::alone(page);
    &&& change::applied(pages, sink.changes).len() == pages.len()
    &&& sink.pending matches Some(current) ==> current.page == page
    &&& height == 1 ==> sink.pending is Some
    &&& rows::replaces(pages, after, capacity, one, one, Seq::empty(), height, low, high)
    &&& forall|e: EntryView| #[trigger]
        shape::has_row(after, one, height, e) <==> (shape::has(pages, page, height, e) && e
            != entry)
    &&& height > 1 && shape::filled(pages, page, height) ==> shape::filled_row(after, one, height)
    &&& retires(pages, after, page, height, sink.retired)
}

/// Exactly these pages under a node, each once, left the tree.
pub open spec fn retires(
    before: Seq<PageView>,
    after: Seq<PageView>,
    page: PageId,
    height: nat,
    retired: Seq<PageId>,
) -> bool {
    &&& retired.no_duplicates()
    &&& forall|p: PageId| #[trigger]
        retired.contains(p) ==> p != page && shape::inside(before, page, height, p)
    &&& forall|p: PageId| #[trigger]
        shape::inside_row(after, parts::alone(page), height, p) <==> (shape::inside(
            before,
            page,
            height,
            p,
        ) && !retired.contains(p))
}

// ---------------------------------------------------------------------------
// The leaf
// ---------------------------------------------------------------------------
proof fn lemma_size_without(entries: Seq<EntryView>, place: int)
    requires
        0 <= place < entries.len(),
    ensures
        key::node_size(entries.remove(place)) <= key::node_size(entries),
{
    let less = entries.remove(place);
    let n = entries.len() as int;
    key::lemma_front_size_parts(entries, place, n);
    key::lemma_front_size_parts(entries, place + 1, n);
    key::lemma_front_size_parts(less, place, n - 1);
    key::lemma_front_size_alike(less, entries, place);
    assert(less.skip(place) =~= entries.skip(place + 1));
}

/// A removal at a leaf.
proof fn lemma_leaf_sank(
    pages: Seq<PageView>,
    capacity: u32,
    page: PageId,
    low: Option<EntryView>,
    high: Option<EntryView>,
    spec: IndexSpec,
    e: EntryView,
)
    requires
        shape::branch(pages, capacity, page, 1, low, high),
        shape::has(pages, page, 1, e),
        key::entry_check(spec, e) is Ok,
    ensures
        sink_under(pages, capacity, page, 1, spec, e) is Ok,
        sank(
            pages,
            capacity,
            page,
            1,
            low,
            high,
            e,
            sink_under(pages, capacity, page, 1, spec, e)->Ok_0,
        ),
{
    let leaf = pages[page.0 as int]->Leaf_0;
    insert_laws::lemma_leaf_under(pages, page, leaf);
    find_laws::lemma_leaf_holds(leaf.entries, e);
    let entries = leaf.entries;
    let place = node::rank_of(entries, e);
    let less = LeafView { entries: entries.remove(place), next: leaf.next };
    lemma_size_without(entries, place);
    assert forall|i: int| 0 <= i < less.entries.len() implies #[trigger] less.entries[i] == if i
        < place {
        entries[i]
    } else {
        entries[i + 1]
    } by {}
    assert(shape::sound_leaf(less, capacity, low, high));
    let sink = delete::leaf_sink(page, less);
    let after = with_pending(pages, sink);
    insert_laws::lemma_leaf_rewritten(pages, after, capacity, page, low, high, less);
    assert forall|x: EntryView| less.entries.contains(x) <==> (entries.contains(x) && x != e) by {
        if less.entries.contains(x) {
            let i = choose|i: int| 0 <= i < less.entries.len() && less.entries[i] == x;
            if i < place {
                assert(entries[i] == x);
                assert(key::before(entries[i], entries[place]));
                key::lemma_entry_order(entries[i], entries[place]);
            } else {
                assert(entries[i + 1] == x);
                assert(key::before(entries[place], entries[i + 1]));
                key::lemma_entry_order(entries[place], entries[i + 1]);
            }
        }
        if entries.contains(x) && x != e {
            let i = choose|i: int| 0 <= i < entries.len() && entries[i] == x;
            if i < place {
                assert(less.entries[i] == x);
            } else {
                assert(less.entries[i - 1] == x);
            }
        }
    }
    assert forall|x: EntryView| #[trigger] shape::has_row(after, parts::alone(page), 1, x) <==> (
    shape::has(pages, page, 1, x) && x != e) by {
        assert(less.entries.contains(x) <==> (entries.contains(x) && x != e));
    }
    let one = parts::alone(page);
    assert(one[0] == page);
    insert_laws::lemma_leaf_under(after, page, less);
    assert forall|p: PageId| #[trigger] shape::inside_row(after, one, 1, p) <==> shape::inside(
        pages,
        page,
        1,
        p,
    ) by {
        assert(shape::inside(after, one[0], 1, page));
    }
}

// ---------------------------------------------------------------------------
// The nodes above
// ---------------------------------------------------------------------------
/// A removal under an inner node is one under a child and what the node makes
/// of it.
pub proof fn lemma_sink_step(
    pages: Seq<PageView>,
    capacity: u32,
    page: PageId,
    height: nat,
    spec: IndexSpec,
    e: EntryView,
    node: InternalView,
)
    requires
        height > 1,
        pages::internal_read(pages, page) == Ok::<InternalView, IndexError>(node),
    ensures
        sink_under(pages, capacity, page, height, spec, e) == match sink_under(
            pages,
            capacity,
            node.kids[node::place_of(node.seps, e)],
            (height - 1) as nat,
            spec,
            e,
        ) {
            Err(error) => Err(error),
            Ok(below) => delete::step_sink(
                pages,
                StepView { page, node, place: node::place_of(node.seps, e) },
                below,
                capacity,
            ),
        },
        pages::descent(
            pages,
            node.kids[node::place_of(node.seps, e)],
            (height - 1) as nat,
            e,
        ) is Ok && way_forked(pages, page, height, e) ==> node.seps.len() > 0 && way_forked(
            pages,
            node.kids[node::place_of(node.seps, e)],
            (height - 1) as nat,
            e,
        ),
{
    let place = node::place_of(node.seps, e);
    let h = (height - 1) as nat;
    match pages::descent(pages, node.kids[place], h, e) {
        Err(_) => {},
        Ok(below) => {
            let way = pages::descent(pages, page, height, e)->Ok_0;
            assert(way.path.drop_first() =~= below.path);
            assert(way.path[0] == (StepView { page, node, place }));
            if way_forked(pages, page, height, e) {
                assert forall|i: int| 0 <= i < below.path.len() implies (
                #[trigger] below.path[i]).node.seps.len() > 0 by {
                    assert(way.path[i + 1] == below.path[i]);
                }
            }
        },
    }
}

/// The row under a node after a removal under one of its children.
proof fn lemma_row_sank(
    pages: Seq<PageView>,
    capacity: u32,
    page: PageId,
    height: nat,
    low: Option<EntryView>,
    high: Option<EntryView>,
    e: EntryView,
    node: InternalView,
    below: Sink,
) -> (s: Splice)
    requires
        shape::branch(pages, capacity, page, height, low, high),
        height > 1,
        pages[page.0 as int] == PageView::Internal(node),
        shape::within(e, low, high),
        sank(
            pages,
            capacity,
            node.kids[node::place_of(node.seps, e)],
            (height - 1) as nat,
            shape::kid_low(node.seps, low, node::place_of(node.seps, e)),
            shape::kid_high(node.seps, high, node::place_of(node.seps, e)),
            e,
            below,
        ),
    ensures
        s.ok(),
        s.before == pages,
        s.after == with_pending(pages, below),
        s.capacity == capacity,
        s.kids == node.kids,
        s.seps == node.seps,
        s.height == (height - 1) as nat,
        s.low == low,
        s.high == high,
        s.start == node::place_of(node.seps, e),
        s.width == 1,
        s.put_kids == parts::alone(node.kids[s.start]),
        0 <= s.start <= node.seps.len(),
        s.all_kids() == node.kids,
        s.all_seps() == node.seps,
        rows::replaces(
            pages,
            s.after,
            capacity,
            node.kids,
            node.kids,
            node.seps,
            (height - 1) as nat,
            low,
            high,
        ),
        forall|x: EntryView| #[trigger]
            shape::has_row(s.after, node.kids, (height - 1) as nat, x) <==> (shape::has(
                pages,
                page,
                height,
                x,
            ) && x != e),
        forall|p: PageId| #[trigger]
            shape::inside_row(s.after, node.kids, (height - 1) as nat, p) <==> (shape::inside_row(
                pages,
                node.kids,
                (height - 1) as nat,
                p,
            ) && !below.retired.contains(p)),
        forall|p: PageId| #[trigger]
            below.retired.contains(p) ==> p != page && shape::inside(pages, page, height, p),
{
    let h = (height - 1) as nat;
    let place = node::place_of(node.seps, e);
    rewrite::lemma_under(pages, capacity, page, height, low, high, node);
    find_laws::lemma_place(node.seps, capacity, low, high, e);
    let kid = node.kids[place];
    let s = Splice {
        before: pages,
        after: with_pending(pages, below),
        capacity,
        kids: node.kids,
        seps: node.seps,
        height: h,
        low,
        high,
        start: place,
        width: 1,
        put_kids: parts::alone(kid),
        put_seps: Seq::empty(),
    };
    assert(s.cut() =~= parts::alone(kid));
    rows::lemma_splice(s);
    assert(s.all_kids() =~= node.kids);
    assert(s.all_seps() =~= node.seps);
    parts::lemma_single(
        pages,
        capacity,
        kid,
        h,
        shape::kid_low(node.seps, low, place),
        shape::kid_high(node.seps, high, place),
    );
    assert forall|p: PageId| #[trigger] shape::inside_row(s.after, node.kids, h, p) <==> (
    shape::inside_row(pages, node.kids, h, p) && !below.retired.contains(p)) by {
        rows::lemma_splice_inside(s, p);
        assert(shape::inside_row(s.after, s.put_kids, h, p) <==> (shape::inside(pages, kid, h, p)
            && !below.retired.contains(p)));
        assert(shape::inside_row(pages, parts::alone(kid), h, p) <==> shape::inside(
            pages,
            kid,
            h,
            p,
        ));
    }
    assert forall|p: PageId| #[trigger] below.retired.contains(p) implies p != page
        && shape::inside(pages, page, height, p) by {
        assert(shape::inside(pages, node.kids[place], h, p));
        assert(shape::inside_row(pages, node.kids, h, p));
    }
    assert forall|x: EntryView| #[trigger] shape::has_row(s.after, node.kids, h, x) <==> (
    shape::has(pages, page, height, x) && x != e) by {
        rows::lemma_splice_holds(s, x);
        assert(shape::has_row(s.after, s.put_kids, h, x) <==> (shape::has(pages, kid, h, x) && x
            != e));
        if shape::has(pages, page, height, x) {
            let i = choose|i: int|
                0 <= i < node.kids.len() && #[trigger] shape::has(pages, node.kids[i], h, x);
            if i != place {
                assert(rows::has_elsewhere(pages, node.kids, h, place, 1, x));
            }
        }
        if rows::has_elsewhere(pages, node.kids, h, place, 1, x) {
            let i = choose|i: int|
                0 <= i < node.kids.len() && (i < place || i >= place + 1) && #[trigger] shape::has(
                    pages,
                    node.kids[i],
                    h,
                    x,
                );
            assert(shape::has_row(pages, node.kids, h, x));
            if x == e {
                find_laws::lemma_held_within(
                    pages,
                    capacity,
                    node.kids[i],
                    h,
                    shape::kid_low(node.seps, low, i),
                    shape::kid_high(node.seps, high, i),
                    x,
                );
                assert(i == place);
            }
        }
        if shape::has(pages, kid, h, x) {
            assert(shape::has_row(pages, node.kids, h, x));
        }
    }
    s
}

/// A child was written as it is, or nothing is left to do.
proof fn lemma_step_settled(
    pages: Seq<PageView>,
    capacity: u32,
    page: PageId,
    height: nat,
    low: Option<EntryView>,
    high: Option<EntryView>,
    e: EntryView,
    node: InternalView,
    below: Sink,
    above: Sink,
)
    requires
        shape::branch(pages, capacity, page, height, low, high),
        height > 1,
        pages[page.0 as int] == PageView::Internal(node),
        shape::within(e, low, high),
        sank(
            pages,
            capacity,
            node.kids[node::place_of(node.seps, e)],
            (height - 1) as nat,
            shape::kid_low(node.seps, low, node::place_of(node.seps, e)),
            shape::kid_high(node.seps, high, node::place_of(node.seps, e)),
            e,
            below,
        ),
        shape::filled(pages, page, height) ==> shape::filled(
            with_pending(pages, below),
            node.kids[node::place_of(node.seps, e)],
            (height - 1) as nat,
        ),
        above.pending is None,
        above.retired == below.retired,
        with_pending(pages, above) == with_pending(pages, below),
    ensures
        sank(pages, capacity, page, height, low, high, e, above),
{
    let h = (height - 1) as nat;
    let s = lemma_row_sank(pages, capacity, page, height, low, high, e, node, below);
    let mid = s.after;
    rewrite::lemma_under(pages, capacity, page, height, low, high, node);
    assert(!shape::inside_row(pages, node.kids, h, page));
    assert(mid[page.0 as int] == pages[page.0 as int]);
    assert(node == (InternalView { kids: node.kids, seps: node.seps }));
    assert(mid =~= mid.update(page.0 as int, PageView::Internal(node)));
    rewrite::lemma_rewrite(
        pages,
        mid,
        mid,
        capacity,
        page,
        height,
        low,
        high,
        node,
        node.kids,
        node.seps,
    );
    if shape::filled(pages, page, height) {
        let kid = node.kids[s.start];
        assert(s.put_kids[0] == kid);
        assert(shape::filled_row(s.after, s.put_kids, h));
        assert forall|i: int| #[trigger] s.stays(i) implies shape::filled(
            s.before,
            s.kids[i],
            s.height,
        ) by {}
        rows::lemma_splice_filled(s);
    }
}

/// What is known of one of two neighbours after a removal under a child of
/// the row.
proof fn lemma_side(s: Splice, i: int)
    requires
        s.ok(),
        s.width == 1,
        s.put_kids == parts::alone(s.kids[s.start]),
        s.all_kids() == s.kids,
        s.all_seps() == s.seps,
        0 <= i < s.kids.len(),
        s.before.len() == s.after.len(),
    ensures
        shape::kid_sound(s.after, s.capacity, s.kids, s.seps, s.height, s.low, s.high, i),
        forall|p: PageId| #[trigger]
            shape::inside(s.after, s.kids[i], s.height, p) ==> shape::inside(
                s.before,
                s.kids[i],
                s.height,
                p,
            ),
        shape::first_leaf(s.before, s.kids[i], s.height) == shape::first_leaf(
            s.after,
            s.kids[i],
            s.height,
        ),
        shape::next_of(s.before, shape::last_leaf(s.before, s.kids[i], s.height))
            == shape::next_of(s.after, shape::last_leaf(s.after, s.kids[i], s.height)),
        i != s.start ==> s.after[s.kids[i].0 as int] == s.before[s.kids[i].0 as int],
        i != s.start ==> shape::filled(s.before, s.kids[i], s.height) == shape::filled(
            s.after,
            s.kids[i],
            s.height,
        ),
{
    rows::lemma_splice(s);
    assert(shape::kid_sound(s.after, s.capacity, s.kids, s.seps, s.height, s.low, s.high, i)) by {
        let k = s.kids[i];
    }
    if i == s.start {
        let one = parts::alone(s.kids[i]);
        assert(s.cut() =~= one);
        assert(one[0] == s.kids[i] && one.last() == s.kids[i]);
        assert(shape::branch(
            s.before,
            s.capacity,
            s.kids[i],
            s.height,
            shape::kid_low(s.seps, s.low, i),
            shape::kid_high(s.seps, s.high, i),
        ));
        parts::lemma_single(
            s.before,
            s.capacity,
            s.kids[i],
            s.height,
            shape::kid_low(s.seps, s.low, i),
            shape::kid_high(s.seps, s.high, i),
        );
        parts::lemma_single(
            s.after,
            s.capacity,
            s.kids[i],
            s.height,
            shape::kid_low(s.seps, s.low, i),
            shape::kid_high(s.seps, s.high, i),
        );
        assert forall|p: PageId| #[trigger] shape::inside(s.after, s.kids[i], s.height, p) implies shape::inside(
            s.before,
            s.kids[i],
            s.height,
            p,
        ) by {
            assert(shape::inside_row(s.after, one, s.height, p));
            rows::lemma_inside_nodes(
                s.after,
                s.capacity,
                s.kids[i],
                s.height,
                shape::kid_low(s.seps, s.low, i),
                shape::kid_high(s.seps, s.high, i),
                p,
            );
            assert(shape::inside_row(s.before, one, s.height, p));
        }
    } else {
        assert(s.stays(i));
        rows::lemma_untouched(s, i);
        assert(shape::inside(s.before, s.kids[i], s.height, s.kids[i]));
        assert(!shape::inside_row(s.before, s.cut(), s.height, s.kids[i]));
    }
}

/// A child was joined with its neighbour: the row is replaced by one without
/// the separator between them.
#[verifier::rlimit(60)]
proof fn lemma_row_joined(
    s: Splice,
    after: Seq<PageView>,
    k: int,
    all: bool,
)
    requires
        s.ok(),
        s.width == 1,
        s.put_kids == parts::alone(s.kids[s.start]),
        s.all_kids() == s.kids,
        s.all_seps() == s.seps,
        s.before.len() == s.after.len(),
        after.len() == s.after.len(),
        0 <= k < s.seps.len(),
        k == s.start || k + 1 == s.start,
        merge_laws::joined(s.after, s.capacity, s.kids[k], s.seps[k], s.kids[k + 1]) == Some(
            after[s.kids[k].0 as int],
        ),
        forall|p: PageId|
            p.0 < s.after.len() && p != s.kids[k] && p != s.kids[k + 1]
                ==> #[trigger] after[p.0 as int] == s.after[p.0 as int],
        all ==> shape::filled_row(s.before, s.kids, s.height) && (s.height > 1 ==> shape::filled(
            s.after,
            s.kids[s.start],
            s.height,
        )),
    ensures
        rows::replaces(
            s.before,
            after,
            s.capacity,
            s.kids,
            s.kids.remove(k + 1),
            s.seps.remove(k),
            s.height,
            s.low,
            s.high,
        ),
        forall|e: EntryView| #[trigger]
            shape::has_row(after, s.kids.remove(k + 1), s.height, e) <==> shape::has_row(
                s.after,
                s.kids,
                s.height,
                e,
            ),
        all ==> shape::filled_row(after, s.kids.remove(k + 1), s.height),
        forall|p: PageId| #[trigger]
            shape::inside_row(after, s.kids.remove(k + 1), s.height, p) <==> (shape::inside_row(
                s.after,
                s.kids,
                s.height,
                p,
            ) && p != s.kids[k + 1]),
{
    let left = s.kids[k];
    let right = s.kids[k + 1];
    let fence = s.seps[k];
    let kl = shape::kid_low(s.seps, s.low, k);
    let kh = shape::kid_high(s.seps, s.high, k + 1);
    let h = s.height;
    rows::lemma_splice(s);
    lemma_side(s, k);
    lemma_side(s, k + 1);
    assert(shape::apart(s.after, s.kids[k], s.kids[k + 1], h));
    assert(shape::between(s.seps[k], kl, kh)) by {
        assert(shape::between(s.seps[k], s.low, s.high));
    }
    assert(shape::next_of(s.after, shape::last_leaf(s.after, s.kids[k], h)) == Some(
        shape::first_leaf(s.after, s.kids[k + 1], h),
    ));
    assert(shape::kid_high(s.seps, s.high, k) == Some(fence));
    assert(shape::kid_low(s.seps, s.low, k + 1) == Some(fence));
    merge_laws::lemma_joined(s.after, after, s.capacity, left, fence, right, h, kl, kh);
    parts::lemma_single(after, s.capacity, left, h, kl, kh);
    let one = parts::alone(left);
    let two = s.kids.subrange(k, k + 2);
    assert(two[0] == left && two[1] == right && two.last() == right);
    assert(one[0] == left && one.last() == left);
    assert(shape::inside(s.before, left, h, left) && shape::inside(s.before, right, h, right));
    assert forall|p: PageId| p.0 < s.before.len() && !#[trigger] shape::inside_row(
        s.before,
        two,
        h,
        p,
    ) implies after[p.0 as int] == s.before[p.0 as int] by {
        assert(!shape::inside(s.before, two[0], h, p));
        assert(!shape::inside(s.before, two[1], h, p));
        assert(p != left && p != right);
        assert(after[p.0 as int] == s.after[p.0 as int]);
        if shape::inside_row(s.before, s.cut(), h, p) {
            assert(s.cut()[0] == s.kids[s.start]);
            assert(shape::inside(s.before, s.kids[s.start], h, p));
        }
    }
    assert forall|p: PageId| #[trigger] shape::inside_row(after, one, h, p) implies shape::inside_row(
        s.before,
        two,
        h,
        p,
    ) || p.0 >= s.before.len() by {
        assert(shape::inside(after, left, h, p));
        if shape::inside(s.after, left, h, p) {
            assert(shape::inside(s.before, two[0], h, p));
        } else {
            assert(shape::inside(s.after, right, h, p));
            assert(shape::inside(s.before, two[1], h, p));
        }
    }
    let t = Splice {
        before: s.before,
        after,
        capacity: s.capacity,
        kids: s.kids,
        seps: s.seps,
        height: h,
        low: s.low,
        high: s.high,
        start: k,
        width: 2,
        put_kids: one,
        put_seps: Seq::empty(),
    };
    assert(t.cut() =~= two);
    rows::lemma_splice(t);
    assert(t.all_kids() =~= s.kids.remove(k + 1));
    assert(t.all_seps() =~= s.seps.remove(k));
    assert forall|e: EntryView| #[trigger] shape::has_row(after, s.kids.remove(k + 1), h, e)
        <==> shape::has_row(s.after, s.kids, h, e) by {
        lemma_joined_holds(s, t, k, e);
    }
    assert forall|p: PageId| #[trigger] shape::inside_row(after, s.kids.remove(k + 1), h, p) <==> (
    shape::inside_row(s.after, s.kids, h, p) && p != s.kids[k + 1]) by {
        lemma_joined_inside(s, t, k, p);
    }
    if all {
        assert(shape::filled(s.before, s.kids[k], h));
        assert(shape::filled(s.before, s.kids[k + 1], h));
        assert(shape::filled(after, one[0], h));
        assert(shape::filled_row(after, t.put_kids, h));
        assert forall|i: int| #[trigger] t.stays(i) implies shape::filled(
            t.before,
            t.kids[i],
            t.height,
        ) by {
            assert(shape::filled(s.before, s.kids[i], h));
        }
        rows::lemma_splice_filled(t);
    }
}

/// Joining two neighbours takes the page of the right one out of the row, and
/// no other.
proof fn lemma_joined_inside(s: Splice, t: Splice, k: int, p: PageId)
    requires
        s.ok(),
        t.ok(),
        s.width == 1,
        s.put_kids == parts::alone(s.kids[s.start]),
        s.all_kids() == s.kids,
        s.all_seps() == s.seps,
        0 <= k < s.kids.len() - 1,
        k == s.start || k + 1 == s.start,
        t.before == s.before,
        t.kids == s.kids,
        t.height == s.height,
        t.start == k,
        t.width == 2,
        t.put_kids == parts::alone(s.kids[k]),
        shape::inside(t.after, s.kids[k], s.height, p) <==> (shape::inside(
            s.after,
            s.kids[k],
            s.height,
            p,
        ) || shape::inside(s.after, s.kids[k + 1], s.height, p)) && p != s.kids[k + 1],
    ensures
        shape::inside_row(t.after, t.all_kids(), s.height, p) <==> (shape::inside_row(
            s.after,
            s.kids,
            s.height,
            p,
        ) && p != s.kids[k + 1]),
{
    let h = s.height;
    rows::lemma_splice_inside(t, p);
    let one = parts::alone(s.kids[k]);
    assert(one[0] == s.kids[k]);
    if shape::inside_row(t.after, one, h, p) {
        let j = choose|j: int| 0 <= j < one.len() && #[trigger] shape::inside(t.after, one[j], h, p);
        assert(shape::inside(t.after, s.kids[k], h, p));
        if shape::inside(s.after, s.kids[k], h, p) {
            assert(shape::inside_row(s.after, s.kids, h, p));
        } else {
            assert(shape::inside(s.after, s.kids[k + 1], h, p));
        }
    }
    if rows::inside_elsewhere(s.before, s.kids, h, k, 2, p) {
        let i = choose|i: int|
            0 <= i < s.kids.len() && (i < k || i >= k + 2) && #[trigger] shape::inside(
                s.before,
                s.kids[i],
                h,
                p,
            );
        assert(s.stays(i));
        rows::lemma_untouched(s, i);
        assert(shape::inside(s.after, s.kids[i], h, p));
        if p == s.kids[k + 1] {
            assert(shape::inside(s.before, s.kids[k + 1], h, p));
            assert(shape::apart(s.before, s.kids[i], s.kids[k + 1], h));
        }
    }
    if shape::inside_row(s.after, s.kids, h, p) {
        let i = choose|i: int|
            0 <= i < s.kids.len() && #[trigger] shape::inside(s.after, s.kids[i], h, p);
        if i == k || i == k + 1 {
            if p != s.kids[k + 1] {
                assert(shape::inside(t.after, one[0], h, p));
            }
        } else {
            assert(s.stays(i));
            rows::lemma_untouched(s, i);
            assert(shape::inside(s.before, s.kids[i], h, p));
        }
    }
}

/// Joining two neighbours changes nothing in what the row holds.
proof fn lemma_joined_holds(s: Splice, t: Splice, k: int, e: EntryView)
    requires
        s.ok(),
        t.ok(),
        s.width == 1,
        s.put_kids == parts::alone(s.kids[s.start]),
        s.all_kids() == s.kids,
        0 <= k < s.kids.len() - 1,
        k == s.start || k + 1 == s.start,
        t.before == s.before,
        t.kids == s.kids,
        t.height == s.height,
        t.start == k,
        t.width == 2,
        t.put_kids == parts::alone(s.kids[k]),
        shape::has(t.after, s.kids[k], s.height, e) <==> (shape::has(
            s.after,
            s.kids[k],
            s.height,
            e,
        ) || shape::has(s.after, s.kids[k + 1], s.height, e)),
    ensures
        shape::has_row(t.after, t.all_kids(), s.height, e) <==> shape::has_row(
            s.after,
            s.kids,
            s.height,
            e,
        ),
{
    let h = s.height;
    rows::lemma_splice_holds(t, e);
    let one = parts::alone(s.kids[k]);
    assert(one[0] == s.kids[k]);
    if shape::has_row(t.after, one, h, e) {
        let j = choose|j: int| 0 <= j < one.len() && #[trigger] shape::has(t.after, one[j], h, e);
        assert(shape::has(t.after, s.kids[k], h, e));
        if shape::has(s.after, s.kids[k], h, e) {
            assert(shape::has_row(s.after, s.kids, h, e));
        } else {
            assert(shape::has(s.after, s.kids[k + 1], h, e));
        }
    }
    if rows::has_elsewhere(s.before, s.kids, h, k, 2, e) {
        let i = choose|i: int|
            0 <= i < s.kids.len() && (i < k || i >= k + 2) && #[trigger] shape::has(
                s.before,
                s.kids[i],
                h,
                e,
            );
        assert(s.stays(i));
        rows::lemma_untouched(s, i);
        assert(shape::has(s.after, s.kids[i], h, e));
    }
    if shape::has_row(s.after, s.kids, h, e) {
        let i = choose|i: int|
            0 <= i < s.kids.len() && #[trigger] shape::has(s.after, s.kids[i], h, e);
        if i == k || i == k + 1 {
            assert(shape::has(t.after, one[0], h, e));
        } else {
            assert(s.stays(i));
            rows::lemma_untouched(s, i);
            assert(shape::has(s.before, s.kids[i], h, e));
        }
    }
}

/// What the node makes of a child that lost something: it is joined with its
/// neighbour where the two fit in one page.
proof fn lemma_merge_of(s: Splice, current: Pending)
    requires
        s.ok(),
        s.width == 1,
        s.put_kids == parts::alone(s.kids[s.start]),
        s.all_kids() == s.kids,
        s.all_seps() == s.seps,
        s.before.len() == s.after.len(),
        s.seps.len() > 0,
        current.page == s.kids[s.start],
        current.node == s.after[current.page.0 as int],
        shape::filled_row(s.before, s.kids, s.height),
    ensures
        ({
            let node = InternalView { kids: s.kids, seps: s.seps };
            let k = delete::merge_place(node, s.start);
            let outcome = delete::merge_of(s.before, node, s.start, current, s.capacity);
            &&& 0 <= k < s.seps.len()
            &&& k == s.start || k + 1 == s.start
            &&& match merge_laws::joined(
                s.after,
                s.capacity,
                s.kids[k],
                s.seps[k],
                s.kids[k + 1],
            ) {
                None => outcome == Ok::<Option<Merged>, IndexError>(None),
                Some(page) => outcome == Ok::<Option<Merged>, IndexError>(
                    Some(Merged { page: s.kids[k], node: page, place: k }),
                ),
            }
        }),
{
    let node = InternalView { kids: s.kids, seps: s.seps };
    let k = delete::merge_place(node, s.start);
    let h = s.height;
    rows::lemma_splice(s);
    lemma_side(s, k);
    lemma_side(s, k + 1);
    assert(shape::apart(s.after, s.kids[k], s.kids[k + 1], h));
    assert(shape::inside(s.after, s.kids[k], h, s.kids[k]));
    assert(shape::inside(s.after, s.kids[k + 1], h, s.kids[k + 1]));
    assert(s.kids[k] != s.kids[k + 1]);
    let sib = if k == s.start {
        k + 1
    } else {
        k
    };
    assert(shape::branch(
        s.before,
        s.capacity,
        s.kids[sib],
        h,
        shape::kid_low(s.seps, s.low, sib),
        shape::kid_high(s.seps, s.high, sib),
    ));
    assert(shape::filled(s.before, s.kids[sib], h));
    assert(shape::next_of(s.after, shape::last_leaf(s.after, s.kids[k], h)) == Some(
        shape::first_leaf(s.after, s.kids[k + 1], h),
    ));
    if h > 1 {
        find_laws::lemma_read_internal(
            s.before,
            s.capacity,
            s.kids[sib],
            h,
            shape::kid_low(s.seps, s.low, sib),
            shape::kid_high(s.seps, s.high, sib),
        );
    }
}

/// An empty leaf is always joined, so one that is written is not empty.
proof fn lemma_written_leaf(s: Splice, current: Pending, e: EntryView)
    requires
        s.ok(),
        s.width == 1,
        s.put_kids == parts::alone(s.kids[s.start]),
        s.all_kids() == s.kids,
        s.all_seps() == s.seps,
        s.before.len() == s.after.len(),
        s.seps.len() > 0,
        s.height == 1,
        current.page == s.kids[s.start],
        current.node == s.after[current.page.0 as int],
        shape::filled_row(s.before, s.kids, s.height),
        key::is_light(e, s.capacity),
        delete::page_size(current.node) >= s.capacity / 2 || delete::merge_of(
            s.before,
            (InternalView { kids: s.kids, seps: s.seps }),
            s.start,
            current,
            s.capacity,
        ) == Ok::<Option<Merged>, IndexError>(None),
    ensures
        shape::filled(s.after, s.kids[s.start], 1),
{
    lemma_merge_of(s, current);
    let node = InternalView { kids: s.kids, seps: s.seps };
    let k = delete::merge_place(node, s.start);
    lemma_side(s, k);
    lemma_side(s, k + 1);
    let leaf = current.node->Leaf_0;
    if leaf.entries.len() == 0 {
        assert(key::node_size(leaf.entries) == key::NODE_HEADER_BYTES);
        assert(key::entry_size(e) >= 23);
        let l = s.after[s.kids[k].0 as int]->Leaf_0;
        let r = s.after[s.kids[k + 1].0 as int]->Leaf_0;
        if k == s.start {
            assert(l.entries + r.entries =~= r.entries);
        } else {
            assert(l.entries + r.entries =~= l.entries);
        }
        assert(false);
    }
}

/// A removal under an inner node.
#[verifier::rlimit(40)]
proof fn lemma_step_sank(
    pages: Seq<PageView>,
    capacity: u32,
    page: PageId,
    height: nat,
    low: Option<EntryView>,
    high: Option<EntryView>,
    e: EntryView,
    node: InternalView,
    below: Sink,
)
    requires
        shape::branch(pages, capacity, page, height, low, high),
        height > 1,
        pages[page.0 as int] == PageView::Internal(node),
        shape::within(e, low, high),
        key::is_light(e, capacity),
        shape::filled(pages, page, height),
        sank(
            pages,
            capacity,
            node.kids[node::place_of(node.seps, e)],
            (height - 1) as nat,
            shape::kid_low(node.seps, low, node::place_of(node.seps, e)),
            shape::kid_high(node.seps, high, node::place_of(node.seps, e)),
            e,
            below,
        ),
    ensures
        ({
            let step = StepView { page, node, place: node::place_of(node.seps, e) };
            let outcome = delete::step_sink(pages, step, below, capacity);
            &&& node.seps.len() > 0 ==> outcome is Ok
            &&& outcome matches Err(error) ==> error == IndexError::InvalidNodeType
            &&& outcome matches Ok(above) ==> sank(
                pages,
                capacity,
                page,
                height,
                low,
                high,
                e,
                above,
            )
        }),
{
    let h = (height - 1) as nat;
    let place = node::place_of(node.seps, e);
    let step = StepView { page, node, place };
    let s = lemma_row_sank(pages, capacity, page, height, low, high, e, node, below);
    rewrite::lemma_under(pages, capacity, page, height, low, high, node);
    let kid = node.kids[place];
    let mid = s.after;
    assert(node == (InternalView { kids: s.kids, seps: s.seps }));
    assert(shape::filled(pages, node.kids[place], h));
    if h > 1 {
        assert(parts::alone(kid)[0] == kid);
        assert(shape::filled(mid, parts::alone(kid)[0], h));
    }
    match below.pending {
        None => {
            lemma_step_settled(pages, capacity, page, height, low, high, e, node, below, below);
        },
        Some(current) => {
            let base = change::applied(pages, below.changes);
            assert(shape::inside(pages, kid, h, kid));
            assert(shape::branch(
                pages,
                capacity,
                kid,
                h,
                shape::kid_low(node.seps, low, place),
                shape::kid_high(node.seps, high, place),
            ));
            assert(mid[kid.0 as int] == current.node);
            let written = Sink {
                changes: below.changes.push(change::rewritten(current.page, current.node)),
                retired: below.retired,
                pending: None,
            };
            change::lemma_one_more(
                pages,
                pages.len(),
                below.changes,
                change::rewritten(current.page, current.node),
            );
            assert(with_pending(pages, written) == mid);
            let outcome = delete::step_sink(pages, step, below, capacity);
            if node.seps.len() == 0 {
                if delete::page_size(current.node) >= capacity / 2 {
                    if h == 1 {
                        lemma_lone_leaf(s, current, e);
                    }
                    lemma_step_settled(
                        pages,
                        capacity,
                        page,
                        height,
                        low,
                        high,
                        e,
                        node,
                        below,
                        written,
                    );
                }
            } else {
                lemma_merge_of(s, current);
                let k = delete::merge_place(node, place);
                if delete::page_size(current.node) >= capacity / 2 || delete::merge_of(
                    pages,
                    node,
                    place,
                    current,
                    capacity,
                )->Ok_0 is None {
                    if h == 1 {
                        lemma_written_leaf(s, current, e);
                    }
                    assert(outcome == Ok::<Sink, IndexError>(written));
                    lemma_step_settled(
                        pages,
                        capacity,
                        page,
                        height,
                        low,
                        high,
                        e,
                        node,
                        below,
                        written,
                    );
                } else {
                    let merged = (delete::merge_of(pages, node, place, current, capacity)->Ok_0)->0;
                    let last = change::rewritten(merged.page, merged.node);
                    change::lemma_one_more(pages, pages.len(), below.changes, last);
                    let joined = base.update(merged.page.0 as int, merged.node);
                    assert(shape::branch(
                        pages,
                        capacity,
                        s.kids[k],
                        h,
                        shape::kid_low(node.seps, low, k),
                        shape::kid_high(node.seps, high, k),
                    ));
                    lemma_row_joined(s, joined, k, true);
                    let less = internal::internal_without(node, k);
                    lemma_size_without(node.seps, k);
                    let above = outcome->Ok_0;
                    let after = with_pending(pages, above);
                    assert(less == (InternalView { kids: less.kids, seps: less.seps }));
                    rewrite::lemma_rewrite(
                        pages,
                        joined,
                        after,
                        capacity,
                        page,
                        height,
                        low,
                        high,
                        node,
                        less.kids,
                        less.seps,
                    );
                    let right = node.kids[k + 1];
                    assert(shape::inside(mid, s.kids[k + 1], h, right));
                    assert(shape::inside_row(mid, node.kids, h, right));
                    assert(shape::inside_row(pages, node.kids, h, right));
                    assert(!below.retired.contains(right));
                    assert(above.retired == below.retired.push(right));
                    lemma_one_more_retired(below.retired, right);
                }
            }
        },
    }
}

/// One more page that left the tree.
pub proof fn lemma_one_more_retired(retired: Seq<PageId>, page: PageId)
    requires
        retired.no_duplicates(),
        !retired.contains(page),
    ensures
        retired.push(page).no_duplicates(),
        forall|p: PageId| #[trigger]
            retired.push(page).contains(p) <==> (retired.contains(p) || p == page),
{
    let more = retired.push(page);
    assert forall|p: PageId| #[trigger] more.contains(p) <==> (retired.contains(p) || p
        == page) by {
        if retired.contains(p) {
            let i = choose|i: int| 0 <= i < retired.len() && retired[i] == p;
            assert(more[i] == p);
        }
        if p == page {
            assert(more[retired.len() as int] == p);
        }
        if more.contains(p) && p != page {
            let i = choose|i: int| 0 <= i < more.len() && more[i] == p;
            assert(retired[i] == p);
        }
    }
    assert forall|i: int, j: int| 0 <= i < more.len() && 0 <= j < more.len() && i != j implies more[i]
        != more[j] by {
        if i < retired.len() && j < retired.len() {
            assert(retired[i] != retired[j]);
        } else if i < retired.len() {
            assert(retired.contains(retired[i]));
        } else {
            assert(retired.contains(retired[j]));
        }
    }
}

/// What a longer list has.
pub proof fn lemma_pushed(retired: Seq<PageId>, page: PageId, p: PageId)
    ensures
        retired.push(page).contains(p) ==> retired.contains(p) || p == page,
{
    let more = retired.push(page);
    if more.contains(p) && p != page {
        let i = choose|i: int| 0 <= i < more.len() && more[i] == p;
        assert(retired[i] == p);
    }
}

/// A leaf that is large enough to stay is not empty.
proof fn lemma_lone_leaf(s: Splice, current: Pending, e: EntryView)
    requires
        s.ok(),
        s.width == 1,
        s.put_kids == parts::alone(s.kids[s.start]),
        s.all_kids() == s.kids,
        s.all_seps() == s.seps,
        s.before.len() == s.after.len(),
        s.height == 1,
        current.page == s.kids[s.start],
        current.node == s.after[current.page.0 as int],
        key::is_light(e, s.capacity),
        delete::page_size(current.node) >= s.capacity / 2,
    ensures
        shape::filled(s.after, s.kids[s.start], 1),
{
    lemma_side(s, s.start);
    let leaf = current.node->Leaf_0;
    if leaf.entries.len() == 0 {
        assert(key::node_size(leaf.entries) == key::NODE_HEADER_BYTES);
        assert(key::entry_size(e) >= 23);
        assert(false);
    }
}

/// A removal under a sound node that holds the entry: where every inner node
/// on the way to it has a separator it succeeds, and where it succeeds the node
/// is replaced by itself without the entry.
pub proof fn lemma_sank(
    pages: Seq<PageView>,
    capacity: u32,
    page: PageId,
    height: nat,
    low: Option<EntryView>,
    high: Option<EntryView>,
    spec: IndexSpec,
    e: EntryView,
)
    requires
        shape::branch(pages, capacity, page, height, low, high),
        shape::has(pages, page, height, e),
        key::entry_check(spec, e) is Ok,
        height > 1 ==> shape::filled(pages, page, height),
    ensures
        way_forked(pages, page, height, e) ==> sink_under(
            pages,
            capacity,
            page,
            height,
            spec,
            e,
        ) is Ok,
        sink_under(pages, capacity, page, height, spec, e) matches Err(error) ==> error
            == IndexError::InvalidNodeType,
        sink_under(pages, capacity, page, height, spec, e) matches Ok(sink) ==> sank(
            pages,
            capacity,
            page,
            height,
            low,
            high,
            e,
            sink,
        ),
    decreases height,
{
    find_laws::lemma_held_within(pages, capacity, page, height, low, high, e);
    if height == 1 {
        lemma_leaf_sank(pages, capacity, page, low, high, spec, e);
    } else {
        find_laws::lemma_read_internal(pages, capacity, page, height, low, high);
        let node = pages[page.0 as int]->Internal_0;
        let h = (height - 1) as nat;
        let place = node::place_of(node.seps, e);
        find_laws::lemma_has_under(pages, capacity, page, height, low, high, node, e);
        assert(shape::row(pages, capacity, node.kids, node.seps, h, low, high));
        let kl = shape::kid_low(node.seps, low, place);
        let kh = shape::kid_high(node.seps, high, place);
        assert(shape::branch(pages, capacity, node.kids[place], h, kl, kh));
        rewrite::lemma_under(pages, capacity, page, height, low, high, node);
        assert(shape::filled(pages, node.kids[place], h));
        lemma_sank(pages, capacity, node.kids[place], h, kl, kh, spec, e);
        find_laws::lemma_place(node.seps, capacity, low, high, e);
        find_laws::lemma_descent(pages, capacity, node.kids[place], h, kl, kh, e);
        lemma_sink_step(pages, capacity, page, height, spec, e, node);
        if sink_under(pages, capacity, node.kids[place], h, spec, e) is Ok {
            let below = sink_under(pages, capacity, node.kids[place], h, spec, e)->Ok_0;
            lemma_step_sank(pages, capacity, page, height, low, high, e, node, below);
        }
    }
}

} // verus!
