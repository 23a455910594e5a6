//! Replacing, parting and joining neighbouring nodes of a tree.
use super::key;
use super::key::EntryView;
use super::pages;
use super::pages::PageView;
use super::shape;
use crate::ids::PageId;
use vstd::prelude::*;

verus! {

/// Every page under a sound node lies in the file and holds a node.
pub proof fn lemma_inside_nodes(
    pages: Seq<PageView>,
    capacity: u32,
    page: PageId,
    height: nat,
    low: Option<EntryView>,
    high: Option<EntryView>,
    p: PageId,
)
    requires
        shape::branch(pages, capacity, page, height, low, high),
        shape::inside(pages, page, height, p),
    ensures
        pages::is_child(pages, p),
        pages[p.0 as int] is Leaf || pages[p.0 as int] is Internal,
    decreases height,
{
    if p != page {
        let node = pages[page.0 as int]->Internal_0;
        let h = (height - 1) as nat;
        let i = choose|i: int|
            0 <= i < node.kids.len() && shape::inside(pages, #[trigger] node.kids[i], h, p);
        assert(shape::row(pages, capacity, node.kids, node.seps, h, low, high));
        lemma_inside_nodes(
            pages,
            capacity,
            node.kids[i],
            h,
            shape::kid_low(node.seps, low, i),
            shape::kid_high(node.seps, high, i),
            p,
        );
    }
}

/// A row of nodes after `before` stands where another stood in it: the new
/// row is sound, nothing outside the old row was touched, and what leads to
/// it and from it is the same.
pub open spec fn replaces(
    before: Seq<PageView>,
    after: Seq<PageView>,
    capacity: u32,
    old_kids: Seq<PageId>,
    kids: Seq<PageId>,
    seps: Seq<EntryView>,
    height: nat,
    low: Option<EntryView>,
    high: Option<EntryView>,
) -> bool {
    &&& shape::row(after, capacity, kids, seps, height, low, high)
    &&& before.len() <= after.len()
    &&& shape::first_leaf(after, kids[0], height) == shape::first_leaf(
        before,
        old_kids[0],
        height,
    )
    &&& shape::next_of(after, shape::last_leaf(after, kids.last(), height)) == shape::next_of(
        before,
        shape::last_leaf(before, old_kids.last(), height),
    )
    &&& forall|p: PageId|
        p.0 < before.len() && !#[trigger] shape::inside_row(before, old_kids, height, p)
            ==> after[p.0 as int] == before[p.0 as int]
    &&& forall|p: PageId| #[trigger]
        shape::inside_row(after, kids, height, p) ==> shape::inside_row(
            before,
            old_kids,
            height,
            p,
        ) || p.0 >= before.len()
}

/// The nodes of a row with some of them replaced.
pub open spec fn spliced_kids(
    kids: Seq<PageId>,
    start: int,
    width: int,
    put: Seq<PageId>,
) -> Seq<PageId> {
    kids.take(start) + put + kids.skip(start + width)
}

/// The separators of a row with some of its nodes replaced.
pub open spec fn spliced_seps(
    seps: Seq<EntryView>,
    start: int,
    width: int,
    put: Seq<EntryView>,
) -> Seq<EntryView> {
    seps.take(start) + put + seps.skip(start + width - 1)
}

/// Whether a node of a row that was not replaced holds an entry.
pub open spec fn has_elsewhere(
    pages: Seq<PageView>,
    kids: Seq<PageId>,
    height: nat,
    start: int,
    width: int,
    entry: EntryView,
) -> bool {
    exists|i: int|
        0 <= i < kids.len() && (i < start || i >= start + width) && #[trigger] shape::has(
            pages,
            kids[i],
            height,
            entry,
        )
}

/// The separators of a row stay sound where some are replaced by others that
/// lie between the same bounds.
proof fn lemma_spliced_seps(
    capacity: u32,
    seps: Seq<EntryView>,
    low: Option<EntryView>,
    high: Option<EntryView>,
    start: int,
    width: int,
    put: Seq<EntryView>,
)
    requires
        shape::sound_seps(seps, capacity, low, high),
        0 <= start,
        1 <= width,
        start + width <= seps.len() + 1,
        shape::sound_seps(
            put,
            capacity,
            shape::kid_low(seps, low, start),
            shape::kid_high(seps, high, start + width - 1),
        ),
    ensures
        shape::sound_seps(spliced_seps(seps, start, width, put), capacity, low, high),
{
    let all = spliced_seps(seps, start, width, put);
    let m = put.len() as int;
    let kl = shape::kid_low(seps, low, start);
    let kh = shape::kid_high(seps, high, start + width - 1);
    assert forall|i: int| 0 <= i < put.len() implies shape::between(put[i], low, high) by {
        assert(shape::between(put[i], kl, kh));
        if start > 0 && low is Some {
            assert(shape::between(seps[start - 1], low, high));
            key::law_entry_order_is_transitive(low->0, seps[start - 1], put[i]);
        }
        if start + width - 1 < seps.len() && high is Some {
            assert(shape::between(seps[start + width - 1], low, high));
            key::law_entry_order_is_transitive(put[i], seps[start + width - 1], high->0);
        }
    }
    assert forall|i: int| 0 <= i < all.len() implies shape::between(#[trigger] all[i], low, high)
        && key::is_light(all[i], capacity) by {
        if i < start {
            assert(all[i] == seps[i]);
        } else if i < start + m {
            assert(all[i] == put[i - start]);
        } else {
            assert(all[i] == seps[i - m + width - 1]);
        }
    }
    assert forall|i: int, j: int| 0 <= i < j < all.len() implies key::before(
        #[trigger] all[i],
        #[trigger] all[j],
    ) by {
        if i < start {
            assert(all[i] == seps[i]);
            if j < start {
                assert(all[j] == seps[j]);
            } else if j < start + m {
                assert(all[j] == put[j - start]);
                assert(shape::between(put[j - start], kl, kh));
                if i < start - 1 {
                    assert(key::before(seps[i], seps[start - 1]));
                    key::law_entry_order_is_transitive(seps[i], seps[start - 1], put[j - start]);
                }
            } else {
                assert(all[j] == seps[j - m + width - 1]);
            }
        } else if i < start + m {
            assert(all[i] == put[i - start]);
            assert(shape::between(put[i - start], kl, kh));
            if j < start + m {
                assert(all[j] == put[j - start]);
            } else {
                let t = j - m + width - 1;
                assert(all[j] == seps[t]);
                if t > start + width - 1 {
                    assert(key::before(seps[start + width - 1], seps[t]));
                    key::law_entry_order_is_transitive(
                        put[i - start],
                        seps[start + width - 1],
                        seps[t],
                    );
                }
            }
        } else {
            assert(all[i] == seps[i - m + width - 1]);
            assert(all[j] == seps[j - m + width - 1]);
        }
    }
}

/// Some nodes of a row and what they are replaced with.
pub struct Splice {
    pub before: Seq<PageView>,
    pub after: Seq<PageView>,
    pub capacity: u32,
    pub kids: Seq<PageId>,
    pub seps: Seq<EntryView>,
    pub height: nat,
    pub low: Option<EntryView>,
    pub high: Option<EntryView>,
    pub start: int,
    pub width: int,
    pub put_kids: Seq<PageId>,
    pub put_seps: Seq<EntryView>,
}

impl Splice {
    /// The nodes that are replaced.
    pub open spec fn cut(self) -> Seq<PageId> {
        self.kids.subrange(self.start, self.start + self.width)
    }

    /// The nodes of the row afterwards.
    pub open spec fn all_kids(self) -> Seq<PageId> {
        spliced_kids(self.kids, self.start, self.width, self.put_kids)
    }

    /// The separators of the row afterwards.
    pub open spec fn all_seps(self) -> Seq<EntryView> {
        spliced_seps(self.seps, self.start, self.width, self.put_seps)
    }

    /// Whether a node of the old row is not replaced.
    pub open spec fn stays(self, i: int) -> bool {
        0 <= i < self.kids.len() && (i < self.start || i >= self.start + self.width)
    }

    /// Whether a node of the new row is one of those put in.
    pub open spec fn is_put(self, t: int) -> bool {
        self.start <= t < self.start + self.put_kids.len()
    }

    /// The place in the old row of a node of the new row that stays.
    pub open spec fn origin(self, t: int) -> int {
        if t < self.start {
            t
        } else {
            t - self.put_kids.len() + self.width
        }
    }

    /// The row is sound, and some of its nodes are replaced.
    pub open spec fn ok(self) -> bool {
        &&& shape::row(
            self.before,
            self.capacity,
            self.kids,
            self.seps,
            self.height,
            self.low,
            self.high,
        )
        &&& 0 <= self.start
        &&& 1 <= self.width
        &&& self.start + self.width <= self.kids.len()
        &&& replaces(
            self.before,
            self.after,
            self.capacity,
            self.cut(),
            self.put_kids,
            self.put_seps,
            self.height,
            shape::kid_low(self.seps, self.low, self.start),
            shape::kid_high(self.seps, self.high, self.start + self.width - 1),
        )
    }
}

/// What is known of a node of the row that stays.
pub proof fn lemma_untouched(s: Splice, i: int)
    requires
        s.ok(),
        s.stays(i),
    ensures
        shape::kid_sound(s.before, s.capacity, s.kids, s.seps, s.height, s.low, s.high, i),
        shape::kid_sound(s.after, s.capacity, s.kids, s.seps, s.height, s.low, s.high, i),
        forall|p: PageId| #[trigger]
            shape::inside(s.before, s.kids[i], s.height, p) ==> p.0 < s.before.len()
                && !shape::inside_row(s.before, s.cut(), s.height, p),
        forall|p: PageId|
            #![trigger shape::inside(s.before, s.kids[i], s.height, p)]
            #![trigger shape::inside(s.after, s.kids[i], s.height, p)]
            shape::inside(s.before, s.kids[i], s.height, p) == shape::inside(
                s.after,
                s.kids[i],
                s.height,
                p,
            ),
        forall|e: EntryView|
            #![trigger shape::has(s.before, s.kids[i], s.height, e)]
            #![trigger shape::has(s.after, s.kids[i], s.height, e)]
            shape::has(s.before, s.kids[i], s.height, e) == shape::has(
                s.after,
                s.kids[i],
                s.height,
                e,
            ),
        shape::first_leaf(s.before, s.kids[i], s.height) == shape::first_leaf(
            s.after,
            s.kids[i],
            s.height,
        ),
        shape::last_leaf(s.before, s.kids[i], s.height) == shape::last_leaf(
            s.after,
            s.kids[i],
            s.height,
        ),
        shape::next_of(s.before, shape::last_leaf(s.before, s.kids[i], s.height))
            == shape::next_of(s.after, shape::last_leaf(s.after, s.kids[i], s.height)),
        shape::filled(s.before, s.kids[i], s.height) == shape::filled(
            s.after,
            s.kids[i],
            s.height,
        ),
{
    let cut = s.cut();
    let low = shape::kid_low(s.seps, s.low, i);
    let high = shape::kid_high(s.seps, s.high, i);
    assert(shape::branch(s.before, s.capacity, s.kids[i], s.height, low, high));
    assert forall|p: PageId| #[trigger] shape::inside(s.before, s.kids[i], s.height, p) implies p.0
        < s.before.len() && !shape::inside_row(s.before, cut, s.height, p) by {
        lemma_inside_nodes(s.before, s.capacity, s.kids[i], s.height, low, high, p);
        if shape::inside_row(s.before, cut, s.height, p) {
            let j = choose|j: int|
                0 <= j < cut.len() && #[trigger] shape::inside(s.before, cut[j], s.height, p);
            assert(cut[j] == s.kids[s.start + j]);
            assert(shape::apart(s.before, s.kids[i], s.kids[s.start + j], s.height));
        }
    }
    assert(shape::alike(s.before, s.after, s.kids[i], s.height));
    shape::lemma_alike(s.before, s.after, s.capacity, s.kids[i], s.height, low, high);
}

/// Where a node of the new row comes from.
proof fn lemma_origin(s: Splice, t: int)
    requires
        s.ok(),
        0 <= t < s.all_kids().len(),
    ensures
        s.all_kids().len() == s.kids.len() - s.width + s.put_kids.len(),
        s.put_kids.len() == s.put_seps.len() + 1,
        s.is_put(t) ==> s.all_kids()[t] == s.put_kids[t - s.start],
        !s.is_put(t) ==> s.stays(s.origin(t)) && s.all_kids()[t] == s.kids[s.origin(t)],
{
}

/// Every node of the new row is sound between its separators.
proof fn lemma_splice_branch(s: Splice, t: int)
    requires
        s.ok(),
        0 <= t < s.all_kids().len(),
    ensures
        shape::branch(
            s.after,
            s.capacity,
            s.all_kids()[t],
            s.height,
            shape::kid_low(s.all_seps(), s.low, t),
            shape::kid_high(s.all_seps(), s.high, t),
        ),
{
    lemma_origin(s, t);
    let kl = shape::kid_low(s.seps, s.low, s.start);
    let kh = shape::kid_high(s.seps, s.high, s.start + s.width - 1);
    let all_seps = s.all_seps();
    let m = s.put_kids.len() as int;
    if s.is_put(t) {
        let j = t - s.start;
        assert(shape::branch(
            s.after,
            s.capacity,
            s.put_kids[j],
            s.height,
            shape::kid_low(s.put_seps, kl, j),
            shape::kid_high(s.put_seps, kh, j),
        ));
        assert(shape::kid_low(all_seps, s.low, t) == shape::kid_low(s.put_seps, kl, j));
        assert(shape::kid_high(all_seps, s.high, t) == shape::kid_high(s.put_seps, kh, j));
    } else {
        let i = s.origin(t);
        lemma_untouched(s, i);
        assert(shape::kid_low(all_seps, s.low, t) == shape::kid_low(s.seps, s.low, i));
        assert(shape::kid_high(all_seps, s.high, t) == shape::kid_high(s.seps, s.high, i));
    }
}

/// A node that was put in shares no page with one that stays.
proof fn lemma_put_apart(s: Splice, j: int, i: int, p: PageId)
    requires
        s.ok(),
        0 <= j < s.put_kids.len(),
        s.stays(i),
        shape::inside(s.after, s.put_kids[j], s.height, p),
    ensures
        !shape::inside(s.after, s.kids[i], s.height, p),
{
    assert(shape::inside_row(s.after, s.put_kids, s.height, p));
    lemma_untouched(s, i);
    if shape::inside(s.after, s.kids[i], s.height, p) {
        assert(shape::inside(s.before, s.kids[i], s.height, p));
    }
}

/// The nodes of the new row share no page.
proof fn lemma_splice_apart(s: Splice, t: int, u: int)
    requires
        s.ok(),
        0 <= t < s.all_kids().len(),
        0 <= u < s.all_kids().len(),
        t != u,
    ensures
        shape::apart(s.after, s.all_kids()[t], s.all_kids()[u], s.height),
{
    lemma_origin(s, t);
    lemma_origin(s, u);
    let all = s.all_kids();
    if s.is_put(t) && s.is_put(u) {
        assert(shape::apart(s.after, s.put_kids[t - s.start], s.put_kids[u - s.start], s.height));
    } else if s.is_put(t) {
        assert forall|p: PageId| #[trigger] shape::inside(s.after, all[t], s.height, p) implies !#[trigger] shape::inside(
            s.after,
            all[u],
            s.height,
            p,
        ) by {
            lemma_put_apart(s, t - s.start, s.origin(u), p);
        }
    } else if s.is_put(u) {
        assert forall|p: PageId| #[trigger] shape::inside(s.after, all[t], s.height, p) implies !#[trigger] shape::inside(
            s.after,
            all[u],
            s.height,
            p,
        ) by {
            if shape::inside(s.after, all[u], s.height, p) {
                lemma_put_apart(s, u - s.start, s.origin(t), p);
            }
        }
    } else {
        lemma_untouched(s, s.origin(t));
        lemma_untouched(s, s.origin(u));
        assert(shape::apart(s.before, s.kids[s.origin(t)], s.kids[s.origin(u)], s.height));
        assert forall|p: PageId| #[trigger] shape::inside(s.after, all[t], s.height, p) implies !#[trigger] shape::inside(
            s.after,
            all[u],
            s.height,
            p,
        ) by {
            assert(shape::inside(s.before, s.kids[s.origin(t)], s.height, p));
        }
    }
}

/// The leaves of the new row follow each other.
proof fn lemma_splice_link(s: Splice, t: int)
    requires
        s.ok(),
        0 <= t < s.all_kids().len() - 1,
    ensures
        shape::next_of(s.after, shape::last_leaf(s.after, s.all_kids()[t], s.height)) == Some(
            shape::first_leaf(s.after, s.all_kids()[t + 1], s.height),
        ),
{
    lemma_origin(s, t);
    lemma_origin(s, t + 1);
    let all = s.all_kids();
    let m = s.put_kids.len() as int;
    assert(s.cut()[0] == s.kids[s.start]);
    assert(s.cut().last() == s.kids[s.start + s.width - 1]);
    let i = if s.is_put(t) {
        s.start + s.width - 1
    } else {
        s.origin(t)
    };
    if s.is_put(t) && s.is_put(t + 1) {
        let j = t - s.start;
        assert(shape::next_of(s.after, shape::last_leaf(s.after, s.put_kids[j], s.height)) == Some(
            shape::first_leaf(s.after, s.put_kids[j + 1], s.height),
        ));
    } else {
        assert(shape::next_of(s.before, shape::last_leaf(s.before, s.kids[i], s.height)) == Some(
            shape::first_leaf(s.before, s.kids[i + 1], s.height),
        ));
        if !s.is_put(t) {
            lemma_untouched(s, i);
        }
        if !s.is_put(t + 1) {
            lemma_untouched(s, i + 1);
        }
    }
}

/// The new row is sound.
proof fn lemma_splice_row(s: Splice)
    requires
        s.ok(),
    ensures
        shape::row(s.after, s.capacity, s.all_kids(), s.all_seps(), s.height, s.low, s.high),
{
    lemma_spliced_seps(s.capacity, s.seps, s.low, s.high, s.start, s.width, s.put_seps);
    let all = s.all_kids();
    assert(s.all_kids().len() == s.all_seps().len() + 1);
    assert forall|t: int| 0 <= t < all.len() implies shape::branch(
        s.after,
        s.capacity,
        #[trigger] all[t],
        s.height,
        shape::kid_low(s.all_seps(), s.low, t),
        shape::kid_high(s.all_seps(), s.high, t),
    ) by {
        lemma_splice_branch(s, t);
    }
    assert forall|t: int, u: int|
        0 <= t < all.len() && 0 <= u < all.len() && t != u implies shape::apart(
        s.after,
        #[trigger] all[t],
        #[trigger] all[u],
        s.height,
    ) by {
        lemma_splice_apart(s, t, u);
    }
    assert forall|t: int| 0 <= t < all.len() - 1 implies shape::next_of(
        s.after,
        #[trigger] shape::last_leaf(s.after, all[t], s.height),
    ) == Some(shape::first_leaf(s.after, all[t + 1], s.height)) by {
        lemma_splice_link(s, t);
    }
}

/// A page of a node that is replaced is a page of the old row.
proof fn lemma_cut_inside(s: Splice, p: PageId)
    requires
        s.ok(),
        shape::inside_row(s.before, s.cut(), s.height, p),
    ensures
        shape::inside_row(s.before, s.kids, s.height, p),
{
    let cut = s.cut();
    let j = choose|j: int|
        0 <= j < cut.len() && #[trigger] shape::inside(s.before, cut[j], s.height, p);
    assert(shape::inside(s.before, s.kids[s.start + j], s.height, p));
}

/// Some nodes of a sound row are replaced: the whole row is.
pub proof fn lemma_splice(s: Splice)
    requires
        s.ok(),
    ensures
        replaces(
            s.before,
            s.after,
            s.capacity,
            s.kids,
            s.all_kids(),
            s.all_seps(),
            s.height,
            s.low,
            s.high,
        ),
{
    lemma_splice_row(s);
    let all = s.all_kids();
    lemma_origin(s, 0);
    lemma_origin(s, all.len() - 1);
    assert(s.cut()[0] == s.kids[s.start]);
    assert(s.cut().last() == s.kids[s.start + s.width - 1]);
    if !s.is_put(0) {
        lemma_untouched(s, s.origin(0));
    }
    if !s.is_put(all.len() - 1) {
        lemma_untouched(s, s.origin(all.len() - 1));
    }
    assert forall|p: PageId| p.0 < s.before.len() && !#[trigger] shape::inside_row(
        s.before,
        s.kids,
        s.height,
        p,
    ) implies s.after[p.0 as int] == s.before[p.0 as int] by {
        if shape::inside_row(s.before, s.cut(), s.height, p) {
            lemma_cut_inside(s, p);
        }
    }
    assert forall|p: PageId| #[trigger] shape::inside_row(s.after, all, s.height, p) implies shape::inside_row(
        s.before,
        s.kids,
        s.height,
        p,
    ) || p.0 >= s.before.len() by {
        let t = choose|t: int|
            0 <= t < all.len() && #[trigger] shape::inside(s.after, all[t], s.height, p);
        lemma_origin(s, t);
        if s.is_put(t) {
            assert(shape::inside(s.after, s.put_kids[t - s.start], s.height, p));
            assert(shape::inside_row(s.after, s.put_kids, s.height, p));
            if shape::inside_row(s.before, s.cut(), s.height, p) {
                lemma_cut_inside(s, p);
            }
        } else {
            lemma_untouched(s, s.origin(t));
            assert(shape::inside(s.before, s.kids[s.origin(t)], s.height, p));
        }
    }
}

/// A row some of whose nodes are replaced holds what the new nodes hold and
/// what the others held.
pub proof fn lemma_splice_holds(s: Splice, e: EntryView)
    requires
        s.ok(),
    ensures
        shape::has_row(s.after, s.all_kids(), s.height, e) <==> (shape::has_row(
            s.after,
            s.put_kids,
            s.height,
            e,
        ) || has_elsewhere(s.before, s.kids, s.height, s.start, s.width, e)),
{
    let all = s.all_kids();
    let m = s.put_kids.len() as int;
    if shape::has_row(s.after, all, s.height, e) {
        let t = choose|t: int|
            0 <= t < all.len() && #[trigger] shape::has(s.after, all[t], s.height, e);
        lemma_origin(s, t);
        if s.is_put(t) {
            assert(shape::has(s.after, s.put_kids[t - s.start], s.height, e));
        } else {
            lemma_untouched(s, s.origin(t));
            assert(shape::has(s.before, s.kids[s.origin(t)], s.height, e));
        }
    }
    if shape::has_row(s.after, s.put_kids, s.height, e) {
        let j = choose|j: int|
            0 <= j < m && #[trigger] shape::has(s.after, s.put_kids[j], s.height, e);
        assert(all[s.start + j] == s.put_kids[j]);
        assert(shape::has(s.after, all[s.start + j], s.height, e));
    }
    if has_elsewhere(s.before, s.kids, s.height, s.start, s.width, e) {
        let i = choose|i: int|
            0 <= i < s.kids.len() && (i < s.start || i >= s.start + s.width)
                && #[trigger] shape::has(s.before, s.kids[i], s.height, e);
        let t = if i < s.start {
            i
        } else {
            i + m - s.width
        };
        lemma_untouched(s, i);
        assert(all[t] == s.kids[i]);
        assert(shape::has(s.after, all[t], s.height, e));
    }
}

/// Whether a page belongs to a node of a row that was not replaced.
pub open spec fn inside_elsewhere(
    pages: Seq<PageView>,
    kids: Seq<PageId>,
    height: nat,
    start: int,
    width: int,
    page: PageId,
) -> bool {
    exists|i: int|
        0 <= i < kids.len() && (i < start || i >= start + width) && #[trigger] shape::inside(
            pages,
            kids[i],
            height,
            page,
        )
}

/// A row some of whose nodes are replaced has the pages of the new nodes and
/// those of the others.
pub proof fn lemma_splice_inside(s: Splice, p: PageId)
    requires
        s.ok(),
    ensures
        shape::inside_row(s.after, s.all_kids(), s.height, p) <==> (shape::inside_row(
            s.after,
            s.put_kids,
            s.height,
            p,
        ) || inside_elsewhere(s.before, s.kids, s.height, s.start, s.width, p)),
        shape::inside_row(s.before, s.kids, s.height, p) <==> (shape::inside_row(
            s.before,
            s.cut(),
            s.height,
            p,
        ) || inside_elsewhere(s.before, s.kids, s.height, s.start, s.width, p)),
        inside_elsewhere(s.before, s.kids, s.height, s.start, s.width, p) ==> !shape::inside_row(
            s.before,
            s.cut(),
            s.height,
            p,
        ),
{
    let all = s.all_kids();
    let m = s.put_kids.len() as int;
    if shape::inside_row(s.after, all, s.height, p) {
        let t = choose|t: int|
            0 <= t < all.len() && #[trigger] shape::inside(s.after, all[t], s.height, p);
        lemma_origin(s, t);
        if s.is_put(t) {
            assert(shape::inside(s.after, s.put_kids[t - s.start], s.height, p));
        } else {
            lemma_untouched(s, s.origin(t));
            assert(shape::inside(s.before, s.kids[s.origin(t)], s.height, p));
        }
    }
    if shape::inside_row(s.after, s.put_kids, s.height, p) {
        let j = choose|j: int|
            0 <= j < m && #[trigger] shape::inside(s.after, s.put_kids[j], s.height, p);
        assert(all[s.start + j] == s.put_kids[j]);
        assert(shape::inside(s.after, all[s.start + j], s.height, p));
    }
    if inside_elsewhere(s.before, s.kids, s.height, s.start, s.width, p) {
        let i = choose|i: int|
            0 <= i < s.kids.len() && (i < s.start || i >= s.start + s.width)
                && #[trigger] shape::inside(s.before, s.kids[i], s.height, p);
        let t = if i < s.start {
            i
        } else {
            i + m - s.width
        };
        lemma_untouched(s, i);
        assert(all[t] == s.kids[i]);
        assert(shape::inside(s.after, all[t], s.height, p));
        assert(shape::inside(s.before, s.kids[i], s.height, p));
    }
    if shape::inside_row(s.before, s.kids, s.height, p) {
        let i = choose|i: int|
            0 <= i < s.kids.len() && #[trigger] shape::inside(s.before, s.kids[i], s.height, p);
        if s.start <= i < s.start + s.width {
            assert(s.cut()[i - s.start] == s.kids[i]);
            assert(shape::inside(s.before, s.cut()[i - s.start], s.height, p));
        }
    }
    if shape::inside_row(s.before, s.cut(), s.height, p) {
        lemma_cut_inside(s, p);
    }
}

/// A row some of whose nodes are replaced has no empty leaf where neither the
/// new nodes nor the others have one.
pub proof fn lemma_splice_filled(s: Splice)
    requires
        s.ok(),
        shape::filled_row(s.after, s.put_kids, s.height),
        forall|i: int| #[trigger] s.stays(i) ==> shape::filled(s.before, s.kids[i], s.height),
    ensures
        shape::filled_row(s.after, s.all_kids(), s.height),
{
    let all = s.all_kids();
    assert forall|t: int| 0 <= t < all.len() implies #[trigger] shape::filled(
        s.after,
        all[t],
        s.height,
    ) by {
        lemma_origin(s, t);
        if s.is_put(t) {
            assert(shape::filled(s.after, s.put_kids[t - s.start], s.height));
        } else {
            assert(s.stays(s.origin(t)));
            lemma_untouched(s, s.origin(t));
        }
    }
}

} // verus!
