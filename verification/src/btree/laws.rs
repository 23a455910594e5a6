//! What the operations of a tree promise.
use super::bare_laws;
use super::change;
use super::change::ChangeView;
use super::delete;
use super::delete_laws;
use super::error::IndexError;
use super::find_laws;
use super::fork_laws;
use super::insert;
use super::insert_laws;
use super::key;
use super::key::{EntryView, IndexSpec};
use super::lookup;
use super::node;
use super::node::{LeafView, MetaNode};
use super::pages;
use super::pages::{BTreeHandle, PageView};
use super::parts;
use super::rewrite;
use super::rows;
use super::shape;
use super::tree;
use crate::ids::PageId;
use vstd::prelude::*;

verus! {

/// A tree is sound: its root record can be read, its nodes are sound from the
/// root on, no leaf but a lone root is empty, and the last leaf is the end of
/// the chain.
pub open spec fn sound_tree(pages: Seq<PageView>, capacity: u32, handle: BTreeHandle) -> bool {
    match pages::meta_read(pages, handle) {
        Err(_) => false,
        Ok(meta) => {
            let height = meta.height as nat;
            &&& shape::branch(pages, capacity, meta.root_page, height, None, None)
            &&& height > 1 ==> shape::filled(pages, meta.root_page, height)
            &&& shape::next_of(pages, shape::last_leaf(pages, meta.root_page, height)) is None
        },
    }
}

/// The root record of a tree.
pub open spec fn meta_of(pages: Seq<PageView>, handle: BTreeHandle) -> MetaNode {
    pages::meta_read(pages, handle)->Ok_0
}

/// Whether a tree holds an entry.
pub open spec fn holds(pages: Seq<PageView>, handle: BTreeHandle, entry: EntryView) -> bool {
    let meta = meta_of(pages, handle);
    shape::has(pages, meta.root_page, meta.height as nat, entry)
}

/// Whether a page belongs to a tree.
pub open spec fn belongs(pages: Seq<PageView>, handle: BTreeHandle, page: PageId) -> bool {
    let meta = meta_of(pages, handle);
    page == handle.meta_page || shape::inside(pages, meta.root_page, meta.height as nat, page)
}

/// Exactly these pages, each once, left a tree, and none came to it.
pub open spec fn leaves(
    before: Seq<PageView>,
    after: Seq<PageView>,
    handle: BTreeHandle,
    retired: Seq<PageId>,
) -> bool {
    &&& retired.no_duplicates()
    &&& forall|p: PageId| #[trigger] retired.contains(p) ==> belongs(before, handle, p)
    &&& forall|p: PageId| #[trigger]
        belongs(after, handle, p) <==> belongs(before, handle, p) && !retired.contains(p)
}

/// Nothing outside a tree was touched.
pub open spec fn others_stay(
    before: Seq<PageView>,
    after: Seq<PageView>,
    handle: BTreeHandle,
) -> bool {
    forall|p: PageId|
        p.0 < before.len() && !#[trigger] belongs(before, handle, p) ==> after[p.0 as int]
            == before[p.0 as int]
}

/// The file leaves room for the pages that one insertion may add, and the
/// tree for one more level.
pub open spec fn has_room(pages: Seq<PageView>, handle: BTreeHandle) -> bool {
    let meta = meta_of(pages, handle);
    meta.height < u16::MAX && pages.len() + meta.height + 1 < u64::MAX
}

/// Whether every inner node of a tree has a separator.
pub open spec fn forked_tree(pages: Seq<PageView>, handle: BTreeHandle) -> bool {
    let meta = meta_of(pages, handle);
    shape::forked(pages, meta.root_page, meta.height as nat)
}

/// A new tree is sound and holds nothing.
pub proof fn law_created_tree_is_empty(
    pages: Seq<PageView>,
    capacity: u32,
    spec: IndexSpec,
    handle: BTreeHandle,
)
    requires
        0 < pages.len(),
        tree::create_changes(pages.len(), capacity, spec) is Ok,
        handle.meta_page == insert::page_at(pages.len()),
    ensures
        ({
            let after = change::applied(
                pages,
                tree::create_changes(pages.len(), capacity, spec)->Ok_0,
            );
            &&& sound_tree(after, capacity, handle)
            &&& meta_of(after, handle).spec == spec
            &&& forked_tree(after, handle)
            &&& forall|e: EntryView| !#[trigger] holds(after, handle, e)
            &&& forall|i: int| 0 <= i < pages.len() ==> #[trigger] after[i] == pages[i]
        }),
{
    let list = tree::create_changes(pages.len(), capacity, spec)->Ok_0;
    let none = Seq::<ChangeView>::empty();
    change::lemma_one_more(pages, pages.len(), none, list[0]);
    change::lemma_one_more(pages, pages.len(), none.push(list[0]), list[1]);
    assert(none.push(list[0]).push(list[1]) =~= list);
    let after = change::applied(pages, list);
    let root = insert::page_at(pages.len() + 1);
    let leaf = LeafView { entries: Seq::empty(), next: None };
    assert(after[root.0 as int] == PageView::Leaf(leaf));
    insert_laws::lemma_leaf_under(after, root, leaf);
    assert(shape::sound_leaf(leaf, capacity, None, None));
    assert(shape::branch(after, capacity, root, 1, None, None));
    assert forall|e: EntryView| !#[trigger] holds(after, handle, e) by {
        assert(shape::has(after, root, 1, e) <==> leaf.entries.contains(e));
    }
}

/// The root record of a sound tree is no node of it.
proof fn lemma_meta_outside(pages: Seq<PageView>, capacity: u32, handle: BTreeHandle)
    requires
        sound_tree(pages, capacity, handle),
    ensures
        ({
            let meta = meta_of(pages, handle);
            &&& !shape::inside(pages, meta.root_page, meta.height as nat, handle.meta_page)
            &&& pages[handle.meta_page.0 as int] == PageView::Meta(meta)
            &&& pages::is_child(pages, handle.meta_page)
        }),
{
    let meta = meta_of(pages, handle);
    if shape::inside(pages, meta.root_page, meta.height as nat, handle.meta_page) {
        rows::lemma_inside_nodes(
            pages,
            capacity,
            meta.root_page,
            meta.height as nat,
            None,
            None,
            handle.meta_page,
        );
    }
}

/// A root that was replaced by itself.
pub proof fn lemma_root_replaced(
    before: Seq<PageView>,
    after: Seq<PageView>,
    capacity: u32,
    handle: BTreeHandle,
)
    requires
        sound_tree(before, capacity, handle),
        ({
            let meta = meta_of(before, handle);
            let height = meta.height as nat;
            let one = parts::alone(meta.root_page);
            &&& rows::replaces(
                before,
                after,
                capacity,
                one,
                one,
                Seq::empty(),
                height,
                None,
                None,
            )
            &&& height > 1 ==> shape::filled_row(after, one, height)
        }),
    ensures
        sound_tree(after, capacity, handle),
        meta_of(after, handle) == meta_of(before, handle),
        others_stay(before, after, handle),
        forall|e: EntryView| #[trigger]
            holds(after, handle, e) <==> shape::has_row(
                after,
                parts::alone(meta_of(before, handle).root_page),
                meta_of(before, handle).height as nat,
                e,
            ),
{
    let meta = meta_of(before, handle);
    let height = meta.height as nat;
    let one = parts::alone(meta.root_page);
    lemma_meta_outside(before, capacity, handle);
    parts::lemma_single(before, capacity, meta.root_page, height, None, None);
    assert(!shape::inside_row(before, one, height, handle.meta_page));
    assert(after[handle.meta_page.0 as int] == before[handle.meta_page.0 as int]);
    assert(one[0] == meta.root_page && one.last() == meta.root_page);
    assert(shape::branch(
        after,
        capacity,
        one[0],
        height,
        shape::kid_low(Seq::empty(), None, 0),
        shape::kid_high(Seq::empty(), None, 0),
    ));
    assert(pages::meta_read(after, handle) == Ok::<MetaNode, IndexError>(meta));
    parts::lemma_single(after, capacity, meta.root_page, height, None, None);
    assert forall|p: PageId| p.0 < before.len() && !#[trigger] belongs(before, handle, p) implies after[p.0 as int]
        == before[p.0 as int] by {
        assert(!shape::inside_row(before, one, height, p));
    }
}

/// An insertion into a sound tree: an entry that is there already is refused;
/// any other that an index takes is put in. The tree stays sound, holds the
/// entry and what it held before, and no other page is touched. It grows by at
/// most one level, and every inner node has a separator where that was so.
pub proof fn law_insert(
    pages: Seq<PageView>,
    capacity: u32,
    handle: BTreeHandle,
    entry: EntryView,
)
    requires
        sound_tree(pages, capacity, handle),
        has_room(pages, handle),
        key::fit_check(meta_of(pages, handle).spec, entry, capacity) is Ok,
    ensures
        holds(pages, handle, entry) ==> insert::insert_changes(pages, capacity, handle, entry)
            == Err::<Seq<ChangeView>, IndexError>(IndexError::DuplicateEntry),
        !holds(pages, handle, entry) ==> ({
            let changes = insert::insert_changes(pages, capacity, handle, entry);
            let after = change::applied(pages, changes->Ok_0);
            &&& changes is Ok
            &&& sound_tree(after, capacity, handle)
            &&& meta_of(after, handle).spec == meta_of(pages, handle).spec
            &&& forall|e: EntryView| #[trigger]
                holds(after, handle, e) <==> (holds(pages, handle, e) || e == entry)
            &&& others_stay(pages, after, handle)
            &&& meta_of(pages, handle).height <= meta_of(after, handle).height <= meta_of(
                pages,
                handle,
            ).height + 1
            &&& forked_tree(pages, handle) ==> forked_tree(after, handle)
        }),
{
    let meta = meta_of(pages, handle);
    let height = meta.height as nat;
    let root = meta.root_page;
    find_laws::lemma_descent(pages, capacity, root, height, None, None, entry);
    let way = pages::descent(pages, root, height, entry)->Ok_0;
    if !holds(pages, handle, entry) {
        insert_laws::lemma_rose(pages, capacity, root, height, None, None, meta.spec, entry);
        let rise = insert_laws::rise_under(pages, capacity, root, height, meta.spec, entry)->Ok_0;
        if forked_tree(pages, handle) {
            fork_laws::lemma_rose_forked(
                pages,
                capacity,
                root,
                height,
                None,
                None,
                meta.spec,
                entry,
            );
        }
        let one = parts::alone(root);
        assert(one[0] == root);
        match rise.up {
            None => {
                lemma_root_replaced(
                    pages,
                    change::applied(pages, rise.changes),
                    capacity,
                    handle,
                );
            },
            Some(promoted) => {
                lemma_root_parted(pages, capacity, handle, entry, rise);
            },
        }
    }
}

/// A root that was parted gets a new one over it.
proof fn lemma_root_parted(
    pages: Seq<PageView>,
    capacity: u32,
    handle: BTreeHandle,
    entry: EntryView,
    rise: insert::Rise,
)
    requires
        sound_tree(pages, capacity, handle),
        has_room(pages, handle),
        rise.up is Some,
        insert_laws::rose(
            pages,
            capacity,
            meta_of(pages, handle).root_page,
            meta_of(pages, handle).height as nat,
            None,
            None,
            entry,
            rise,
        ),
        forked_tree(pages, handle) ==> shape::forked_row(
            change::applied(pages, rise.changes),
            insert_laws::top_kids(meta_of(pages, handle).root_page, rise),
            meta_of(pages, handle).height as nat,
        ),
    ensures
        ({
            let changes = insert::root_rise(
                handle.meta_page,
                meta_of(pages, handle),
                rise,
                capacity,
            );
            let after = change::applied(pages, changes->Ok_0);
            &&& changes is Ok
            &&& sound_tree(after, capacity, handle)
            &&& meta_of(after, handle).spec == meta_of(pages, handle).spec
            &&& forall|e: EntryView| #[trigger]
                holds(after, handle, e) <==> (holds(pages, handle, e) || e == entry)
            &&& others_stay(pages, after, handle)
            &&& meta_of(after, handle).height == meta_of(pages, handle).height + 1
            &&& forked_tree(pages, handle) ==> forked_tree(after, handle)
        }),
{
    let meta = meta_of(pages, handle);
    let height = meta.height as nat;
    let promoted = rise.up->0;
    let kids = parts::pair(meta.root_page, promoted.right);
    let seps = seq![promoted.fence];
    let mid = change::applied(pages, rise.changes);
    lemma_meta_outside(pages, capacity, handle);
    parts::lemma_single(pages, capacity, meta.root_page, height, None, None);
    assert(shape::sound_seps(seps, capacity, None, None));
    assert(key::is_light(seps[0], capacity));
    reveal_with_fuel(key::front_size, 2);
    assert(key::node_size(seps) <= capacity);
    let list = insert::root_rise(handle.meta_page, meta, rise, capacity)->Ok_0;
    let n = rise.changes.len() as int;
    let one = rise.changes.push(list[n]);
    change::lemma_one_more(pages, pages.len(), rise.changes, list[n]);
    change::lemma_one_more(pages, pages.len(), one, list[n + 1]);
    assert(one.push(list[n + 1]) =~= list);
    let after = change::applied(pages, list);
    let top = insert::page_at(rise.next);
    assert(after.len() == mid.len() + 1);
    assert(top != handle.meta_page);
    assert forall|p: PageId| #[trigger] shape::inside_row(mid, kids, height, p) implies after[p.0 as int]
        == mid[p.0 as int] && p != top && p != handle.meta_page by {
        rewrite::lemma_row_nodes(mid, capacity, kids, seps, height, None, None, p);
        if p == handle.meta_page {
            assert(shape::inside_row(pages, parts::alone(meta.root_page), height, p));
        }
    }
    parts::lemma_over_row(mid, after, capacity, top, kids, seps, height, None, None);
    if forked_tree(pages, handle) {
        fork_laws::lemma_over_row(mid, after, capacity, top, kids, seps, height, None, None);
    }
    let updated = MetaNode {
        root_page: top,
        height: (meta.height + 1) as u16,
        spec: meta.spec,
    };
    assert(after[handle.meta_page.0 as int] == PageView::Meta(updated));
    assert(pages::meta_read(after, handle) == Ok::<MetaNode, IndexError>(updated));
    assert(updated.height as nat == height + 1);
    assert(kids.last() == promoted.right && parts::alone(meta.root_page).last()
        == meta.root_page);
    assert forall|e: EntryView| #[trigger] holds(after, handle, e) <==> (holds(pages, handle, e)
        || e == entry) by {
        assert(shape::has(after, top, height + 1, e) <==> shape::has_row(mid, kids, height, e));
    }
    assert forall|p: PageId| p.0 < pages.len() && !#[trigger] belongs(pages, handle, p) implies after[p.0 as int]
        == pages[p.0 as int] by {
        assert(!shape::inside_row(pages, parts::alone(meta.root_page), height, p));
        assert(mid[p.0 as int] == pages[p.0 as int]);
    }
}

/// Asking a sound tree for one exact entry says whether the tree holds it.
pub proof fn law_contains_exact(
    pages: Seq<PageView>,
    capacity: u32,
    handle: BTreeHandle,
    entry: EntryView,
)
    requires
        sound_tree(pages, capacity, handle),
        key::fit_check(meta_of(pages, handle).spec, entry, capacity) is Ok,
    ensures
        lookup::held(pages, capacity, handle, entry) == Ok::<bool, IndexError>(
            holds(pages, handle, entry),
        ),
{
    let meta = meta_of(pages, handle);
    find_laws::lemma_descent(
        pages,
        capacity,
        meta.root_page,
        meta.height as nat,
        None,
        None,
        entry,
    );
}

/// Whether every inner node that the search for an entry goes through has a
/// separator.
pub open spec fn way_to_is_forked(
    pages: Seq<PageView>,
    handle: BTreeHandle,
    entry: EntryView,
) -> bool {
    let meta = meta_of(pages, handle);
    delete_laws::way_forked(pages, meta.root_page, meta.height as nat, entry)
}

/// Where every inner node of a tree has a separator, so has every inner node
/// that the search for an entry goes through.
pub proof fn law_forked_tree_has_forked_ways(
    pages: Seq<PageView>,
    capacity: u32,
    handle: BTreeHandle,
    entry: EntryView,
)
    requires
        sound_tree(pages, capacity, handle),
        forked_tree(pages, handle),
    ensures
        way_to_is_forked(pages, handle, entry),
{
    let meta = meta_of(pages, handle);
    delete_laws::lemma_forked_way(
        pages,
        capacity,
        meta.root_page,
        meta.height as nat,
        None,
        None,
        entry,
    );
}

/// A removal from a sound tree: an entry that is not there is refused. One
/// that is there is taken out wherever every inner node that the search for it
/// goes through has a separator, and is refused as under a wrong node
/// otherwise, if at all. Whenever the removal succeeds the tree stays sound,
/// holds everything but the entry, and no other page is touched. The file keeps
/// its size, and the tree grows no higher. The pages that the removal names,
/// each once, are those that belonged to the tree before and do so no longer.
/// Where every inner node had a separator, that stays so exactly where the
/// removal writes no inner node without one.
pub proof fn law_delete(
    pages: Seq<PageView>,
    capacity: u32,
    handle: BTreeHandle,
    entry: EntryView,
)
    requires
        sound_tree(pages, capacity, handle),
        key::entry_check(meta_of(pages, handle).spec, entry) is Ok,
    ensures
        !holds(pages, handle, entry) ==> delete::delete_changes(pages, capacity, handle, entry)
            == Err::<Seq<ChangeView>, IndexError>(IndexError::EntryNotFound),
        holds(pages, handle, entry) && way_to_is_forked(pages, handle, entry)
            ==> delete::delete_changes(pages, capacity, handle, entry) is Ok,
        holds(pages, handle, entry) ==> (delete::delete_changes(
            pages,
            capacity,
            handle,
            entry,
        ) matches Err(error) ==> error == IndexError::InvalidNodeType),
        delete::delete_changes(pages, capacity, handle, entry) matches Ok(list) ==> ({
            let after = change::applied(pages, list);
            &&& sound_tree(after, capacity, handle)
            &&& meta_of(after, handle).spec == meta_of(pages, handle).spec
            &&& forall|e: EntryView| #[trigger]
                holds(after, handle, e) <==> (holds(pages, handle, e) && e != entry)
            &&& others_stay(pages, after, handle)
            &&& after.len() == pages.len()
            &&& meta_of(after, handle).height <= meta_of(pages, handle).height
                <= meta_of(after, handle).height + 1
            &&& leaves(
                pages,
                after,
                handle,
                delete::delete_retired(pages, capacity, handle, entry),
            )
            &&& forked_tree(pages, handle) ==> (forked_tree(after, handle)
                <==> !bare_laws::writes_bare(list))
        }),
{
    let meta = meta_of(pages, handle);
    let height = meta.height as nat;
    let root = meta.root_page;
    find_laws::lemma_descent(pages, capacity, root, height, None, None, entry);
    let way = pages::descent(pages, root, height, entry)->Ok_0;
    if holds(pages, handle, entry) {
        delete_laws::lemma_sank(pages, capacity, root, height, None, None, meta.spec, entry);
        if delete_laws::sink_under(pages, capacity, root, height, meta.spec, entry) is Ok {
            let sink = delete_laws::sink_under(
                pages,
                capacity,
                root,
                height,
                meta.spec,
                entry,
            )->Ok_0;
            let mid = delete_laws::with_pending(pages, sink);
            lemma_root_replaced(pages, mid, capacity, handle);
            lemma_root_keeps(pages, mid, capacity, handle, sink.retired);
            match sink.pending {
                None => {},
                Some(current) => {
                    let one = parts::alone(root);
                    assert(one[0] == root);
                    assert(shape::branch(
                        mid,
                        capacity,
                        one[0],
                        height,
                        shape::kid_low(Seq::empty(), None, 0),
                        shape::kid_high(Seq::empty(), None, 0),
                    ));
                    assert(mid[root.0 as int] == current.node);
                    let list = delete::root_sink(handle.meta_page, meta, sink);
                    if current.node is Internal && (current.node->Internal_0).seps.len() == 0 {
                        lemma_root_given_up(pages, capacity, handle, entry, sink);
                    } else {
                        change::lemma_one_more(
                            pages,
                            pages.len(),
                            sink.changes,
                            change::rewritten(current.page, current.node),
                        );
                        assert(change::applied(pages, list->Ok_0) == mid);
                    }
                },
            }
            lemma_stays_forked(pages, capacity, handle, entry, sink);
        }
    }
}

/// When a tree whose inner nodes all have separators stays such a tree.
proof fn lemma_stays_forked(
    pages: Seq<PageView>,
    capacity: u32,
    handle: BTreeHandle,
    entry: EntryView,
    sink: delete::Sink,
)
    requires
        sound_tree(pages, capacity, handle),
        key::entry_check(meta_of(pages, handle).spec, entry) is Ok,
        holds(pages, handle, entry),
        delete_laws::sink_under(
            pages,
            capacity,
            meta_of(pages, handle).root_page,
            meta_of(pages, handle).height as nat,
            meta_of(pages, handle).spec,
            entry,
        ) == Ok::<delete::Sink, IndexError>(sink),
        delete_laws::sank(
            pages,
            capacity,
            meta_of(pages, handle).root_page,
            meta_of(pages, handle).height as nat,
            None,
            None,
            entry,
            sink,
        ),
        delete::root_sink(handle.meta_page, meta_of(pages, handle), sink) is Ok,
        ({
            let list = delete::root_sink(handle.meta_page, meta_of(pages, handle), sink)->Ok_0;
            let after = change::applied(pages, list);
            &&& sound_tree(after, capacity, handle)
            &&& after.len() == pages.len()
            &&& leaves(pages, after, handle, delete::root_retired(sink))
        }),
    ensures
        ({
            let list = delete::root_sink(handle.meta_page, meta_of(pages, handle), sink)->Ok_0;
            let after = change::applied(pages, list);
            forked_tree(pages, handle) ==> (forked_tree(after, handle) <==> !bare_laws::writes_bare(
                list,
            ))
        }),
{
    let meta = meta_of(pages, handle);
    let height = meta.height as nat;
    let root = meta.root_page;
    let list = delete::root_sink(handle.meta_page, meta, sink)->Ok_0;
    let after = change::applied(pages, list);
    let now = meta_of(after, handle);
    let n = sink.changes.len() as int;
    bare_laws::lemma_bare_stays(pages, capacity, root, height, None, None, meta.spec, entry);
    bare_laws::lemma_forked_pages(pages, capacity, root, height, None, None);
    bare_laws::lemma_forked_pages(after, capacity, now.root_page, now.height as nat, None, None);
    lemma_meta_outside(pages, capacity, handle);
    lemma_meta_outside(after, capacity, handle);
    let mid = delete_laws::with_pending(pages, sink);
    if sink.pending is Some {
        change::lemma_one_more(pages, pages.len(), sink.changes, list[n]);
        assert(sink.changes.push(list[n]) =~= list);
    }
    assert forall|i: int| 0 <= i < list.len() implies !(#[trigger] list[i]).new
        && list[i].page.0 < pages.len() && (bare_laws::bare(list[i].after) ==> i < n && list[i]
        == sink.changes[i]) by {
        if i < n {
            assert(list[i] == sink.changes[i]);
        }
    }
    if forked_tree(pages, handle) {
        if !bare_laws::writes_bare(list) {
            assert forall|p: PageId| #[trigger]
                shape::inside(after, now.root_page, now.height as nat, p) implies !bare_laws::bare(
                after[p.0 as int],
            ) by {
                assert(belongs(after, handle, p));
                assert(belongs(pages, handle, p));
                assert(p != handle.meta_page);
                assert(shape::inside(pages, root, height, p));
                rows::lemma_inside_nodes(pages, capacity, root, height, None, None, p);
                bare_laws::lemma_applied_page(pages, list, p.0 as int);
            }
        } else {
            let i = choose|i: int|
                0 <= i < list.len() && bare_laws::bare((#[trigger] list[i]).after);
            let p = list[i].page;
            assert(list[i] == sink.changes[i]);
            assert(p != root && shape::inside(pages, root, height, p));
            assert(belongs(pages, handle, p));
            assert(p != handle.meta_page);
            delete_laws::lemma_pushed(sink.retired, root, p);
            assert(!delete::root_retired(sink).contains(p)) by {
                if let Some(current) = sink.pending {
                    assert(current.page == root);
                }
            }
            assert(belongs(after, handle, p));
            assert(mid[p.0 as int] == list[i].after);
            rows::lemma_inside_nodes(pages, capacity, root, height, None, None, p);
            assert(after[p.0 as int] == mid[p.0 as int]);
            assert(shape::inside(after, now.root_page, now.height as nat, p));
        }
    }
}

/// A root that was replaced by itself, with fewer pages under it.
proof fn lemma_root_keeps(
    before: Seq<PageView>,
    after: Seq<PageView>,
    capacity: u32,
    handle: BTreeHandle,
    retired: Seq<PageId>,
)
    requires
        sound_tree(before, capacity, handle),
        sound_tree(after, capacity, handle),
        meta_of(after, handle) == meta_of(before, handle),
        delete_laws::retires(
            before,
            after,
            meta_of(before, handle).root_page,
            meta_of(before, handle).height as nat,
            retired,
        ),
    ensures
        leaves(before, after, handle, retired),
{
    let meta = meta_of(before, handle);
    let height = meta.height as nat;
    lemma_meta_outside(before, capacity, handle);
    lemma_meta_outside(after, capacity, handle);
    parts::lemma_single(after, capacity, meta.root_page, height, None, None);
    assert forall|p: PageId| #[trigger] belongs(after, handle, p) <==> belongs(before, handle, p)
        && !retired.contains(p) by {
        assert(shape::inside_row(after, parts::alone(meta.root_page), height, p)
            <==> shape::inside(after, meta.root_page, height, p));
    }
}

/// A root with a single child left is given up for the child.
proof fn lemma_root_given_up(
    pages: Seq<PageView>,
    capacity: u32,
    handle: BTreeHandle,
    entry: EntryView,
    sink: delete::Sink,
)
    requires
        sound_tree(pages, capacity, handle),
        sink.pending is Some,
        (sink.pending->0).node is Internal,
        ((sink.pending->0).node->Internal_0).seps.len() == 0,
        delete_laws::sank(
            pages,
            capacity,
            meta_of(pages, handle).root_page,
            meta_of(pages, handle).height as nat,
            None,
            None,
            entry,
            sink,
        ),
    ensures
        ({
            let changes = delete::root_sink(handle.meta_page, meta_of(pages, handle), sink);
            let after = change::applied(pages, changes->Ok_0);
            &&& changes is Ok
            &&& sound_tree(after, capacity, handle)
            &&& meta_of(after, handle).spec == meta_of(pages, handle).spec
            &&& forall|e: EntryView| #[trigger]
                holds(after, handle, e) <==> (holds(pages, handle, e) && e != entry)
            &&& others_stay(pages, after, handle)
            &&& after.len() == pages.len()
            &&& meta_of(after, handle).height + 1 == meta_of(pages, handle).height
            &&& leaves(pages, after, handle, delete::root_retired(sink))
        }),
{
    let meta = meta_of(pages, handle);
    let height = meta.height as nat;
    let root = meta.root_page;
    let current = sink.pending->0;
    let node = current.node->Internal_0;
    let mid = delete_laws::with_pending(pages, sink);
    let written = change::applied(pages, sink.changes);
    lemma_meta_outside(pages, capacity, handle);
    lemma_root_replaced(pages, mid, capacity, handle);
    lemma_meta_outside(mid, capacity, handle);
    assert(mid[root.0 as int] == current.node);
    assert(height > 1);
    let h = (height - 1) as nat;
    rewrite::lemma_under(mid, capacity, root, height, None, None, node);
    let kid = node.kids[0];
    assert(shape::branch(
        mid,
        capacity,
        node.kids[0],
        h,
        shape::kid_low(node.seps, None, 0),
        shape::kid_high(node.seps, None, 0),
    ));
    let updated = MetaNode { root_page: kid, height: (meta.height - 1) as u16, spec: meta.spec };
    change::lemma_one_more(
        pages,
        pages.len(),
        sink.changes,
        change::rewritten(handle.meta_page, PageView::Meta(updated)),
    );
    let after = change::applied(
        pages,
        delete::root_sink(handle.meta_page, meta, sink)->Ok_0,
    );
    assert(after =~= written.update(handle.meta_page.0 as int, PageView::Meta(updated)));
    assert forall|p: PageId| #[trigger]
        shape::inside(mid, kid, h, p) && p.0 < mid.len() implies after[p.0 as int]
        == mid[p.0 as int] by {
        assert(shape::inside_row(mid, node.kids, h, p));
        assert(shape::inside(mid, root, height, p));
        assert(p != root && p != handle.meta_page);
    }
    shape::lemma_alike(mid, after, capacity, kid, h, None, None);
    assert(node.kids.last() == kid);
    parts::lemma_single(pages, capacity, root, height, None, None);
    assert(pages::meta_read(after, handle) == Ok::<MetaNode, IndexError>(updated));
    if h > 1 {
        assert(shape::filled(mid, node.kids[0], h));
    }
    assert forall|e: EntryView| #[trigger] holds(after, handle, e) <==> (holds(pages, handle, e)
        && e != entry) by {
        assert(shape::has(after, kid, h, e) == shape::has(mid, kid, h, e));
        assert(shape::has(mid, root, height, e) <==> shape::has_row(mid, node.kids, h, e));
        if shape::has_row(mid, node.kids, h, e) {
            let i = choose|i: int|
                0 <= i < node.kids.len() && #[trigger] shape::has(mid, node.kids[i], h, e);
            assert(i == 0);
        }
        if shape::has(mid, node.kids[0], h, e) {
            assert(shape::has_row(mid, node.kids, h, e));
        }
        assert(holds(mid, handle, e) <==> (holds(pages, handle, e) && e != entry));
    }
    assert forall|p: PageId| p.0 < pages.len() && !#[trigger] belongs(pages, handle, p) implies after[p.0 as int]
        == pages[p.0 as int] by {
        assert(mid[p.0 as int] == pages[p.0 as int]);
        assert(shape::inside(pages, root, height, root));
    }
    lemma_root_keeps(pages, mid, capacity, handle, sink.retired);
    assert(!sink.retired.contains(root));
    delete_laws::lemma_one_more_retired(sink.retired, root);
    lemma_meta_outside(after, capacity, handle);
    assert forall|p: PageId| #[trigger] belongs(after, handle, p) <==> belongs(pages, handle, p)
        && !delete::root_retired(sink).contains(p) by {
        assert(shape::inside(after, kid, h, p) == shape::inside(mid, kid, h, p));
        assert(shape::inside(mid, root, height, p) <==> (p == root || shape::inside_row(
            mid,
            node.kids,
            h,
            p,
        )));
        if shape::inside_row(mid, node.kids, h, p) {
            let i = choose|i: int|
                0 <= i < node.kids.len() && #[trigger] shape::inside(mid, node.kids[i], h, p);
            assert(i == 0);
        }
        if shape::inside(mid, node.kids[0], h, p) {
            assert(shape::inside_row(mid, node.kids, h, p));
        }
        assert(belongs(mid, handle, p) <==> belongs(pages, handle, p) && !sink.retired.contains(p));
    }
}

} // verus!
