//! Trees: creation, insertion and removal.
use super::change;
use super::change::{ChangeView, PageChange};
use super::delete;
use super::delete::Sink;
use super::error::IndexError;
use super::insert;
use super::insert::Rise;
use super::key;
use super::key::{EntryView, IndexSpec};
use super::node;
use super::node::{LeafNode, LeafView, MetaNode};
use super::pages;
use super::pages::{BTree, BTreeHandle, PageView, StepView, TreePage};
use crate::ids::{PageId, RowId};
use crate::value;
use crate::value::ScalarValue;
use vstd::prelude::*;
use vstd::utf8;

verus! {

/// The bytes of a root record.
pub open spec fn meta_size(spec: IndexSpec) -> nat {
    key::NODE_HEADER_BYTES as nat + match spec.nominal {
        Some(name) => utf8::encode_utf8(name@).len(),
        None => 0,
    }
}

/// What creating an empty tree wants written: its root record and, behind
/// it, one empty leaf.
pub open spec fn create_changes(count: nat, capacity: u32, spec: IndexSpec) -> Result<
    Seq<ChangeView>,
    IndexError,
> {
    if count + 1 > u64::MAX {
        Err(IndexError::InvalidChild(insert::page_at(count)))
    } else if meta_size(spec) > capacity {
        Err(IndexError::NodeTooLarge { size: key::reported(meta_size(spec)), capacity })
    } else {
        Ok(
            seq![
                change::new_page(
                    insert::page_at(count),
                    PageView::Meta(
                        MetaNode { root_page: insert::page_at(count + 1), height: 1, spec },
                    ),
                ),
                change::new_page(
                    insert::page_at(count + 1),
                    PageView::Leaf(LeafView { entries: Seq::empty(), next: None }),
                ),
            ],
        )
    }
}

/// What an operation that plans its changes first does to the pages.
pub open spec fn outcome_of(
    before: Seq<PageView>,
    changes: Result<Seq<ChangeView>, IndexError>,
    outcome: Result<(), IndexError>,
    after: Seq<PageView>,
) -> bool {
    match changes {
        Err(error) => outcome == Err::<(), IndexError>(error) && after == before,
        Ok(list) => outcome is Ok && after == change::applied(before, list),
    }
}

impl BTree {
    /// A file with its first page alone.
    pub fn new(capacity: u32) -> (tree: BTree)
        ensures
            tree@ == seq![PageView::Other],
            tree.capacity == capacity,
    {
        let mut pages: Vec<TreePage> = Vec::new();
        pages.push(TreePage::Other);
        let tree = BTree { pages, capacity };
        assert(tree@ =~= seq![PageView::Other]);
        tree
    }

    /// What creating an empty tree wants written, for the caller's
    /// transaction.
    pub fn create_in(&self, spec: IndexSpec) -> (outcome: Result<Vec<PageChange>, IndexError>)
        ensures
            match create_changes(self@.len(), self.capacity, spec) {
                Err(error) => outcome == Err::<Vec<PageChange>, IndexError>(error),
                Ok(list) => outcome matches Ok(changes) && change::changes_view(changes@) == list,
            },
    {
        let meta_page = PageId(self.page_count());
        if meta_page.0 == u64::MAX {
            return Err(IndexError::InvalidChild(meta_page));
        }
        let root_page = PageId(meta_page.0 + 1);
        let named: u64 = match &spec.nominal {
            Some(name) => name.as_str().as_bytes().len() as u64,
            None => 0,
        };
        let size: u64 = key::NODE_HEADER_BYTES.saturating_add(named);
        if size > self.capacity as u64 {
            return Err(IndexError::NodeTooLarge { size, capacity: self.capacity });
        }
        let mut changes: Vec<PageChange> = Vec::new();
        assert(change::changes_view(changes@) =~= Seq::empty());
        insert::push_change(
            &mut changes,
            meta_page,
            true,
            TreePage::Meta(MetaNode { root_page, height: 1, spec }),
        );
        insert::push_change(&mut changes, root_page, true, TreePage::Leaf(LeafNode::empty()));
        assert(change::changes_view(changes@) =~= create_changes(
            self@.len(),
            self.capacity,
            spec,
        )->Ok_0);
        Ok(changes)
    }

    /// Creates an empty tree.
    pub fn create(&mut self, spec: IndexSpec) -> (outcome: Result<BTreeHandle, IndexError>)
        ensures
            match create_changes(old(self)@.len(), old(self).capacity, spec) {
                Err(error) => outcome == Err::<BTreeHandle, IndexError>(error) && final(self)@
                    == old(self)@,
                Ok(list) => outcome == Ok::<BTreeHandle, IndexError>(
                    BTreeHandle { meta_page: insert::page_at(old(self)@.len()) },
                ) && final(self)@ == change::applied(old(self)@, list),
            },
            final(self).capacity == old(self).capacity,
    {
        let meta_page = PageId(self.page_count());
        let changes = self.create_in(spec)?;
        proof {
            lemma_create_placed(self@.len(), self.capacity, spec);
        }
        self.apply(changes);
        Ok(BTreeHandle { meta_page })
    }

    /// Inserts one entry.
    pub fn insert(&mut self, handle: BTreeHandle, key: ScalarValue, row_id: RowId) -> (outcome:
        Result<(), IndexError>)
        ensures
            outcome_of(
                old(self)@,
                insert::insert_changes(
                    old(self)@,
                    old(self).capacity,
                    handle,
                    (EntryView { key: value::scalar_view(key), row_id }),
                ),
                outcome,
                final(self)@,
            ),
            final(self).capacity == old(self).capacity,
    {
        let ghost entry = EntryView { key: value::scalar_view(key), row_id };
        let changes = self.insert_in(handle, key, row_id)?;
        proof {
            lemma_insert_placed(self@, self.capacity, handle, entry);
        }
        self.apply(changes);
        Ok(())
    }

    /// Deletes exactly one entry.
    pub fn delete(&mut self, handle: BTreeHandle, key: ScalarValue, row_id: RowId) -> (outcome:
        Result<(), IndexError>)
        ensures
            outcome_of(
                old(self)@,
                delete::delete_changes(
                    old(self)@,
                    old(self).capacity,
                    handle,
                    (EntryView { key: value::scalar_view(key), row_id }),
                ),
                outcome,
                final(self)@,
            ),
            final(self).capacity == old(self).capacity,
    {
        let ghost entry = EntryView { key: value::scalar_view(key), row_id };
        let removal = self.delete_in(handle, key, row_id)?;
        proof {
            lemma_delete_placed(self@, self.capacity, handle, entry);
        }
        self.apply(removal.changes);
        Ok(())
    }
}

proof fn lemma_create_placed(count: nat, capacity: u32, spec: IndexSpec)
    ensures
        create_changes(count, capacity, spec) matches Ok(list) ==> change::placed(count, list),
{
    if create_changes(count, capacity, spec) is Ok {
        let list = create_changes(count, capacity, spec)->Ok_0;
        let none = Seq::<ChangeView>::empty();
        change::lemma_one_more(Seq::empty(), count, none, list[0]);
        change::lemma_one_more(Seq::empty(), count, none.push(list[0]), list[1]);
        assert(none.push(list[0]).push(list[1]) =~= list);
    }
}

/// The changes of an insertion on its way up follow each other, and the next
/// free page is the one behind them.
pub open spec fn rise_placed(count: nat, rise: Rise) -> bool {
    change::placed(count, rise.changes) && rise.next == change::grown(count, rise.changes)
}

pub proof fn lemma_leaf_rise_placed(count: nat, page: PageId, leaf: LeafView, capacity: u32)
    requires
        page.0 < count,
    ensures
        insert::leaf_rise(count, page, leaf, capacity) matches Ok(rise) ==> rise_placed(
            count,
            rise,
        ),
{
    if insert::leaf_rise(count, page, leaf, capacity) is Ok {
        let rise = insert::leaf_rise(count, page, leaf, capacity)->Ok_0;
        let none = Seq::<ChangeView>::empty();
        change::lemma_one_more(Seq::empty(), count, none, rise.changes[0]);
        if rise.changes.len() == 1 {
            assert(none.push(rise.changes[0]) =~= rise.changes);
        } else {
            change::lemma_one_more(
                Seq::empty(),
                count,
                none.push(rise.changes[0]),
                rise.changes[1],
            );
            assert(none.push(rise.changes[0]).push(rise.changes[1]) =~= rise.changes);
        }
    }
}

pub proof fn lemma_step_rise_placed(count: nat, step: StepView, rise: Rise, capacity: u32)
    requires
        step.page.0 < count,
        rise_placed(count, rise),
    ensures
        insert::step_rise(step, rise, capacity) matches Ok(above) ==> rise_placed(count, above),
{
    if rise.up is Some && insert::step_rise(step, rise, capacity) is Ok {
        let above = insert::step_rise(step, rise, capacity)->Ok_0;
        let n = rise.changes.len() as int;
        change::lemma_one_more(Seq::empty(), count, rise.changes, above.changes[n]);
        if above.changes.len() == n + 1 {
            assert(rise.changes.push(above.changes[n]) =~= above.changes);
        } else {
            let one = rise.changes.push(above.changes[n]);
            change::lemma_one_more(Seq::empty(), count, one, above.changes[n + 1]);
            assert(one.push(above.changes[n + 1]) =~= above.changes);
        }
    }
}

proof fn lemma_risen_placed(
    count: nat,
    path: Seq<StepView>,
    rise: Result<Rise, IndexError>,
    capacity: u32,
)
    requires
        forall|i: int| 0 <= i < path.len() ==> (#[trigger] path[i]).page.0 < count,
        rise matches Ok(known) ==> rise_placed(count, known),
    ensures
        insert::risen(path, rise, capacity) matches Ok(above) ==> rise_placed(count, above),
    decreases path.len(),
{
    if path.len() > 0 {
        lemma_risen_placed(count, path.drop_first(), rise, capacity);
        match insert::risen(path.drop_first(), rise, capacity) {
            Ok(below) => {
                lemma_step_rise_placed(count, path[0], below, capacity);
            },
            Err(_) => {},
        }
    }
}

/// What an insertion wants written can be written.
pub proof fn lemma_insert_placed(
    pages: Seq<PageView>,
    capacity: u32,
    handle: BTreeHandle,
    entry: EntryView,
)
    ensures
        insert::insert_changes(pages, capacity, handle, entry) matches Ok(list) ==> change::placed(
            pages.len(),
            list,
        ),
{
    if insert::insert_changes(pages, capacity, handle, entry) is Ok {
        let meta = pages::meta_read(pages, handle)->Ok_0;
        let way = pages::descent(pages, meta.root_page, meta.height as nat, entry)->Ok_0;
        let leaf = node::leaf_with(meta.spec, way.leaf, entry)->Ok_0;
        insert::lemma_descent_in_file(pages, meta.root_page, meta.height as nat, entry);
        let first = insert::leaf_rise(pages.len(), way.page, leaf, capacity);
        lemma_leaf_rise_placed(pages.len(), way.page, leaf, capacity);
        lemma_risen_placed(pages.len(), way.path, first, capacity);
        let rise = insert::risen(way.path, first, capacity)->Ok_0;
        if rise.up is Some {
            let list = insert::insert_changes(pages, capacity, handle, entry)->Ok_0;
            let n = rise.changes.len() as int;
            let one = rise.changes.push(list[n]);
            change::lemma_one_more(pages, pages.len(), rise.changes, list[n]);
            change::lemma_one_more(pages, pages.len(), one, list[n + 1]);
            assert(one.push(list[n + 1]) =~= list);
        }
    }
}

/// The changes of a removal on its way up are of pages of the file.
pub open spec fn sink_placed(pages: Seq<PageView>, sink: Sink) -> bool {
    &&& change::placed(pages.len(), sink.changes)
    &&& sink.pending matches Some(current) ==> pages::is_child(pages, current.page)
}

proof fn lemma_step_sink_placed(pages: Seq<PageView>, step: StepView, sink: Sink, capacity: u32)
    requires
        pages::is_child(pages, step.page),
        sink_placed(pages, sink),
    ensures
        delete::step_sink(pages, step, sink, capacity) matches Ok(above) ==> sink_placed(
            pages,
            above,
        ),
{
    if sink.pending is Some && delete::step_sink(pages, step, sink, capacity) is Ok {
        let above = delete::step_sink(pages, step, sink, capacity)->Ok_0;
        let n = sink.changes.len() as int;
        change::lemma_one_more(pages, pages.len(), sink.changes, above.changes[n]);
        assert(sink.changes.push(above.changes[n]) =~= above.changes);
    }
}

proof fn lemma_sunk_placed(
    pages: Seq<PageView>,
    path: Seq<StepView>,
    sink: Sink,
    capacity: u32,
)
    requires
        forall|i: int| 0 <= i < path.len() ==> pages::is_child(pages, (#[trigger] path[i]).page),
        sink_placed(pages, sink),
    ensures
        delete::sunk(pages, path, Ok(sink), capacity) matches Ok(above) ==> sink_placed(
            pages,
            above,
        ),
    decreases path.len(),
{
    if path.len() > 0 {
        lemma_sunk_placed(pages, path.drop_first(), sink, capacity);
        match delete::sunk(pages, path.drop_first(), Ok(sink), capacity) {
            Ok(below) => {
                lemma_step_sink_placed(pages, path[0], below, capacity);
            },
            Err(_) => {},
        }
    }
}

/// What a removal wants written can be written.
pub proof fn lemma_delete_placed(
    pages: Seq<PageView>,
    capacity: u32,
    handle: BTreeHandle,
    entry: EntryView,
)
    ensures
        delete::delete_changes(pages, capacity, handle, entry) matches Ok(list) ==> change::placed(
            pages.len(),
            list,
        ),
{
    if delete::delete_changes(pages, capacity, handle, entry) is Ok {
        let meta = pages::meta_read(pages, handle)->Ok_0;
        let way = pages::descent(pages, meta.root_page, meta.height as nat, entry)->Ok_0;
        let leaf = node::leaf_without(meta.spec, way.leaf, entry)->Ok_0;
        insert::lemma_descent_in_file(pages, meta.root_page, meta.height as nat, entry);
        let first = delete::leaf_sink(way.page, leaf);
        lemma_sunk_placed(pages, way.path, first, capacity);
        let sink = delete::sunk(pages, way.path, Ok(first), capacity)->Ok_0;
        if sink.pending is Some {
            let list = delete::delete_changes(pages, capacity, handle, entry)->Ok_0;
            let n = sink.changes.len() as int;
            change::lemma_one_more(pages, pages.len(), sink.changes, list[n]);
            assert(sink.changes.push(list[n]) =~= list);
        }
    }
}

} // verus!
