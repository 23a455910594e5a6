//! Taking an entry out of a tree.
use super::change;
use super::change::{ChangeView, PageChange};
use super::error::IndexError;
use super::insert;
use super::internal;
use super::key;
use super::key::{EntryView, IndexEntry};
use super::node;
use super::node::{InternalNode, InternalView, LeafNode, LeafView, MetaNode};
use super::pages;
use super::pages::{BTree, BTreeHandle, PageView, PathEntry, StepView, TreePage};
use crate::ids::{PageId, RowId};
use crate::value;
use crate::value::ScalarValue;
use vstd::prelude::*;

verus! {

/// A node that lost something and is not written yet.
#[verifier::ext_equal]
pub struct Pending {
    pub page: PageId,
    pub node: PageView,
}

/// A removal on its way up: what was changed so far, the pages that left the
/// tree, and the node that the next one above has to look at.
#[verifier::ext_equal]
pub struct Sink {
    pub changes: Seq<ChangeView>,
    pub retired: Seq<PageId>,
    pub pending: Option<Pending>,
}

/// The page that two neighbours are joined in, and the separator between
/// them.
#[verifier::ext_equal]
pub struct Merged {
    pub page: PageId,
    pub node: PageView,
    pub place: int,
}

/// The bytes of a node.
pub open spec fn page_size(node: PageView) -> nat {
    match node {
        PageView::Leaf(leaf) => key::node_size(leaf.entries),
        PageView::Internal(internal) => key::node_size(internal.seps),
        _ => 0,
    }
}

/// What joining two leaves gives. The one that is not `current` was read.
pub open spec fn leaf_merge(
    left: LeafView,
    left_page: PageId,
    right: LeafView,
    right_page: PageId,
    current: PageId,
    capacity: u32,
) -> Result<Option<LeafView>, IndexError> {
    if left.entries.len() == 0 && left_page != current {
        Err(IndexError::EmptyLeaf { page_id: left_page })
    } else if right.entries.len() == 0 && right_page != current {
        Err(IndexError::EmptyLeaf { page_id: right_page })
    } else if left.next != Some(right_page) {
        Err(
            IndexError::InvalidLeafLink {
                left_page,
                expected_right: right_page,
                actual_right: left.next,
            },
        )
    } else {
        Ok(node::leaves_joined(left, right, capacity))
    }
}

/// The separator between a child and the neighbour that it is joined with:
/// the one to its right, or to its left where it is the last child.
pub open spec fn merge_place(parent: InternalView, place: int) -> int {
    if place < parent.seps.len() {
        place
    } else {
        place - 1
    }
}

/// What joining a child with its neighbour gives: nothing where the two do
/// not fit in one page.
pub open spec fn merge_of(
    pages: Seq<PageView>,
    parent: InternalView,
    place: int,
    current: Pending,
    capacity: u32,
) -> Result<Option<Merged>, IndexError> {
    let sep = merge_place(parent, place);
    let is_left = place < parent.seps.len();
    let left_page = if is_left {
        current.page
    } else {
        parent.kids[sep]
    };
    let right_page = if is_left {
        parent.kids[place + 1]
    } else {
        current.page
    };
    if sep < 0 {
        Err(IndexError::InvalidNodeType)
    } else {
        match current.node {
            PageView::Leaf(leaf) => match pages::leaf_read(
                pages,
                if is_left {
                    right_page
                } else {
                    left_page
                },
            ) {
                Err(error) => Err(error),
                Ok(other) => match leaf_merge(
                    if is_left {
                        leaf
                    } else {
                        other
                    },
                    left_page,
                    if is_left {
                        other
                    } else {
                        leaf
                    },
                    right_page,
                    current.page,
                    capacity,
                ) {
                    Err(error) => Err(error),
                    Ok(None) => Ok(None),
                    Ok(Some(joined)) => Ok(
                        Some(Merged { page: left_page, node: PageView::Leaf(joined), place: sep }),
                    ),
                },
            },
            PageView::Internal(inner) => match pages::internal_read(
                pages,
                if is_left {
                    right_page
                } else {
                    left_page
                },
            ) {
                Err(error) => Err(error),
                Ok(other) => match node::internals_joined(
                    if is_left {
                        inner
                    } else {
                        other
                    },
                    parent.seps[sep],
                    if is_left {
                        other
                    } else {
                        inner
                    },
                    capacity,
                ) {
                    None => Ok(None),
                    Some(joined) => Ok(
                        Some(
                            Merged {
                                page: left_page,
                                node: PageView::Internal(joined),
                                place: sep,
                            },
                        ),
                    ),
                },
            },
            _ => Err(IndexError::InvalidNodeType),
        }
    }
}

/// What happens at one inner node above.
pub open spec fn step_sink(
    pages: Seq<PageView>,
    step: StepView,
    sink: Sink,
    capacity: u32,
) -> Result<Sink, IndexError> {
    match sink.pending {
        None => Ok(sink),
        Some(current) => {
            let written = Sink {
                changes: sink.changes.push(change::rewritten(current.page, current.node)),
                retired: sink.retired,
                pending: None,
            };
            if page_size(current.node) >= capacity / 2 {
                Ok(written)
            } else {
                match merge_of(pages, step.node, step.place, current, capacity) {
                    Err(error) => Err(error),
                    Ok(None) => Ok(written),
                    Ok(Some(merged)) => Ok(
                        Sink {
                            changes: sink.changes.push(
                                change::rewritten(merged.page, merged.node),
                            ),
                            retired: sink.retired.push(step.node.kids[merged.place + 1]),
                            pending: Some(
                                Pending {
                                    page: step.page,
                                    node: PageView::Internal(
                                        internal::internal_without(step.node, merged.place),
                                    ),
                                },
                            ),
                        },
                    ),
                }
            }
        },
    }
}

/// What happens on the whole way up, from its last step to its first.
pub open spec fn sunk(
    pages: Seq<PageView>,
    path: Seq<StepView>,
    sink: Result<Sink, IndexError>,
    capacity: u32,
) -> Result<Sink, IndexError>
    decreases path.len(),
{
    if path.len() == 0 {
        sink
    } else {
        match sunk(pages, path.drop_first(), sink, capacity) {
            Err(error) => Err(error),
            Ok(below) => step_sink(pages, path[0], below, capacity),
        }
    }
}

/// What happens at the root: one that has a single child left is given up.
pub open spec fn root_sink(meta_page: PageId, meta: MetaNode, sink: Sink) -> Result<
    Seq<ChangeView>,
    IndexError,
> {
    match sink.pending {
        None => Ok(sink.changes),
        Some(current) => match current.node {
            PageView::Internal(root) if root.seps.len() == 0 => if meta.height < 2 {
                Err(IndexError::InvalidHeight(meta.height))
            } else {
                Ok(
                    sink.changes.push(
                        change::rewritten(
                            meta_page,
                            PageView::Meta(
                                MetaNode {
                                    root_page: root.kids[0],
                                    height: (meta.height - 1) as u16,
                                    spec: meta.spec,
                                },
                            ),
                        ),
                    ),
                )
            },
            _ => Ok(sink.changes.push(change::rewritten(current.page, current.node))),
        },
    }
}

/// A removal at its leaf.
pub open spec fn leaf_sink(page: PageId, leaf: LeafView) -> Sink {
    Sink {
        changes: Seq::empty(),
        retired: Seq::empty(),
        pending: Some(Pending { page, node: PageView::Leaf(leaf) }),
    }
}

/// What a removal wants written.
pub open spec fn delete_changes(
    pages: Seq<PageView>,
    capacity: u32,
    handle: BTreeHandle,
    entry: EntryView,
) -> Result<Seq<ChangeView>, IndexError> {
    match pages::meta_read(pages, handle) {
        Err(error) => Err(error),
        Ok(meta) => match key::key_check(meta.spec, entry.key) {
            Err(error) => Err(error),
            Ok(_) => match pages::descent(pages, meta.root_page, meta.height as nat, entry) {
                Err(error) => Err(error),
                Ok(way) => match node::leaf_without(meta.spec, way.leaf, entry) {
                    Err(error) => Err(error),
                    Ok(leaf) => match sunk(
                        pages,
                        way.path,
                        Ok(leaf_sink(way.page, leaf)),
                        capacity,
                    ) {
                        Err(error) => Err(error),
                        Ok(sink) => root_sink(handle.meta_page, meta, sink),
                    },
                },
            },
        },
    }
}

/// The pages that left the tree at the end of a removal: those that were
/// joined into their neighbours, and a root that was given up.
pub open spec fn root_retired(sink: Sink) -> Seq<PageId> {
    match sink.pending {
        Some(current) => match current.node {
            PageView::Internal(root) if root.seps.len() == 0 => sink.retired.push(current.page),
            _ => sink.retired,
        },
        None => sink.retired,
    }
}

/// The pages that a removal takes out of the tree, where it succeeds.
pub open spec fn delete_retired(
    pages: Seq<PageView>,
    capacity: u32,
    handle: BTreeHandle,
    entry: EntryView,
) -> Seq<PageId> {
    let meta = pages::meta_read(pages, handle)->Ok_0;
    let way = pages::descent(pages, meta.root_page, meta.height as nat, entry)->Ok_0;
    let leaf = node::leaf_without(meta.spec, way.leaf, entry)->Ok_0;
    root_retired(sunk(pages, way.path, Ok(leaf_sink(way.page, leaf)), capacity)->Ok_0)
}

/// What a removal wants done.
#[derive(Debug)]
pub struct Removal {
    /// What is to be written.
    pub changes: Vec<PageChange>,
    /// The pages that are no longer part of the tree then.
    pub retired: Vec<PageId>,
}

/// The last step of a way comes first on the way up.
pub proof fn lemma_sunk_last(
    pages: Seq<PageView>,
    path: Seq<StepView>,
    sink: Result<Sink, IndexError>,
    capacity: u32,
)
    requires
        path.len() > 0,
    ensures
        sunk(pages, path, sink, capacity) == sunk(
            pages,
            path.drop_last(),
            match sink {
                Err(error) => Err(error),
                Ok(below) => step_sink(pages, path.last(), below, capacity),
            },
            capacity,
        ),
    decreases path.len(),
{
    if path.len() == 1 {
        assert(path.drop_first() =~= Seq::empty());
        assert(path.drop_last() =~= Seq::empty());
    } else {
        lemma_sunk_last(pages, path.drop_first(), sink, capacity);
        assert(path.drop_first().drop_last() =~= path.drop_last().drop_first());
        assert(path.drop_first().last() == path.last());
    }
}

/// A way that is finished with, or refused, stays as it is.
pub proof fn lemma_sunk_done(
    pages: Seq<PageView>,
    path: Seq<StepView>,
    sink: Result<Sink, IndexError>,
    capacity: u32,
)
    requires
        sink matches Ok(known) ==> known.pending is None,
    ensures
        sunk(pages, path, sink, capacity) == sink,
    decreases path.len(),
{
    if path.len() > 0 {
        lemma_sunk_done(pages, path.drop_first(), sink, capacity);
    }
}

/// A node that lost something.
pub enum DeleteNode {
    Leaf(LeafNode),
    Internal(InternalNode),
}

impl View for DeleteNode {
    type V = PageView;

    open spec fn view(&self) -> PageView {
        match self {
            DeleteNode::Leaf(leaf) => PageView::Leaf(leaf@),
            DeleteNode::Internal(internal) => PageView::Internal(internal@),
        }
    }
}

impl DeleteNode {
    /// The bytes of the node.
    fn encoded_len(&self) -> (size: u64)
        ensures
            size == key::reported(page_size(self@)),
    {
        match self {
            DeleteNode::Leaf(leaf) => leaf.size(),
            DeleteNode::Internal(internal) => internal.size(),
        }
    }

    /// The page that holds the node.
    fn into_page(self) -> (page: TreePage)
        ensures
            page@ == self@,
    {
        match self {
            DeleteNode::Leaf(leaf) => TreePage::Leaf(leaf),
            DeleteNode::Internal(internal) => TreePage::Internal(internal),
        }
    }
}

/// Joins two leaves, one of which was read.
fn merge_leaves(
    left: &LeafNode,
    left_page: PageId,
    right: &LeafNode,
    right_page: PageId,
    current: PageId,
    capacity: u32,
) -> (outcome: Result<Option<LeafNode>, IndexError>)
    ensures
        match leaf_merge(left@, left_page, right@, right_page, current, capacity) {
            Err(error) => outcome == Err::<Option<LeafNode>, IndexError>(error),
            Ok(None) => outcome == Ok::<Option<LeafNode>, IndexError>(None),
            Ok(Some(joined)) => outcome matches Ok(Some(leaf)) && leaf@ == joined,
        },
{
    if left.entries.len() == 0 && left_page.0 != current.0 {
        return Err(IndexError::EmptyLeaf { page_id: left_page });
    }
    if right.entries.len() == 0 && right_page.0 != current.0 {
        return Err(IndexError::EmptyLeaf { page_id: right_page });
    }
    let linked = match left.next_leaf {
        Some(next) => next.0 == right_page.0,
        None => false,
    };
    if !linked {
        return Err(
            IndexError::InvalidLeafLink {
                left_page,
                expected_right: right_page,
                actual_right: left.next_leaf,
            },
        );
    }
    Ok(node::merge_leaves_if_fits(left, right, capacity))
}

impl BTree {
    /// What joining a child with its neighbour gives.
    fn preflight_merge(
        &self,
        parent: &InternalNode,
        place: usize,
        page: PageId,
        current: &DeleteNode,
    ) -> (outcome: Result<Option<(PageId, DeleteNode, usize)>, IndexError>)
        requires
            place <= parent@.seps.len(),
        ensures
            match merge_of(
                self@,
                parent@,
                place as int,
                (Pending { page, node: current@ }),
                self.capacity,
            ) {
                Err(error) => outcome == Err::<Option<(PageId, DeleteNode, usize)>, IndexError>(
                    error,
                ),
                Ok(None) => outcome == Ok::<Option<(PageId, DeleteNode, usize)>, IndexError>(None),
                Ok(Some(merged)) => outcome matches Ok(Some(found)) && found.0 == merged.page
                    && found.1@ == merged.node && found.2 == merged.place && found.2
                    < parent@.seps.len(),
            },
    {
        let count: usize = parent.separators.len();
        assert(parent@.seps.len() == count);
        let is_left = place < count;
        if !is_left && place == 0 {
            return Err(IndexError::InvalidNodeType);
        }
        let sep: usize = if is_left {
            place
        } else {
            place - 1
        };
        let left_page: PageId = if is_left {
            page
        } else {
            parent.child(sep)
        };
        let right_page: PageId = if is_left {
            parent.child(place + 1)
        } else {
            page
        };
        assert(parent@.seps[sep as int] == parent.separators@[sep as int].key@);
        match current {
            DeleteNode::Leaf(leaf) => {
                let merged = if is_left {
                    let other = self.read_leaf(right_page)?;
                    merge_leaves(leaf, left_page, &other, right_page, page, self.capacity)?
                } else {
                    let other = self.read_leaf(left_page)?;
                    merge_leaves(&other, left_page, leaf, right_page, page, self.capacity)?
                };
                match merged {
                    None => Ok(None),
                    Some(joined) => Ok(Some((left_page, DeleteNode::Leaf(joined), sep))),
                }
            },
            DeleteNode::Internal(inner) => {
                let merged = if is_left {
                    let other = self.read_internal(right_page)?;
                    internal::merge_internals_if_fits(
                        inner,
                        &parent.separators[sep].key,
                        &other,
                        self.capacity,
                    )
                } else {
                    let other = self.read_internal(left_page)?;
                    internal::merge_internals_if_fits(
                        &other,
                        &parent.separators[sep].key,
                        inner,
                        self.capacity,
                    )
                };
                match merged {
                    None => Ok(None),
                    Some(joined) => Ok(Some((left_page, DeleteNode::Internal(joined), sep))),
                }
            },
        }
    }

    /// Writes a node that lost something, or joins it with its neighbour and
    /// returns the node above that thereby lost a child.
    fn sink_through(
        &self,
        step: PathEntry,
        page: PageId,
        current: DeleteNode,
        removal: &mut Removal,
    ) -> (outcome: Result<Option<(PageId, DeleteNode)>, IndexError>)
        requires
            step.child_position <= step.node@.seps.len(),
        ensures
            match step_sink(
                self@,
                step@,
                sink_view(*old(removal), Some((page, current))),
                self.capacity,
            ) {
                Err(error) => outcome == Err::<Option<(PageId, DeleteNode)>, IndexError>(error),
                Ok(sink) => outcome matches Ok(pending) && sink_view(*final(removal), pending)
                    == sink,
            },
    {
        let PathEntry { page_id, node, child_position } = step;
        let size: u64 = current.encoded_len();
        if size >= (self.capacity / 2) as u64 {
            insert::push_change(&mut removal.changes, page, false, current.into_page());
            return Ok(None);
        }
        match self.preflight_merge(&node, child_position, page, &current)? {
            None => {
                insert::push_change(&mut removal.changes, page, false, current.into_page());
                Ok(None)
            },
            Some((retained, merged, sep)) => {
                insert::push_change(&mut removal.changes, retained, false, merged.into_page());
                let count: usize = node.separators.len();
                assert(sep < count);
                removal.retired.push(node.child(sep + 1));
                let mut above = node;
                above.remove_separator(sep);
                Ok(Some((page_id, DeleteNode::Internal(above))))
            },
        }
    }

    /// What deleting one entry wants written, for the caller's transaction,
    /// and the pages that thereby leave the tree. Nothing is written yet, so an
    /// entry that is not there changes nothing.
    pub fn delete_in(&self, handle: BTreeHandle, key: ScalarValue, row_id: RowId) -> (outcome:
        Result<Removal, IndexError>)
        ensures
            match delete_changes(
                self@,
                self.capacity,
                handle,
                (EntryView { key: value::scalar_view(key), row_id }),
            ) {
                Err(error) => outcome == Err::<Removal, IndexError>(error),
                Ok(list) => {
                    &&& outcome is Ok
                    &&& change::changes_view(outcome->Ok_0.changes@) == list
                    &&& outcome->Ok_0.retired@ == delete_retired(
                        self@,
                        self.capacity,
                        handle,
                        (EntryView { key: value::scalar_view(key), row_id }),
                    )
                },
            },
    {
        let meta = self.read_meta(handle)?;
        let entry = IndexEntry { key, row_id };
        let ghost shown = entry@;
        meta.spec.validate_key(&entry.key)?;
        let (leaf_page, leaf, path) = self.find_leaf_for_entry(&meta, &entry)?;
        let mut leaf = leaf;
        leaf.remove(&meta.spec, &entry)?;
        let mut removal = Removal { changes: Vec::new(), retired: Vec::new() };
        let mut pending: Option<(PageId, DeleteNode)> = Some((leaf_page, DeleteNode::Leaf(leaf)));
        let ghost way = pages::path_view(path@);
        let ghost whole = sunk(self@, way, Ok(leaf_sink(leaf_page, leaf@)), self.capacity);
        proof {
            assert(change::changes_view(removal.changes@) =~= Seq::empty());
            assert(removal.retired@ =~= Seq::empty());
            insert::lemma_descent_in_file(self@, meta.root_page, meta.height as nat, shown);
            assert forall|i: int| 0 <= i < path@.len() implies (#[trigger] path@[i]).child_position
                <= path@[i].node@.seps.len() by {
                assert(way[i] == path@[i]@);
            }
        }
        let mut path = path;
        while path.len() > 0
            invariant
                whole == sunk(
                    self@,
                    pages::path_view(path@),
                    Ok(sink_view(removal, pending)),
                    self.capacity,
                ),
                forall|i: int|
                    0 <= i < path@.len() ==> (#[trigger] path@[i]).child_position
                        <= path@[i].node@.seps.len(),
                match delete_changes(self@, self.capacity, handle, shown) {
                    Err(error) => match whole {
                        Err(other) => error == other,
                        Ok(sink) => root_sink(handle.meta_page, meta, sink) == Err::<
                            Seq<ChangeView>,
                            IndexError,
                        >(error),
                    },
                    Ok(list) => match whole {
                        Err(other) => false,
                        Ok(sink) => root_sink(handle.meta_page, meta, sink) == Ok::<
                            Seq<ChangeView>,
                            IndexError,
                        >(list),
                    },
                },
                shown == (EntryView { key: value::scalar_view(key), row_id }),
                delete_changes(self@, self.capacity, handle, shown) is Ok ==> delete_retired(
                    self@,
                    self.capacity,
                    handle,
                    shown,
                ) == root_retired(whole->Ok_0),
            decreases path@.len(),
        {
            let ghost steps = pages::path_view(path@);
            let ghost sink = sink_view(removal, pending);
            proof {
                lemma_sunk_last(self@, steps, Ok(sink), self.capacity);
            }
            let popped = path.pop();
            if let Some(step) = popped {
                assert(pages::path_view(path@) =~= steps.drop_last());
                assert(step@ == steps.last());
                match pending {
                    None => {
                        proof {
                            lemma_sunk_done(self@, steps, Ok(sink), self.capacity);
                        }
                        return Ok(removal);
                    },
                    Some((page, current)) => {
                        proof {
                            let after = step_sink(self@, step@, sink, self.capacity);
                            if after is Err {
                                lemma_sunk_done(self@, steps.drop_last(), after, self.capacity);
                            }
                        }
                        pending = self.sink_through(step, page, current, &mut removal)?;
                    },
                }
            }
        }
        proof {
            assert(pages::path_view(path@) =~= Seq::empty());
        }
        match pending {
            None => Ok(removal),
            Some((page, current)) => {
                let collapsed = match &current {
                    DeleteNode::Internal(root) => root.separators.len() == 0,
                    DeleteNode::Leaf(_) => false,
                };
                if collapsed {
                    if let DeleteNode::Internal(root) = &current {
                        if meta.height < 2 {
                            return Err(IndexError::InvalidHeight(meta.height));
                        }
                        let updated = MetaNode {
                            root_page: root.first_child,
                            height: meta.height - 1,
                            spec: meta.spec.copy(),
                        };
                        removal.retired.push(page);
                        insert::push_change(
                            &mut removal.changes,
                            handle.meta_page,
                            false,
                            TreePage::Meta(updated),
                        );
                    }
                } else {
                    insert::push_change(&mut removal.changes, page, false, current.into_page());
                }
                Ok(removal)
            },
        }
    }
}

/// What is known of a removal on its way up.
pub open spec fn sink_view(removal: Removal, pending: Option<(PageId, DeleteNode)>) -> Sink {
    Sink {
        changes: change::changes_view(removal.changes@),
        retired: removal.retired@,
        pending: match pending {
            Some((page, node)) => Some(Pending { page, node: node@ }),
            None => None,
        },
    }
}

} // verus!
