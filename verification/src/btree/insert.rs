//! Putting an entry into a tree.
use super::change;
use super::change::{ChangeView, PageChange};
use super::error::IndexError;
use super::internal;
use super::key;
use super::key::{EntryView, IndexEntry};
use super::node;
use super::node::{InternalNode, InternalSeparator, InternalView, LeafNode, LeafView, MetaNode};
use super::pages;
use super::pages::{BTree, BTreeHandle, PageView, PathEntry, StepView, TreePage};
use crate::ids::{PageId, RowId};
use crate::value;
use crate::value::ScalarValue;
use vstd::prelude::*;

verus! {

/// A node that was parted: the separator and the new page to its right.
#[verifier::ext_equal]
pub struct Promoted {
    pub fence: EntryView,
    pub right: PageId,
}

/// An insertion on its way up: what was changed so far, what the next node
/// above has to take, and the next free page.
#[verifier::ext_equal]
pub struct Rise {
    pub changes: Seq<ChangeView>,
    pub up: Option<Promoted>,
    pub next: nat,
}

/// A page number as it is stored.
pub open spec fn page_at(number: nat) -> PageId {
    PageId(number as u64)
}

/// What happens at the leaf.
pub open spec fn leaf_rise(count: nat, page: PageId, leaf: LeafView, capacity: u32) -> Result<
    Rise,
    IndexError,
> {
    if key::node_size(leaf.entries) <= capacity {
        Ok(
            Rise {
                changes: seq![change::rewritten(page, PageView::Leaf(leaf))],
                up: None,
                next: count,
            },
        )
    } else if count >= u64::MAX {
        Err(IndexError::InvalidChild(page_at(count)))
    } else {
        match node::leaf_parts(leaf, page_at(count), capacity) {
            Err(error) => Err(error),
            Ok(parts) => Ok(
                Rise {
                    changes: seq![
                        change::new_page(page_at(count), PageView::Leaf(parts.right)),
                        change::rewritten(page, PageView::Leaf(parts.left)),
                    ],
                    up: Some(Promoted { fence: parts.fence, right: page_at(count) }),
                    next: count + 1,
                },
            ),
        }
    }
}

/// What happens at one inner node above.
pub open spec fn step_rise(step: StepView, rise: Rise, capacity: u32) -> Result<Rise, IndexError> {
    match rise.up {
        None => Ok(rise),
        Some(promoted) => {
            let taken = internal::internal_with(
                step.node,
                step.place,
                promoted.fence,
                promoted.right,
            );
            if key::node_size(taken.seps) <= capacity {
                Ok(
                    Rise {
                        changes: rise.changes.push(
                            change::rewritten(step.page, PageView::Internal(taken)),
                        ),
                        up: None,
                        next: rise.next,
                    },
                )
            } else if rise.next >= u64::MAX {
                Err(IndexError::InvalidChild(page_at(rise.next)))
            } else {
                match node::internal_parts(taken, capacity) {
                    Err(error) => Err(error),
                    Ok(parts) => Ok(
                        Rise {
                            changes: rise.changes.push(
                                change::new_page(
                                    page_at(rise.next),
                                    PageView::Internal(parts.right),
                                ),
                            ).push(change::rewritten(step.page, PageView::Internal(parts.left))),
                            up: Some(Promoted { fence: parts.fence, right: page_at(rise.next) }),
                            next: rise.next + 1,
                        },
                    ),
                }
            }
        },
    }
}

/// What happens on the whole way up, from its last step to its first.
pub open spec fn risen(path: Seq<StepView>, rise: Result<Rise, IndexError>, capacity: u32) -> Result<
    Rise,
    IndexError,
>
    decreases path.len(),
{
    if path.len() == 0 {
        rise
    } else {
        match risen(path.drop_first(), rise, capacity) {
            Err(error) => Err(error),
            Ok(below) => step_rise(path[0], below, capacity),
        }
    }
}

/// What happens above the root: a parted root gets a new one over it.
pub open spec fn root_rise(
    meta_page: PageId,
    meta: MetaNode,
    rise: Rise,
    capacity: u32,
) -> Result<Seq<ChangeView>, IndexError> {
    match rise.up {
        None => Ok(rise.changes),
        Some(promoted) => {
            let root = InternalView {
                kids: seq![meta.root_page, promoted.right],
                seps: seq![promoted.fence],
            };
            if rise.next >= u64::MAX {
                Err(IndexError::InvalidChild(page_at(rise.next)))
            } else if key::node_size(root.seps) > capacity {
                Err(
                    IndexError::NodeTooLarge {
                        size: key::reported(key::node_size(root.seps)),
                        capacity,
                    },
                )
            } else if meta.height == u16::MAX {
                Err(IndexError::InvalidHeight(meta.height))
            } else {
                Ok(
                    rise.changes.push(
                        change::new_page(page_at(rise.next), PageView::Internal(root)),
                    ).push(
                        change::rewritten(
                            meta_page,
                            PageView::Meta(
                                MetaNode {
                                    root_page: page_at(rise.next),
                                    height: (meta.height + 1) as u16,
                                    spec: meta.spec,
                                },
                            ),
                        ),
                    ),
                )
            }
        },
    }
}

/// What an insertion wants written.
pub open spec fn insert_changes(
    pages: Seq<PageView>,
    capacity: u32,
    handle: BTreeHandle,
    entry: EntryView,
) -> Result<Seq<ChangeView>, IndexError> {
    match pages::meta_read(pages, handle) {
        Err(error) => Err(error),
        Ok(meta) => match key::fit_check(meta.spec, entry, capacity) {
            Err(error) => Err(error),
            Ok(_) => match pages::descent(pages, meta.root_page, meta.height as nat, entry) {
                Err(error) => Err(error),
                Ok(way) => match node::leaf_with(meta.spec, way.leaf, entry) {
                    Err(error) => Err(error),
                    Ok(leaf) => match risen(
                        way.path,
                        leaf_rise(pages.len(), way.page, leaf, capacity),
                        capacity,
                    ) {
                        Err(error) => Err(error),
                        Ok(rise) => root_rise(handle.meta_page, meta, rise, capacity),
                    },
                },
            },
        },
    }
}

/// The last step of a way comes first on the way up.
pub proof fn lemma_risen_last(
    path: Seq<StepView>,
    rise: Result<Rise, IndexError>,
    capacity: u32,
)
    requires
        path.len() > 0,
    ensures
        risen(path, rise, capacity) == risen(
            path.drop_last(),
            match rise {
                Err(error) => Err(error),
                Ok(below) => step_rise(path.last(), below, capacity),
            },
            capacity,
        ),
    decreases path.len(),
{
    if path.len() == 1 {
        assert(path.drop_first() =~= Seq::empty());
        assert(path.drop_last() =~= Seq::empty());
    } else {
        lemma_risen_last(path.drop_first(), rise, capacity);
        assert(path.drop_first().drop_last() =~= path.drop_last().drop_first());
        assert(path.drop_first().last() == path.last());
    }
}

/// A way that is finished with stays as it is.
pub proof fn lemma_risen_done(path: Seq<StepView>, rise: Rise, capacity: u32)
    requires
        rise.up is None,
    ensures
        risen(path, Ok(rise), capacity) == Ok::<Rise, IndexError>(rise),
    decreases path.len(),
{
    if path.len() > 0 {
        lemma_risen_done(path.drop_first(), rise, capacity);
    }
}

/// A refused way up stays refused.
pub proof fn lemma_risen_refused(path: Seq<StepView>, error: IndexError, capacity: u32)
    ensures
        risen(path, Err(error), capacity) == Err::<Rise, IndexError>(error),
    decreases path.len(),
{
    if path.len() > 0 {
        lemma_risen_refused(path.drop_first(), error, capacity);
    }
}

/// A way leads through pages of the file and takes children that are there.
pub proof fn lemma_descent_in_file(
    pages: Seq<PageView>,
    page: PageId,
    height: nat,
    entry: EntryView,
)
    ensures
        match pages::descent(pages, page, height, entry) {
            Err(_) => true,
            Ok(way) => {
                &&& pages::is_child(pages, way.page)
                &&& forall|i: int|
                    0 <= i < way.path.len() ==> pages::is_child(pages, (#[trigger] way.path[i]).page)
                        && 0 <= way.path[i].place <= way.path[i].node.seps.len()
            },
        },
    decreases height,
{
    if height > 1 {
        match pages::internal_read(pages, page) {
            Err(_) => {},
            Ok(node) => {
                let place = node::place_of(node.seps, entry);
                node::lemma_place_from(node.seps, entry, 0);
                lemma_descent_in_file(pages, node.kids[place], (height - 1) as nat, entry);
                if pages::descent(pages, page, height, entry) is Ok {
                    let way = pages::descent(pages, page, height, entry)->Ok_0;
                    let below = pages::descent(
                        pages,
                        node.kids[place],
                        (height - 1) as nat,
                        entry,
                    )->Ok_0;
                    assert forall|i: int| 0 <= i < way.path.len() implies pages::is_child(
                        pages,
                        (#[trigger] way.path[i]).page,
                    ) && 0 <= way.path[i].place <= way.path[i].node.seps.len() by {
                        if i > 0 {
                            assert(way.path[i] == below.path[i - 1]);
                        }
                    }
                }
            },
        }
    }
}

/// The next page number, where there is one.
fn take_page_id(next: &mut u64) -> (outcome: Result<PageId, IndexError>)
    ensures
        *old(next) == u64::MAX ==> outcome == Err::<PageId, IndexError>(
            IndexError::InvalidChild(PageId(*old(next))),
        ) && *final(next) == *old(next),
        *old(next) < u64::MAX ==> outcome == Ok::<PageId, IndexError>(PageId(*old(next)))
            && *final(next) == *old(next) + 1,
{
    let current: u64 = *next;
    if current == u64::MAX {
        return Err(IndexError::InvalidChild(PageId(current)));
    }
    *next = current + 1;
    Ok(PageId(current))
}

/// A list with one more change.
pub(crate) fn push_change(changes: &mut Vec<PageChange>, page_id: PageId, new_page: bool, after: TreePage)
    ensures
        change::changes_view(final(changes)@) == change::changes_view(old(changes)@).push(
            (ChangeView { page: page_id, new: new_page, after: after@ }),
        ),
{
    changes.push(PageChange { page_id, new_page, after });
    assert(change::changes_view(changes@) =~= change::changes_view(old(changes)@).push(
        (ChangeView { page: page_id, new: new_page, after: after@ }),
    ));
}

/// What the next node above has to take.
pub open spec fn promoted_view(up: Option<(IndexEntry, PageId)>) -> Option<Promoted> {
    match up {
        Some((fence, right)) => Some(Promoted { fence: fence@, right }),
        None => None,
    }
}

/// What is known of an insertion on its way up.
pub open spec fn rise_view(
    changes: Seq<PageChange>,
    up: Option<(IndexEntry, PageId)>,
    next: u64,
) -> Rise {
    Rise { changes: change::changes_view(changes), up: promoted_view(up), next: next as nat }
}

impl BTree {
    /// Writes the leaf, or its two parts.
    fn rise_from_leaf(
        &self,
        page: PageId,
        leaf: LeafNode,
        changes: &mut Vec<PageChange>,
        next: &mut u64,
    ) -> (outcome: Result<Option<(IndexEntry, PageId)>, IndexError>)
        requires
            old(changes)@.len() == 0,
        ensures
            match leaf_rise(*old(next) as nat, page, leaf@, self.capacity) {
                Err(error) => outcome == Err::<Option<(IndexEntry, PageId)>, IndexError>(error),
                Ok(rise) => outcome matches Ok(up) && rise_view(final(changes)@, up, *final(next))
                    == rise,
            },
    {
        assert(change::changes_view(changes@) =~= Seq::empty());
        if leaf.size() <= self.capacity as u64 {
            push_change(changes, page, false, TreePage::Leaf(leaf));
            assert(change::changes_view(changes@) =~= seq![
                change::rewritten(page, PageView::Leaf(leaf@)),
            ]);
            return Ok(None);
        }
        let right_page = take_page_id(next)?;
        let (left, right, fence) = node::split_leaf(&leaf, right_page, self.capacity)?;
        push_change(changes, right_page, true, TreePage::Leaf(right));
        push_change(changes, page, false, TreePage::Leaf(left));
        assert(change::changes_view(changes@) =~= seq![
            change::new_page(right_page, PageView::Leaf(right@)),
            change::rewritten(page, PageView::Leaf(left@)),
        ]);
        Ok(Some((fence, right_page)))
    }

    /// Puts a separator into the next node above, and parts it where it must.
    fn rise_through(
        &self,
        step: PathEntry,
        fence: IndexEntry,
        right: PageId,
        changes: &mut Vec<PageChange>,
        next: &mut u64,
    ) -> (outcome: Result<Option<(IndexEntry, PageId)>, IndexError>)
        requires
            step.child_position <= step.node@.seps.len(),
        ensures
            match step_rise(
                step@,
                rise_view(old(changes)@, Some((fence, right)), *old(next)),
                self.capacity,
            ) {
                Err(error) => outcome == Err::<Option<(IndexEntry, PageId)>, IndexError>(error),
                Ok(rise) => outcome matches Ok(up) && rise_view(final(changes)@, up, *final(next))
                    == rise,
            },
    {
        let PathEntry { page_id, node, child_position } = step;
        let mut node = node;
        node.insert_separator(child_position, fence, right);
        if node.size() <= self.capacity as u64 {
            push_change(changes, page_id, false, TreePage::Internal(node));
            return Ok(None);
        }
        let right_page = take_page_id(next)?;
        let (left_node, promoted, right_node) = internal::split_internal(&node, self.capacity)?;
        push_change(changes, right_page, true, TreePage::Internal(right_node));
        push_change(changes, page_id, false, TreePage::Internal(left_node));
        Ok(Some((promoted, right_page)))
    }

    /// Puts a new root over the two parts of the old one.
    fn rise_above_root(
        &self,
        meta_page: PageId,
        meta: &MetaNode,
        fence: IndexEntry,
        right: PageId,
        changes: &mut Vec<PageChange>,
        next: &mut u64,
    ) -> (outcome: Result<(), IndexError>)
        ensures
            match root_rise(
                meta_page,
                *meta,
                rise_view(old(changes)@, Some((fence, right)), *old(next)),
                self.capacity,
            ) {
                Err(error) => outcome == Err::<(), IndexError>(error),
                Ok(list) => outcome is Ok && change::changes_view(final(changes)@) == list,
            },
    {
        let root_page = take_page_id(next)?;
        let ghost shown = fence@;
        let mut separators: Vec<InternalSeparator> = Vec::new();
        separators.push(InternalSeparator { key: fence, right_child: right });
        let root = InternalNode { first_child: meta.root_page, separators };
        assert(root@.seps =~= seq![shown]);
        assert(root@.kids =~= seq![meta.root_page, right]);
        let size: u64 = root.size();
        if size > self.capacity as u64 {
            return Err(IndexError::NodeTooLarge { size, capacity: self.capacity });
        }
        if meta.height == u16::MAX {
            return Err(IndexError::InvalidHeight(meta.height));
        }
        push_change(changes, root_page, true, TreePage::Internal(root));
        let updated = MetaNode {
            root_page,
            height: meta.height + 1,
            spec: meta.spec.copy(),
        };
        push_change(changes, meta_page, false, TreePage::Meta(updated));
        Ok(())
    }

    /// What inserting one entry wants written, for the caller's transaction.
    /// Nothing is written yet.
    pub fn insert_in(&self, handle: BTreeHandle, key: ScalarValue, row_id: RowId) -> (outcome:
        Result<Vec<PageChange>, IndexError>)
        ensures
            match insert_changes(
                self@,
                self.capacity,
                handle,
                (EntryView { key: value::scalar_view(key), row_id }),
            ) {
                Err(error) => outcome == Err::<Vec<PageChange>, IndexError>(error),
                Ok(list) => outcome matches Ok(changes) && change::changes_view(changes@) == list,
            },
    {
        let meta = self.read_meta(handle)?;
        let entry = IndexEntry { key, row_id };
        let ghost shown = entry@;
        key::ensure_entry_fits(&meta.spec, &entry, self.capacity)?;
        let (leaf_page, leaf, path) = self.find_leaf_for_entry(&meta, &entry)?;
        let mut leaf = leaf;
        leaf.insert(&meta.spec, entry)?;
        let mut changes: Vec<PageChange> = Vec::new();
        let mut next: u64 = self.page_count();
        let ghost way = pages::path_view(path@);
        let ghost first = leaf_rise(self@.len(), leaf_page, leaf@, self.capacity);
        let ghost whole = risen(way, first, self.capacity);
        proof {
            lemma_descent_in_file(self@, meta.root_page, meta.height as nat, shown);
            assert forall|i: int| 0 <= i < path@.len() implies (#[trigger] path@[i]).child_position
                <= path@[i].node@.seps.len() by {
                assert(way[i] == path@[i]@);
            }
            if first is Err {
                lemma_risen_refused(way, first->Err_0, self.capacity);
            }
        }
        let mut up = self.rise_from_leaf(leaf_page, leaf, &mut changes, &mut next)?;
        let mut path = path;
        while path.len() > 0
            invariant
                whole == risen(
                    pages::path_view(path@),
                    Ok(rise_view(changes@, up, next)),
                    self.capacity,
                ),
                forall|i: int|
                    0 <= i < path@.len() ==> (#[trigger] path@[i]).child_position
                        <= path@[i].node@.seps.len(),
                match insert_changes(self@, self.capacity, handle, shown) {
                    Err(error) => match whole {
                        Err(other) => error == other,
                        Ok(rise) => root_rise(handle.meta_page, meta, rise, self.capacity)
                            == Err::<Seq<ChangeView>, IndexError>(error),
                    },
                    Ok(list) => match whole {
                        Err(other) => false,
                        Ok(rise) => root_rise(handle.meta_page, meta, rise, self.capacity)
                            == Ok::<Seq<ChangeView>, IndexError>(list),
                    },
                },
                shown == (EntryView { key: value::scalar_view(key), row_id }),
            decreases path@.len(),
        {
            let ghost steps = pages::path_view(path@);
            let ghost rise = rise_view(changes@, up, next);
            proof {
                lemma_risen_last(steps, Ok(rise), self.capacity);
            }
            let popped = path.pop();
            if let Some(step) = popped {
                assert(pages::path_view(path@) =~= steps.drop_last());
                assert(step@ == steps.last());
                match up {
                    None => {
                        proof {
                            lemma_risen_done(steps, rise, self.capacity);
                        }
                        return Ok(changes);
                    },
                    Some((fence, right)) => {
                        proof {
                            let after = step_rise(step@, rise, self.capacity);
                            if after is Err {
                                lemma_risen_refused(
                                    steps.drop_last(),
                                    after->Err_0,
                                    self.capacity,
                                );
                            }
                        }
                        up = self.rise_through(step, fence, right, &mut changes, &mut next)?;
                    },
                }
            }
        }
        proof {
            assert(pages::path_view(path@) =~= Seq::empty());
        }
        match up {
            None => Ok(changes),
            Some((fence, right)) => {
                self.rise_above_root(
                    handle.meta_page,
                    &meta,
                    fence,
                    right,
                    &mut changes,
                    &mut next,
                )?;
                Ok(changes)
            },
        }
    }
}

} // verus!
