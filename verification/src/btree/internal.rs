//! What is done to one inner node.
use super::error::IndexError;
use super::key;
use super::key::{EntryView, IndexEntry};
use super::node;
use super::node::{InternalNode, InternalSeparator, InternalView};
use crate::ids::PageId;
use crate::value;
use crate::value::{Ordered, ScalarValue, ScalarView};
use vstd::prelude::*;

verus! {

/// An inner node with a separator put in and a child to its right.
pub open spec fn internal_with(
    node: InternalView,
    place: int,
    fence: EntryView,
    right_page: PageId,
) -> InternalView {
    InternalView {
        kids: node.kids.insert(place + 1, right_page),
        seps: node.seps.insert(place, fence),
    }
}

/// An inner node with a separator taken out and the child to its right.
pub open spec fn internal_without(node: InternalView, place: int) -> InternalView {
    InternalView { kids: node.kids.remove(place + 1), seps: node.seps.remove(place) }
}

/// The first child that a key may be under, from place `i` on: the one
/// before the first separator whose key is not smaller.
pub open spec fn key_place_from(seps: Seq<EntryView>, key: ScalarView, i: int) -> int
    decreases seps.len() - i,
{
    if 0 <= i < seps.len() && value::value_order(key, seps[i].key) == Ordered::After {
        key_place_from(seps, key, i + 1)
    } else {
        i
    }
}

/// Where a key's place lies and what is known there.
pub proof fn lemma_key_place_from(seps: Seq<EntryView>, key: ScalarView, i: int)
    requires
        0 <= i <= seps.len(),
    ensures
        i <= key_place_from(seps, key, i) <= seps.len(),
        forall|j: int|
            i <= j < key_place_from(seps, key, i) ==> value::value_order(
                key,
                (#[trigger] seps[j]).key,
            ) == Ordered::After,
        key_place_from(seps, key, i) < seps.len() ==> value::value_order(
            key,
            seps[key_place_from(seps, key, i)].key,
        ) != Ordered::After,
    decreases seps.len() - i,
{
    if i < seps.len() && value::value_order(key, seps[i].key) == Ordered::After {
        lemma_key_place_from(seps, key, i + 1);
    }
}

/// A copy of a stretch of separators.
fn copy_separators(separators: &[InternalSeparator], start: usize, end: usize) -> (copy: Vec<
    InternalSeparator,
>)
    requires
        start <= end <= separators@.len(),
    ensures
        copy@.len() == end - start,
        forall|i: int|
            0 <= i < copy@.len() ==> (#[trigger] copy@[i]).key@ == separators@[start + i].key@
                && copy@[i].right_child == separators@[start + i].right_child,
{
    let mut copy: Vec<InternalSeparator> = Vec::new();
    let mut i: usize = start;
    while i < end
        invariant
            start <= i <= end <= separators@.len(),
            copy@.len() == i - start,
            forall|j: int|
                0 <= j < copy@.len() ==> (#[trigger] copy@[j]).key@ == separators@[start + j].key@
                    && copy@[j].right_child == separators@[start + j].right_child,
        decreases end - i,
    {
        copy.push(
            InternalSeparator {
                key: separators[i].key.copy(),
                right_child: separators[i].right_child,
            },
        );
        i = i + 1;
    }
    copy
}

impl InternalNode {
    /// A copy of the node.
    pub fn copy(&self) -> (copy: InternalNode)
        ensures
            copy@ == self@,
    {
        let node = InternalNode {
            first_child: self.first_child,
            separators: copy_separators(self.separators.as_slice(), 0, self.separators.len()),
        };
        assert(node@.seps =~= self@.seps);
        assert(node@.kids =~= self@.kids);
        node
    }

    /// The separators without their children.
    fn keys(&self) -> (keys: Vec<IndexEntry>)
        ensures
            key::entries_view(keys@) == self@.seps,
    {
        let mut keys: Vec<IndexEntry> = Vec::new();
        let mut i: usize = 0;
        while i < self.separators.len()
            invariant
                i <= self.separators@.len(),
                keys@.len() == i,
                forall|j: int| 0 <= j < i ==> (#[trigger] keys@[j])@ == self.separators@[j].key@,
            decreases self.separators@.len() - i,
        {
            keys.push(self.separators[i].key.copy());
            i = i + 1;
        }
        assert(key::entries_view(keys@) =~= self@.seps);
        keys
    }

    /// The bytes of the node.
    pub fn size(&self) -> (size: u64)
        ensures
            size == key::reported(key::node_size(self@.seps)),
    {
        key::size_of_node(self.keys().as_slice())
    }

    /// The child that an entry belongs to.
    pub fn child_position(&self, entry: &IndexEntry) -> (place: usize)
        ensures
            place == node::place_of(self@.seps, entry@),
            place <= self@.seps.len(),
    {
        let mut i: usize = 0;
        let length: usize = self.separators.len();
        while i < length
            invariant
                i <= length,
                length == self.separators@.len(),
                node::place_of(self@.seps, entry@) == node::place_from(
                    self@.seps,
                    entry@,
                    i as int,
                ),
            decreases length - i,
        {
            assert(self@.seps[i as int] == self.separators@[i as int].key@);
            if key::compare_entry_keys(entry, &self.separators[i].key) == Ordered::Before {
                return i;
            }
            i = i + 1;
        }
        i
    }

    /// The first child that a key may be under.
    pub fn key_position(&self, key: &ScalarValue) -> (place: usize)
        ensures
            place == key_place_from(self@.seps, value::scalar_view(*key), 0),
            place <= self@.seps.len(),
    {
        let mut i: usize = 0;
        let length: usize = self.separators.len();
        while i < length
            invariant
                i <= length,
                length == self.separators@.len(),
                key_place_from(self@.seps, value::scalar_view(*key), 0) == key_place_from(
                    self@.seps,
                    value::scalar_view(*key),
                    i as int,
                ),
            decreases length - i,
        {
            assert(self@.seps[i as int] == self.separators@[i as int].key@);
            if key::compare_key_to_entry(key, &self.separators[i].key) != Ordered::After {
                return i;
            }
            i = i + 1;
        }
        i
    }

    /// The child at a place.
    pub fn child(&self, place: usize) -> (page: PageId)
        requires
            place <= self@.seps.len(),
        ensures
            page == self@.kids[place as int],
    {
        if place == 0 {
            self.first_child
        } else {
            self.separators[place - 1].right_child
        }
    }

    /// Puts a separator in and a child to its right.
    pub fn insert_separator(&mut self, place: usize, fence: IndexEntry, right_page: PageId)
        requires
            place <= old(self)@.seps.len(),
        ensures
            final(self)@ == internal_with(old(self)@, place as int, fence@, right_page),
    {
        let ghost shown = fence@;
        self.separators.insert(place, InternalSeparator { key: fence, right_child: right_page });
        assert(self@.seps =~= old(self)@.seps.insert(place as int, shown));
        assert(self@.kids =~= old(self)@.kids.insert(place + 1, right_page));
    }

    /// Takes a separator out and the child to its right.
    pub fn remove_separator(&mut self, place: usize)
        requires
            place < old(self)@.seps.len(),
        ensures
            final(self)@ == internal_without(old(self)@, place as int),
    {
        self.separators.remove(place);
        assert(self@.seps =~= old(self)@.seps.remove(place as int));
        assert(self@.kids =~= old(self)@.kids.remove(place + 1));
    }
}

/// Parts an overfull inner node. Returns the left part, the separator that
/// moves up and the right part.
pub fn split_internal(whole: &InternalNode, capacity: u32) -> (outcome: Result<
    (InternalNode, IndexEntry, InternalNode),
    IndexError,
>)
    ensures
        match node::internal_parts(whole@, capacity) {
            Err(error) => outcome == Err::<(InternalNode, IndexEntry, InternalNode), IndexError>(
                error,
            ),
            Ok(parts) => outcome matches Ok(nodes) && nodes.0@ == parts.left && nodes.1@
                == parts.fence && nodes.2@ == parts.right,
        },
{
    let keys = whole.keys();
    let size: u64 = key::size_of_node(keys.as_slice());
    let length: usize = keys.len();
    assert(whole@.seps.len() == length);
    if length < 3 {
        return Err(IndexError::NodeTooLarge { size, capacity });
    }
    let ghost shown = whole@.seps;
    let ghost place_shown = node::fence_place(shown);
    proof {
        node::lemma_cut(shown, 1);
        key::lemma_front_size_parts(shown, place_shown, length as int);
        key::lemma_front_size_parts(shown, place_shown + 1, length as int);
        key::lemma_front_size_parts(shown, node::cut(shown, 1), length as int);
    }
    if size >= u64::MAX / 2 {
        return Err(IndexError::NodeTooLarge { size, capacity });
    }
    let cut: usize = node::find_cut(keys.as_slice());
    let place: usize = if cut + 1 < length {
        cut
    } else {
        length - 2
    };
    let left = InternalNode {
        first_child: whole.first_child,
        separators: copy_separators(whole.separators.as_slice(), 0, place),
    };
    let right = InternalNode {
        first_child: whole.separators[place].right_child,
        separators: copy_separators(whole.separators.as_slice(), place + 1, length),
    };
    assert(left@.seps =~= shown.take(place as int));
    assert(left@.kids =~= whole@.kids.take(place + 1));
    assert(right@.seps =~= shown.skip(place + 1));
    assert(right@.kids =~= whole@.kids.skip(place + 1));
    if left.size() > capacity as u64 || right.size() > capacity as u64 {
        return Err(IndexError::NodeTooLarge { size, capacity });
    }
    let fence = whole.separators[place].key.copy();
    assert(shown[place as int] == whole.separators@[place as int].key@);
    Ok((left, fence, right))
}

/// Joins two neighbouring inner nodes and the separator between them where
/// they fit in one.
pub fn merge_internals_if_fits(
    left: &InternalNode,
    fence: &IndexEntry,
    right: &InternalNode,
    capacity: u32,
) -> (merged: Option<InternalNode>)
    ensures
        match node::internals_joined(left@, fence@, right@, capacity) {
            None => merged is None,
            Some(joined) => merged matches Some(node) && node@ == joined,
        },
{
    let mut whole = left.copy();
    whole.separators.push(
        InternalSeparator { key: fence.copy(), right_child: right.first_child },
    );
    let mut rest = right.copy();
    whole.separators.append(&mut rest.separators);
    assert(whole@.seps =~= left@.seps.push(fence@) + right@.seps);
    assert(whole@.kids =~= left@.kids + right@.kids);
    if whole.size() <= capacity as u64 {
        Some(whole)
    } else {
        None
    }
}

} // verus!
