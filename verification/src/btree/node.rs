//! The nodes of a tree and what is done to one node.
use super::error::IndexError;
use super::key;
use super::key::{EntryView, IndexEntry, IndexSpec};
use crate::ids::PageId;
use crate::value::Ordered;
use vstd::prelude::*;

verus! {

/// A leaf: entries in ascending order and the leaf that follows.
#[derive(Debug, PartialEq, Eq)]
pub struct LeafNode {
    pub entries: Vec<IndexEntry>,
    pub next_leaf: Option<PageId>,
}

/// A separator of an inner node and the child to its right.
#[derive(Debug, PartialEq, Eq)]
pub struct InternalSeparator {
    pub key: IndexEntry,
    pub right_child: PageId,
}

/// An inner node: a first child, and separators each with a further child.
#[derive(Debug, PartialEq, Eq)]
pub struct InternalNode {
    pub first_child: PageId,
    pub separators: Vec<InternalSeparator>,
}

/// The root of a tree, at a page that never moves.
#[derive(Debug, PartialEq, Eq)]
pub struct MetaNode {
    pub root_page: PageId,
    pub height: u16,
    pub spec: IndexSpec,
}

/// What a leaf says.
#[verifier::ext_equal]
pub struct LeafView {
    pub entries: Seq<EntryView>,
    pub next: Option<PageId>,
}

/// What an inner node says: its children and the separators between them.
#[verifier::ext_equal]
pub struct InternalView {
    pub kids: Seq<PageId>,
    pub seps: Seq<EntryView>,
}

impl View for LeafNode {
    type V = LeafView;

    open spec fn view(&self) -> LeafView {
        LeafView { entries: key::entries_view(self.entries@), next: self.next_leaf }
    }
}

impl View for InternalNode {
    type V = InternalView;

    open spec fn view(&self) -> InternalView {
        InternalView {
            kids: Seq::new(
                self.separators@.len() + 1,
                |i: int|
                    if i == 0 {
                        self.first_child
                    } else {
                        self.separators@[i - 1].right_child
                    },
            ),
            seps: self.separators@.map_values(|separator: InternalSeparator| separator.key@),
        }
    }
}

// ---------------------------------------------------------------------------
// Places
// ---------------------------------------------------------------------------
/// The number of leading entries that come before `entry`.
pub open spec fn rank_of(entries: Seq<EntryView>, entry: EntryView) -> int {
    rank_from(entries, entry, 0)
}

/// The first place from `i` on whose entry does not come before `entry`.
pub open spec fn rank_from(entries: Seq<EntryView>, entry: EntryView, i: int) -> int
    decreases entries.len() - i,
{
    if 0 <= i < entries.len() && key::before(entries[i], entry) {
        rank_from(entries, entry, i + 1)
    } else {
        i
    }
}

/// The child that an entry belongs to: an entry equal to a separator belongs
/// to its right.
pub open spec fn place_of(seps: Seq<EntryView>, entry: EntryView) -> int {
    place_from(seps, entry, 0)
}

/// The first place from `i` on whose separator comes after `entry`.
pub open spec fn place_from(seps: Seq<EntryView>, entry: EntryView, i: int) -> int
    decreases seps.len() - i,
{
    if 0 <= i < seps.len() && !key::before(entry, seps[i]) {
        place_from(seps, entry, i + 1)
    } else {
        i
    }
}

/// Where a rank lies and what is known there.
pub proof fn lemma_rank_from(entries: Seq<EntryView>, entry: EntryView, i: int)
    requires
        0 <= i <= entries.len(),
    ensures
        i <= rank_from(entries, entry, i) <= entries.len(),
        forall|j: int|
            i <= j < rank_from(entries, entry, i) ==> key::before(#[trigger] entries[j], entry),
        rank_from(entries, entry, i) < entries.len() ==> !key::before(
            entries[rank_from(entries, entry, i)],
            entry,
        ),
    decreases entries.len() - i,
{
    if i < entries.len() && key::before(entries[i], entry) {
        lemma_rank_from(entries, entry, i + 1);
    }
}

/// Where a place lies and what is known there.
pub proof fn lemma_place_from(seps: Seq<EntryView>, entry: EntryView, i: int)
    requires
        0 <= i <= seps.len(),
    ensures
        i <= place_from(seps, entry, i) <= seps.len(),
        forall|j: int|
            i <= j < place_from(seps, entry, i) ==> !key::before(entry, #[trigger] seps[j]),
        place_from(seps, entry, i) < seps.len() ==> key::before(
            entry,
            seps[place_from(seps, entry, i)],
        ),
    decreases seps.len() - i,
{
    if i < seps.len() && !key::before(entry, seps[i]) {
        lemma_place_from(seps, entry, i + 1);
    }
}

/// The number of leading entries that come before `entry`.
fn rank(entries: &[IndexEntry], entry: &IndexEntry) -> (place: usize)
    ensures
        place == rank_of(key::entries_view(entries@), entry@),
        place <= entries@.len(),
{
    let mut i: usize = 0;
    let length: usize = entries.len();
    while i < length
        invariant
            i <= length,
            length == entries@.len(),
            rank_of(key::entries_view(entries@), entry@) == rank_from(
                key::entries_view(entries@),
                entry@,
                i as int,
            ),
        decreases length - i,
    {
        assert(key::entries_view(entries@)[i as int] == entries@[i as int]@);
        if key::compare_entry_keys(&entries[i], entry) != Ordered::Before {
            return i;
        }
        i = i + 1;
    }
    i
}

// ---------------------------------------------------------------------------
// Leaves
// ---------------------------------------------------------------------------
/// What is left of a leaf's entries after an insertion.
pub open spec fn leaf_with(spec: IndexSpec, leaf: LeafView, entry: EntryView) -> Result<
    LeafView,
    IndexError,
> {
    match key::entry_check(spec, entry) {
        Err(error) => Err(error),
        Ok(_) => {
            let place = rank_of(leaf.entries, entry);
            if place < leaf.entries.len() && leaf.entries[place] == entry {
                Err(IndexError::DuplicateEntry)
            } else {
                Ok(LeafView { entries: leaf.entries.insert(place, entry), next: leaf.next })
            }
        },
    }
}

/// What is left of a leaf's entries after a removal.
pub open spec fn leaf_without(spec: IndexSpec, leaf: LeafView, entry: EntryView) -> Result<
    LeafView,
    IndexError,
> {
    match key::entry_check(spec, entry) {
        Err(error) => Err(error),
        Ok(_) => {
            let place = rank_of(leaf.entries, entry);
            if place < leaf.entries.len() && leaf.entries[place] == entry {
                Ok(LeafView { entries: leaf.entries.remove(place), next: leaf.next })
            } else {
                Err(IndexError::EntryNotFound)
            }
        },
    }
}

/// Whether a leaf holds an entry at its place.
pub open spec fn leaf_holds(leaf: LeafView, entry: EntryView) -> bool {
    let place = rank_of(leaf.entries, entry);
    place < leaf.entries.len() && leaf.entries[place] == entry
}

impl LeafNode {
    /// A leaf without entries.
    pub fn empty() -> (leaf: LeafNode)
        ensures
            leaf@ == (LeafView { entries: Seq::empty(), next: None }),
    {
        let leaf = LeafNode { entries: Vec::new(), next_leaf: None };
        assert(leaf@.entries =~= Seq::empty());
        leaf
    }

    /// A copy of the leaf.
    pub fn copy(&self) -> (copy: LeafNode)
        ensures
            copy@ == self@,
    {
        let leaf = LeafNode {
            entries: copy_entries(self.entries.as_slice(), 0, self.entries.len()),
            next_leaf: self.next_leaf,
        };
        assert(leaf@.entries =~= self@.entries);
        leaf
    }

    /// Whether an entry stands where its order puts it.
    fn at(&self, place: usize, entry: &IndexEntry) -> (same: bool)
        requires
            place <= self.entries@.len(),
        ensures
            same == (place < self@.entries.len() && self@.entries[place as int] == entry@),
    {
        if place < self.entries.len() {
            assert(self@.entries[place as int] == self.entries@[place as int]@);
            key::compare_entry_keys(&self.entries[place], entry) == Ordered::Same
        } else {
            false
        }
    }

    /// Puts an entry in its place.
    pub fn insert(&mut self, spec: &IndexSpec, entry: IndexEntry) -> (outcome: Result<
        (),
        IndexError,
    >)
        ensures
            match leaf_with(*spec, old(self)@, entry@) {
                Err(error) => outcome == Err::<(), IndexError>(error) && *final(self) == *old(self),
                Ok(leaf) => outcome is Ok && final(self)@ == leaf,
            },
    {
        entry.validate(spec)?;
        let place: usize = rank(self.entries.as_slice(), &entry);
        if self.at(place, &entry) {
            return Err(IndexError::DuplicateEntry);
        }
        let ghost shown = entry@;
        self.entries.insert(place, entry);
        assert(self@.entries =~= old(self)@.entries.insert(place as int, shown));
        Ok(())
    }

    /// Takes an entry out.
    pub fn remove(&mut self, spec: &IndexSpec, entry: &IndexEntry) -> (outcome: Result<
        (),
        IndexError,
    >)
        ensures
            match leaf_without(*spec, old(self)@, entry@) {
                Err(error) => outcome == Err::<(), IndexError>(error) && *final(self) == *old(self),
                Ok(leaf) => outcome is Ok && final(self)@ == leaf,
            },
    {
        entry.validate(spec)?;
        let place: usize = rank(self.entries.as_slice(), entry);
        if !self.at(place, entry) {
            return Err(IndexError::EntryNotFound);
        }
        self.entries.remove(place);
        assert(self@.entries =~= old(self)@.entries.remove(place as int));
        Ok(())
    }

    /// Whether the leaf holds an entry.
    pub fn contains_exact(&self, entry: &IndexEntry) -> (held: bool)
        ensures
            held == leaf_holds(self@, entry@),
    {
        let place: usize = rank(self.entries.as_slice(), entry);
        self.at(place, entry)
    }

    /// The bytes of the leaf.
    pub fn size(&self) -> (size: u64)
        ensures
            size == key::reported(key::node_size(self@.entries)),
    {
        key::size_of_node(self.entries.as_slice())
    }
}

/// A copy of a stretch of entries.
fn copy_entries(entries: &[IndexEntry], start: usize, end: usize) -> (copy: Vec<IndexEntry>)
    requires
        start <= end <= entries@.len(),
    ensures
        key::entries_view(copy@) == key::entries_view(entries@).subrange(start as int, end as int),
{
    let mut copy: Vec<IndexEntry> = Vec::new();
    let mut i: usize = start;
    while i < end
        invariant
            start <= i <= end <= entries@.len(),
            key::entries_view(copy@) == key::entries_view(entries@).subrange(
                start as int,
                i as int,
            ),
        decreases end - i,
    {
        let ghost so_far = key::entries_view(copy@);
        copy.push(entries[i].copy());
        assert(key::entries_view(copy@) =~= so_far.push(entries@[i as int]@));
        assert(key::entries_view(entries@).subrange(start as int, i + 1) =~= so_far.push(
            key::entries_view(entries@)[i as int],
        ));
        i = i + 1;
    }
    assert(key::entries_view(copy@) =~= key::entries_view(entries@).subrange(
        start as int,
        end as int,
    ));
    copy
}

// ---------------------------------------------------------------------------
// Splits and merges
// ---------------------------------------------------------------------------
/// The place at which entries are parted: the first with half of the bytes
/// before it, with at least one entry on each side.
pub open spec fn cut(entries: Seq<EntryView>, i: int) -> int
    decreases entries.len() - i,
{
    if i + 1 < entries.len() && 2 * key::front_size(entries, i) < key::front_size(
        entries,
        entries.len() as int,
    ) {
        cut(entries, i + 1)
    } else {
        i
    }
}

/// Two leaves and the separator between them.
#[verifier::ext_equal]
pub struct LeafParts {
    pub left: LeafView,
    pub right: LeafView,
    pub fence: EntryView,
}

/// How an overfull leaf is parted.
pub open spec fn leaf_parts(leaf: LeafView, right_page: PageId, capacity: u32) -> Result<
    LeafParts,
    IndexError,
> {
    let size = key::node_size(leaf.entries);
    if leaf.entries.len() < 2 {
        Err(IndexError::NodeTooLarge { size: key::reported(size), capacity })
    } else {
        let place = cut(leaf.entries, 1);
        let parts = LeafParts {
            left: LeafView { entries: leaf.entries.take(place), next: Some(right_page) },
            right: LeafView { entries: leaf.entries.skip(place), next: leaf.next },
            fence: leaf.entries[place],
        };
        if key::node_size(parts.left.entries) > capacity || key::node_size(parts.right.entries)
            > capacity {
            Err(IndexError::NodeTooLarge { size: key::reported(size), capacity })
        } else {
            Ok(parts)
        }
    }
}

/// Two inner nodes and the separator between them.
#[verifier::ext_equal]
pub struct InternalParts {
    pub left: InternalView,
    pub right: InternalView,
    pub fence: EntryView,
}

/// The separator that leaves an overfull inner node.
pub open spec fn fence_place(seps: Seq<EntryView>) -> int {
    let place = cut(seps, 1);
    if place + 1 < seps.len() {
        place
    } else {
        seps.len() - 2
    }
}

/// How an overfull inner node is parted. One of more bytes than can be
/// counted is refused.
pub open spec fn internal_parts(node: InternalView, capacity: u32) -> Result<
    InternalParts,
    IndexError,
> {
    let size = key::node_size(node.seps);
    if node.seps.len() < 3 || size >= u64::MAX / 2 {
        Err(IndexError::NodeTooLarge { size: key::reported(size), capacity })
    } else {
        let place = fence_place(node.seps);
        let parts = InternalParts {
            left: InternalView { kids: node.kids.take(place + 1), seps: node.seps.take(place) },
            right: InternalView {
                kids: node.kids.skip(place + 1),
                seps: node.seps.skip(place + 1),
            },
            fence: node.seps[place],
        };
        if key::node_size(parts.left.seps) > capacity || key::node_size(parts.right.seps)
            > capacity {
            Err(IndexError::NodeTooLarge { size: key::reported(size), capacity })
        } else {
            Ok(parts)
        }
    }
}

/// Where a cut lies.
pub proof fn lemma_cut(entries: Seq<EntryView>, i: int)
    requires
        1 <= i < entries.len(),
        i == 1 || 2 * key::front_size(entries, i - 1) < key::front_size(
            entries,
            entries.len() as int,
        ),
    ensures
        1 <= cut(entries, i) < entries.len(),
        cut(entries, i) == 1 || 2 * key::front_size(entries, cut(entries, i) - 1)
            < key::front_size(entries, entries.len() as int),
        cut(entries, i) + 1 < entries.len() ==> 2 * key::front_size(entries, cut(entries, i))
            >= key::front_size(entries, entries.len() as int),
    decreases entries.len() - i,
{
    if i + 1 < entries.len() && 2 * key::front_size(entries, i) < key::front_size(
        entries,
        entries.len() as int,
    ) {
        lemma_cut(entries, i + 1);
    }
}

/// The bytes of the front of a list grow with it.
proof fn lemma_front_size_grows(entries: Seq<EntryView>, m: int, n: int)
    requires
        0 <= m <= n,
    ensures
        key::front_size(entries, m) <= key::front_size(entries, n),
    decreases n,
{
    if m < n {
        lemma_front_size_grows(entries, m, n - 1);
    }
}

/// The bytes of the first `n` entries, where they are few enough to count.
fn front(entries: &[IndexEntry], n: usize) -> (size: u64)
    requires
        n <= entries@.len(),
    ensures
        size == key::reported(key::front_size(key::entries_view(entries@), n as int)),
{
    let mut size: u64 = 0;
    let mut i: usize = 0;
    while i < n
        invariant
            i <= n <= entries@.len(),
            size == key::reported(key::front_size(key::entries_view(entries@), i as int)),
        decreases n - i,
    {
        size = size.saturating_add(key::size_of_entry(&entries[i]));
        assert(key::entries_view(entries@)[i as int] == entries@[i as int]@);
        i = i + 1;
    }
    size
}

/// The place at which entries are parted.
pub(crate) fn find_cut(entries: &[IndexEntry]) -> (place: usize)
    requires
        entries@.len() >= 2,
        key::front_size(key::entries_view(entries@), entries@.len() as int) < u64::MAX / 2,
    ensures
        place == cut(key::entries_view(entries@), 1),
        1 <= place < entries@.len(),
{
    let ghost shown = key::entries_view(entries@);
    let length: usize = entries.len();
    let total: u64 = front(entries, length);
    proof {
        lemma_front_size_grows(shown, 1, length as int);
    }
    let mut size: u64 = front(entries, 1);
    let mut i: usize = 1;
    while i + 1 < length && size * 2 < total
        invariant
            1 <= i < length,
            length == entries@.len(),
            shown == key::entries_view(entries@),
            total == key::front_size(shown, length as int),
            total < u64::MAX / 2,
            size == key::front_size(shown, i as int),
            size <= total,
            cut(shown, 1) == cut(shown, i as int),
        decreases length - i,
    {
        proof {
            lemma_front_size_grows(shown, i + 1, length as int);
            assert(shown[i as int] == entries@[i as int]@);
        }
        size = size + key::size_of_entry(&entries[i]);
        i = i + 1;
    }
    i
}

/// Parts an overfull leaf. Returns the left part, the right part and the
/// separator between them.
pub fn split_leaf(leaf: &LeafNode, right_page: PageId, capacity: u32) -> (outcome: Result<
    (LeafNode, LeafNode, IndexEntry),
    IndexError,
>)
    ensures
        match leaf_parts(leaf@, right_page, capacity) {
            Err(error) => outcome == Err::<(LeafNode, LeafNode, IndexEntry), IndexError>(error),
            Ok(parts) => outcome matches Ok(nodes) && nodes.0@ == parts.left && nodes.1@
                == parts.right && nodes.2@ == parts.fence,
        },
{
    let size: u64 = leaf.size();
    let length: usize = leaf.entries.len();
    assert(leaf@.entries.len() == length);
    if length < 2 {
        return Err(IndexError::NodeTooLarge { size, capacity });
    }
    let ghost shown = leaf@.entries;
    proof {
        lemma_cut(shown, 1);
        key::lemma_front_size_parts(shown, cut(shown, 1), length as int);
        assert(shown.take(cut(shown, 1)).len() == cut(shown, 1));
    }
    if size >= u64::MAX / 2 {
        return Err(IndexError::NodeTooLarge { size, capacity });
    }
    let place: usize = find_cut(leaf.entries.as_slice());
    let left = LeafNode {
        entries: copy_entries(leaf.entries.as_slice(), 0, place),
        next_leaf: Some(right_page),
    };
    let right = LeafNode {
        entries: copy_entries(leaf.entries.as_slice(), place, length),
        next_leaf: leaf.next_leaf,
    };
    assert(left@.entries =~= shown.take(place as int));
    assert(right@.entries =~= shown.skip(place as int));
    if left.size() > capacity as u64 || right.size() > capacity as u64 {
        return Err(IndexError::NodeTooLarge { size, capacity });
    }
    let fence = leaf.entries[place].copy();
    assert(shown[place as int] == leaf.entries@[place as int]@);
    Ok((left, right, fence))
}

/// The leaf that two neighbours make, where it fits.
pub open spec fn leaves_joined(left: LeafView, right: LeafView, capacity: u32) -> Option<LeafView> {
    let entries = left.entries + right.entries;
    if key::node_size(entries) <= capacity {
        Some(LeafView { entries, next: right.next })
    } else {
        None
    }
}

/// The inner node that two neighbours make, where it fits.
pub open spec fn internals_joined(
    left: InternalView,
    fence: EntryView,
    right: InternalView,
    capacity: u32,
) -> Option<InternalView> {
    let seps = left.seps.push(fence) + right.seps;
    if key::node_size(seps) <= capacity {
        Some(InternalView { kids: left.kids + right.kids, seps })
    } else {
        None
    }
}

/// Joins two neighbouring leaves where they fit in one.
pub fn merge_leaves_if_fits(left: &LeafNode, right: &LeafNode, capacity: u32) -> (merged: Option<
    LeafNode,
>)
    ensures
        match leaves_joined(left@, right@, capacity) {
            None => merged is None,
            Some(leaf) => merged matches Some(node) && node@ == leaf,
        },
{
    let mut node = left.copy();
    let mut rest = right.copy();
    let ghost front = key::entries_view(node.entries@);
    let ghost back = key::entries_view(rest.entries@);
    node.entries.append(&mut rest.entries);
    node.next_leaf = right.next_leaf;
    assert(key::entries_view(node.entries@) =~= front + back);
    assert(node@ =~= (LeafView { entries: left@.entries + right@.entries, next: right@.next }));
    if node.size() <= capacity as u64 {
        Some(node)
    } else {
        None
    }
}

} // verus!
