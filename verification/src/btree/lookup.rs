//! Finding the rows of a key.
use super::error::IndexError;
use super::internal;
use super::key;
use super::key::{EntryView, IndexEntry};
use super::node;
use super::node::{LeafNode, MetaNode};
use super::pages;
use super::pages::{BTree, BTreeHandle, PageView};
use crate::ids::{PageId, RowId};
use crate::value;
use crate::value::{Ordered, ScalarValue, ScalarView};
use std::collections::HashSet;
use vstd::prelude::*;

verus! {

broadcast use vstd::std_specs::hash::group_hash_axioms;

/// The first leaf that a key may be in, under a node at a height.
pub open spec fn key_leaf(
    pages: Seq<PageView>,
    page: PageId,
    height: nat,
    key: ScalarView,
) -> Result<PageId, IndexError>
    decreases height,
{
    if height == 0 {
        Err(IndexError::InvalidHeight(0))
    } else if height == 1 {
        match pages::leaf_read(pages, page) {
            Err(error) => Err(error),
            Ok(_) => Ok(page),
        }
    } else {
        match pages::internal_read(pages, page) {
            Err(error) => Err(error),
            Ok(node) => key_leaf(
                pages,
                node.kids[internal::key_place_from(node.seps, key, 0)],
                (height - 1) as nat,
                key,
            ),
        }
    }
}

/// What one leaf holds of a key: its rows, and whether a greater key follows.
pub struct LeafRows {
    pub rows: Seq<RowId>,
    pub beyond: bool,
}

/// What the entries from `i` on hold of a key.
pub open spec fn leaf_rows(entries: Seq<EntryView>, key: ScalarView, i: int) -> LeafRows
    decreases entries.len() - i,
{
    if i >= entries.len() {
        LeafRows { rows: Seq::empty(), beyond: false }
    } else {
        match value::value_order(key, entries[i].key) {
            Ordered::Before => LeafRows { rows: Seq::empty(), beyond: true },
            Ordered::After => leaf_rows(entries, key, i + 1),
            Ordered::Same => {
                let rest = leaf_rows(entries, key, i + 1);
                LeafRows { rows: seq![entries[i].row_id] + rest.rows, beyond: rest.beyond }
            },
        }
    }
}

/// The leaf that was read before, with its last entry.
pub struct Previous {
    pub page: PageId,
    pub last: EntryView,
}

/// What is wrong with a leaf where the walk meets it.
pub open spec fn leaf_fault(
    leaf: node::LeafView,
    page: PageId,
    height: nat,
    previous: Option<Previous>,
) -> Option<IndexError> {
    if leaf.entries.len() == 0 && (height > 1 || leaf.next is Some || previous is Some) {
        Some(IndexError::EmptyLeaf { page_id: page })
    } else {
        match previous {
            Some(left) => if key::before(left.last, leaf.entries[0]) {
                None
            } else {
                Some(IndexError::LeafChainOrder { left_page: left.page, right_page: page })
            },
            None => None,
        }
    }
}

/// Whether the walk goes on behind a leaf.
pub open spec fn goes_on(leaf: node::LeafView, key: ScalarView) -> bool {
    &&& leaf.entries.len() > 0
    &&& value::value_order(key, leaf.entries.last().key) != Ordered::Before
    &&& !leaf_rows(leaf.entries, key, 0).beyond
    &&& leaf.next is Some
}

/// The rows of a key from a leaf on. `left` leaves may still be read.
pub open spec fn rows_from(
    pages: Seq<PageView>,
    height: nat,
    key: ScalarView,
    page: PageId,
    visited: Set<u64>,
    previous: Option<Previous>,
    left: nat,
) -> Result<Seq<RowId>, IndexError>
    decreases left,
{
    if visited.contains(page.0) || left == 0 {
        Err(IndexError::LeafChainCycle { page_id: page })
    } else {
        match pages::leaf_read(pages, page) {
            Err(error) => Err(error),
            Ok(leaf) => match leaf_fault(leaf, page, height, previous) {
                Some(error) => Err(error),
                None => {
                    let here = leaf_rows(leaf.entries, key, 0).rows;
                    if !goes_on(leaf, key) {
                        Ok(here)
                    } else if !pages::is_child(pages, leaf.next->0) {
                        Err(IndexError::InvalidChild(leaf.next->0))
                    } else {
                        match rows_from(
                            pages,
                            height,
                            key,
                            leaf.next->0,
                            visited.insert(page.0),
                            Some(Previous { page, last: leaf.entries.last() }),
                            (left - 1) as nat,
                        ) {
                            Err(error) => Err(error),
                            Ok(rest) => Ok(here + rest),
                        }
                    }
                },
            },
        }
    }
}

/// The rows of a key in a tree.
pub open spec fn rows_of(pages: Seq<PageView>, handle: BTreeHandle, key: ScalarView) -> Result<
    Seq<RowId>,
    IndexError,
> {
    match pages::meta_read(pages, handle) {
        Err(error) => Err(error),
        Ok(meta) => match key::key_check(meta.spec, key) {
            Err(error) => Err(error),
            Ok(_) => match key_leaf(pages, meta.root_page, meta.height as nat, key) {
                Err(error) => Err(error),
                Ok(page) => rows_from(
                    pages,
                    meta.height as nat,
                    key,
                    page,
                    Set::empty(),
                    None,
                    pages.len(),
                ),
            },
        },
    }
}

/// What asking for one exact entry gives.
pub open spec fn held(
    pages: Seq<PageView>,
    capacity: u32,
    handle: BTreeHandle,
    entry: EntryView,
) -> Result<bool, IndexError> {
    match pages::meta_read(pages, handle) {
        Err(error) => Err(error),
        Ok(meta) => match key::fit_check(meta.spec, entry, capacity) {
            Err(error) => Err(error),
            Ok(_) => match pages::descent(pages, meta.root_page, meta.height as nat, entry) {
                Err(error) => Err(error),
                Ok(way) => Ok(node::leaf_holds(way.leaf, entry)),
            },
        },
    }
}

/// Rows that were found, and those that a walk still finds.
pub open spec fn rows_after(
    rows: Seq<RowId>,
    rest: Result<Seq<RowId>, IndexError>,
) -> Result<Seq<RowId>, IndexError> {
    match rest {
        Err(error) => Err(error),
        Ok(more) => Ok(rows + more),
    }
}

/// Adds what one leaf holds of a key. Says whether a greater key follows.
fn take_rows(leaf: &LeafNode, key: &ScalarValue, rows: &mut Vec<RowId>) -> (beyond: bool)
    ensures
        final(rows)@ == old(rows)@ + leaf_rows(
            leaf@.entries,
            value::scalar_view(*key),
            0,
        ).rows,
        beyond == leaf_rows(leaf@.entries, value::scalar_view(*key), 0).beyond,
{
    let ghost entries = leaf@.entries;
    let ghost sought = value::scalar_view(*key);
    let ghost whole = leaf_rows(entries, sought, 0);
    let mut i: usize = 0;
    assert(rows@ + whole.rows == old(rows)@ + whole.rows);
    while i < leaf.entries.len()
        invariant
            i <= leaf.entries@.len(),
            entries == leaf@.entries,
            sought == value::scalar_view(*key),
            whole == leaf_rows(entries, sought, 0),
            rows@ + leaf_rows(entries, sought, i as int).rows == old(rows)@ + whole.rows,
            leaf_rows(entries, sought, i as int).beyond == whole.beyond,
        decreases leaf.entries@.len() - i,
    {
        let ghost so_far = rows@;
        assert(entries[i as int] == leaf.entries@[i as int]@);
        match key::compare_key_to_entry(key, &leaf.entries[i]) {
            Ordered::Before => {
                assert(rows@ + Seq::<RowId>::empty() =~= rows@);
                return true;
            },
            Ordered::After => {},
            Ordered::Same => {
                rows.push(leaf.entries[i].row_id);
                assert(rows@ =~= so_far.push(entries[i as int].row_id));
                let ghost rest = leaf_rows(entries, sought, i + 1).rows;
                assert(so_far + (seq![entries[i as int].row_id] + rest) =~= rows@ + rest);
            },
        }
        i = i + 1;
    }
    assert(rows@ + Seq::<RowId>::empty() =~= rows@);
    false
}

impl BTree {
    /// The first leaf that a key may be in.
    fn find_leaf_for_key(&self, meta: &MetaNode, key: &ScalarValue) -> (outcome: Result<
        PageId,
        IndexError,
    >)
        ensures
            outcome == key_leaf(
                self@,
                meta.root_page,
                meta.height as nat,
                value::scalar_view(*key),
            ),
    {
        let mut page: PageId = meta.root_page;
        if meta.height == 0 {
            return Err(IndexError::InvalidHeight(0));
        }
        let mut level: u16 = meta.height;
        let ghost sought = value::scalar_view(*key);
        while level > 1
            invariant
                1 <= level,
                sought == value::scalar_view(*key),
                key_leaf(self@, meta.root_page, meta.height as nat, sought) == key_leaf(
                    self@,
                    page,
                    level as nat,
                    sought,
                ),
            decreases level,
        {
            let node = self.read_internal(page)?;
            let place: usize = node.key_position(key);
            page = node.child(place);
            level = level - 1;
        }
        self.read_leaf(page)?;
        Ok(page)
    }

    /// Refuses a leaf that the walk must not meet there.
    fn check_leaf(
        &self,
        leaf: &LeafNode,
        page: PageId,
        height: u16,
        previous: &Option<(PageId, IndexEntry)>,
    ) -> (outcome: Result<(), IndexError>)
        ensures
            outcome == match leaf_fault(leaf@, page, height as nat, previous_view(*previous)) {
                Some(error) => Err(error),
                None => Ok::<(), IndexError>(()),
            },
    {
        if leaf.entries.len() == 0 && (height > 1 || leaf.next_leaf.is_some()
            || previous.is_some()) {
            return Err(IndexError::EmptyLeaf { page_id: page });
        }
        match previous {
            Some((left_page, last)) => {
                assert(leaf@.entries[0] == leaf.entries@[0]@);
                if key::compare_entry_keys(last, &leaf.entries[0]) != Ordered::Before {
                    return Err(
                        IndexError::LeafChainOrder { left_page: *left_page, right_page: page },
                    );
                }
            },
            None => {},
        }
        Ok(())
    }

    /// Every row of a key, in ascending order. Whether the rows are live is
    /// not looked at.
    pub fn lookup(&self, handle: BTreeHandle, key: &ScalarValue) -> (outcome: Result<
        Vec<RowId>,
        IndexError,
    >)
        ensures
            match rows_of(self@, handle, value::scalar_view(*key)) {
                Err(error) => outcome == Err::<Vec<RowId>, IndexError>(error),
                Ok(rows) => outcome matches Ok(found) && found@ == rows,
            },
    {
        let meta = self.read_meta(handle)?;
        meta.spec.validate_key(key)?;
        let mut page: PageId = self.find_leaf_for_key(&meta, key)?;
        let mut left: usize = self.pages.len();
        let mut visited: HashSet<u64> = HashSet::new();
        let mut rows: Vec<RowId> = Vec::new();
        let mut previous: Option<(PageId, IndexEntry)> = None;
        let ghost sought = value::scalar_view(*key);
        let ghost height = meta.height as nat;
        let ghost whole = rows_from(self@, height, sought, page, Set::empty(), None, self@.len());
        proof {
            assert(whole == rows_of(self@, handle, sought));
            if whole is Ok {
                assert(rows@ + whole->Ok_0 =~= whole->Ok_0);
            }
        }
        loop
            invariant
                sought == value::scalar_view(*key),
                height == meta.height as nat,
                whole == rows_of(self@, handle, sought),
                whole == rows_after(
                    rows@,
                    rows_from(
                        self@,
                        height,
                        sought,
                        page,
                        visited@,
                        previous_view(previous),
                        left as nat,
                    ),
                ),
            decreases left,
        {
            if left == 0 || !visited.insert(page.0) {
                return Err(IndexError::LeafChainCycle { page_id: page });
            }
            let leaf = self.read_leaf(page)?;
            self.check_leaf(&leaf, page, meta.height, &previous)?;
            let ghost so_far = rows@;
            let ghost shown = leaf@;
            let beyond = take_rows(&leaf, key, &mut rows);
            let length: usize = leaf.entries.len();
            assert(shown.entries.len() == length);
            if beyond || length == 0 {
                return Ok(rows);
            }
            assert(shown.entries[length - 1] == leaf.entries@[length - 1]@);
            if key::compare_key_to_entry(key, &leaf.entries[length - 1]) == Ordered::Before {
                return Ok(rows);
            }
            match leaf.next_leaf {
                None => {
                    return Ok(rows);
                },
                Some(next) => {
                    self.validate_child(next)?;
                    let last = leaf.entries[length - 1].copy();
                    let ghost rest = rows_from(
                        self@,
                        height,
                        sought,
                        next,
                        visited@,
                        Some(Previous { page, last: last@ }),
                        (left - 1) as nat,
                    );
                    proof {
                        let here = leaf_rows(shown.entries, sought, 0).rows;
                        if rest is Ok {
                            assert(so_far + (here + rest->Ok_0) =~= rows@ + rest->Ok_0);
                        }
                    }
                    previous = Some((page, last));
                    page = next;
                    left = left - 1;
                },
            }
        }
    }

    /// Whether a tree holds one exact entry.
    pub fn contains_exact(&self, handle: BTreeHandle, key: &ScalarValue, row_id: RowId) -> (outcome:
        Result<bool, IndexError>)
        ensures
            outcome == held(
                self@,
                self.capacity,
                handle,
                (EntryView { key: value::scalar_view(*key), row_id }),
            ),
    {
        let meta = self.read_meta(handle)?;
        let entry = IndexEntry { key: value::copy_value(key), row_id };
        key::ensure_entry_fits(&meta.spec, &entry, self.capacity)?;
        let (_, leaf, _) = self.find_leaf_for_entry(&meta, &entry)?;
        Ok(leaf.contains_exact(&entry))
    }
}

/// What is known of the leaf that was read before.
pub open spec fn previous_view(previous: Option<(PageId, IndexEntry)>) -> Option<Previous> {
    match previous {
        Some((page, last)) => Some(Previous { page, last: last@ }),
        None => None,
    }
}

} // verus!
