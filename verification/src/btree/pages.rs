//! The pages that hold trees, and how they are read.
use super::error::IndexError;
use super::key::{EntryView, IndexEntry, IndexSpec};
use super::node;
use super::node::{InternalNode, InternalView, LeafNode, LeafView, MetaNode};
use crate::ids::PageId;
use vstd::prelude::*;

verus! {

/// What a page holds.
#[derive(Debug, PartialEq, Eq)]
pub enum TreePage {
    /// Something that is no node of a tree.
    Other,
    Meta(MetaNode),
    Leaf(LeafNode),
    Internal(InternalNode),
}

/// What a page says.
#[verifier::ext_equal]
pub enum PageView {
    Other,
    Meta(MetaNode),
    Leaf(LeafView),
    Internal(InternalView),
}

impl View for TreePage {
    type V = PageView;

    open spec fn view(&self) -> PageView {
        match self {
            TreePage::Other => PageView::Other,
            TreePage::Meta(meta) => PageView::Meta(*meta),
            TreePage::Leaf(leaf) => PageView::Leaf(leaf@),
            TreePage::Internal(internal) => PageView::Internal(internal@),
        }
    }
}

/// What a list of pages says.
pub open spec fn pages_view(pages: Seq<TreePage>) -> Seq<PageView> {
    pages.map_values(|page: TreePage| page@)
}

/// The stable identity of a tree.
#[derive(Debug, Clone, Copy, PartialEq, Eq, Structural)]
pub struct BTreeHandle {
    pub meta_page: PageId,
}

impl MetaNode {
    /// A copy of the root record.
    pub fn copy(&self) -> (copy: MetaNode)
        ensures
            copy == *self,
    {
        MetaNode { root_page: self.root_page, height: self.height, spec: self.spec.copy() }
    }
}

// ---------------------------------------------------------------------------
// Reading one page
// ---------------------------------------------------------------------------
/// Whether a page reference lies in the file. The first page is no node's.
pub open spec fn is_child(pages: Seq<PageView>, page: PageId) -> bool {
    0 < page.0 < pages.len()
}

/// What a page reference outside the file is answered.
pub open spec fn child_check(pages: Seq<PageView>, page: PageId) -> Result<(), IndexError> {
    if is_child(pages, page) {
        Ok(())
    } else {
        Err(IndexError::InvalidChild(page))
    }
}

/// What reading a root record gives.
pub open spec fn meta_read(pages: Seq<PageView>, handle: BTreeHandle) -> Result<
    MetaNode,
    IndexError,
> {
    if !is_child(pages, handle.meta_page) {
        Err(IndexError::InvalidChild(handle.meta_page))
    } else {
        match pages[handle.meta_page.0 as int] {
            PageView::Meta(meta) => if meta.height >= pages.len() {
                Err(IndexError::InvalidHeight(meta.height))
            } else if !is_child(pages, meta.root_page) {
                Err(IndexError::InvalidChild(meta.root_page))
            } else {
                Ok(meta)
            },
            _ => Err(IndexError::InvalidNodeType),
        }
    }
}

/// What reading a leaf gives.
pub open spec fn leaf_read(pages: Seq<PageView>, page: PageId) -> Result<LeafView, IndexError> {
    if !is_child(pages, page) {
        Err(IndexError::InvalidChild(page))
    } else {
        match pages[page.0 as int] {
            PageView::Leaf(leaf) => Ok(leaf),
            _ => Err(IndexError::InvalidNodeType),
        }
    }
}

/// The first child from `i` on that lies outside the file.
pub open spec fn stray_child(pages: Seq<PageView>, kids: Seq<PageId>, i: int) -> Option<PageId>
    decreases kids.len() - i,
{
    if i >= kids.len() {
        None
    } else if !is_child(pages, kids[i]) {
        Some(kids[i])
    } else {
        stray_child(pages, kids, i + 1)
    }
}

/// What reading an inner node gives. Every child must lie in the file, also
/// one that is not followed.
pub open spec fn internal_read(pages: Seq<PageView>, page: PageId) -> Result<
    InternalView,
    IndexError,
> {
    if !is_child(pages, page) {
        Err(IndexError::InvalidChild(page))
    } else {
        match pages[page.0 as int] {
            PageView::Internal(internal) => match stray_child(pages, internal.kids, 0) {
                Some(stray) => Err(IndexError::InvalidChild(stray)),
                None => Ok(internal),
            },
            _ => Err(IndexError::InvalidNodeType),
        }
    }
}

/// Where no child is stray, every child lies in the file.
pub proof fn lemma_no_stray_child(pages: Seq<PageView>, kids: Seq<PageId>, i: int)
    requires
        0 <= i,
    ensures
        stray_child(pages, kids, i) is None <==> forall|j: int|
            i <= j < kids.len() ==> is_child(pages, #[trigger] kids[j]),
    decreases kids.len() - i,
{
    if i < kids.len() && is_child(pages, kids[i]) {
        lemma_no_stray_child(pages, kids, i + 1);
        if stray_child(pages, kids, i) is None {
            assert forall|j: int| i <= j < kids.len() implies is_child(pages, #[trigger] kids[j]) by {
                if j > i {
                }
            }
        }
    }
}

/// The pages of a database file that hold trees, by page number.
#[derive(Debug)]
pub struct BTree {
    pub pages: Vec<TreePage>,
    /// The bytes that one page has for its node.
    pub capacity: u32,
}

impl View for BTree {
    type V = Seq<PageView>;

    open spec fn view(&self) -> Seq<PageView> {
        pages_view(self.pages@)
    }
}

impl BTree {
    /// The number of pages of the file.
    pub fn page_count(&self) -> (count: u64)
        ensures
            count == self@.len(),
    {
        self.pages.len() as u64
    }

    /// Refuses a page reference outside the file.
    pub(crate) fn validate_child(&self, page: PageId) -> (outcome: Result<(), IndexError>)
        ensures
            outcome == child_check(self@, page),
            outcome is Ok ==> page.0 <= usize::MAX,
    {
        let count: usize = self.pages.len();
        if page.0 == 0 || page.0 >= count as u64 {
            return Err(IndexError::InvalidChild(page));
        }
        Ok(())
    }

    /// The root record of a tree.
    pub fn read_meta(&self, handle: BTreeHandle) -> (outcome: Result<MetaNode, IndexError>)
        ensures
            outcome == meta_read(self@, handle),
    {
        self.validate_child(handle.meta_page)?;
        let index: usize = handle.meta_page.0 as usize;
        assert(self@[index as int] == self.pages@[index as int]@);
        match &self.pages[index] {
            TreePage::Meta(meta) => {
                if meta.height as u64 >= self.page_count() {
                    return Err(IndexError::InvalidHeight(meta.height));
                }
                self.validate_child(meta.root_page)?;
                Ok(meta.copy())
            },
            _ => Err(IndexError::InvalidNodeType),
        }
    }

    /// A leaf.
    pub fn read_leaf(&self, page: PageId) -> (outcome: Result<LeafNode, IndexError>)
        ensures
            match leaf_read(self@, page) {
                Err(error) => outcome == Err::<LeafNode, IndexError>(error),
                Ok(leaf) => outcome matches Ok(node) && node@ == leaf,
            },
    {
        self.validate_child(page)?;
        let index: usize = page.0 as usize;
        assert(self@[index as int] == self.pages@[index as int]@);
        match &self.pages[index] {
            TreePage::Leaf(leaf) => Ok(leaf.copy()),
            _ => Err(IndexError::InvalidNodeType),
        }
    }

    /// An inner node, all of whose children lie in the file.
    pub fn read_internal(&self, page: PageId) -> (outcome: Result<InternalNode, IndexError>)
        ensures
            match internal_read(self@, page) {
                Err(error) => outcome == Err::<InternalNode, IndexError>(error),
                Ok(internal) => outcome matches Ok(node) && node@ == internal,
            },
    {
        self.validate_child(page)?;
        let index: usize = page.0 as usize;
        assert(self@[index as int] == self.pages@[index as int]@);
        match &self.pages[index] {
            TreePage::Internal(internal) => {
                let count: usize = internal.separators.len();
                self.validate_child(internal.first_child)?;
                let ghost kids = internal@.kids;
                assert(kids[0] == internal.first_child);
                let mut i: usize = 0;
                while i < count
                    invariant
                        i <= count,
                        count == internal.separators@.len(),
                        kids == internal@.kids,
                        is_child(self@, page),
                        self@[page.0 as int] == PageView::Internal(internal@),
                        stray_child(self@, kids, 0) == stray_child(self@, kids, i + 1),
                    decreases count - i,
                {
                    assert(kids[i + 1] == internal.separators@[i as int].right_child);
                    self.validate_child(internal.separators[i].right_child)?;
                    i = i + 1;
                }
                Ok(internal.copy())
            },
            _ => Err(IndexError::InvalidNodeType),
        }
    }

    /// What the keys of a tree are.
    pub fn spec(&self, handle: BTreeHandle) -> (outcome: Result<IndexSpec, IndexError>)
        ensures
            outcome == match meta_read(self@, handle) {
                Err(error) => Err(error),
                Ok(meta) => Ok(meta.spec),
            },
    {
        let meta = self.read_meta(handle)?;
        Ok(meta.spec)
    }
}

// ---------------------------------------------------------------------------
// From the root to a leaf
// ---------------------------------------------------------------------------
/// One inner node on the way to a leaf and the child that was taken.
pub struct PathEntry {
    pub page_id: PageId,
    pub node: InternalNode,
    pub child_position: usize,
}

/// What one step of a way says.
#[verifier::ext_equal]
pub struct StepView {
    pub page: PageId,
    pub node: InternalView,
    pub place: int,
}

impl View for PathEntry {
    type V = StepView;

    open spec fn view(&self) -> StepView {
        StepView {
            page: self.page_id,
            node: self.node@,
            place: self.child_position as int,
        }
    }
}

/// What a way says.
pub open spec fn path_view(path: Seq<PathEntry>) -> Seq<StepView> {
    path.map_values(|step: PathEntry| step@)
}

/// The leaf at the end of a way, and the way.
#[verifier::ext_equal]
pub struct Descent {
    pub page: PageId,
    pub leaf: LeafView,
    pub path: Seq<StepView>,
}

/// The way from a node at a height to the leaf that an entry belongs to.
pub open spec fn descent(
    pages: Seq<PageView>,
    page: PageId,
    height: nat,
    entry: EntryView,
) -> Result<Descent, IndexError>
    decreases height,
{
    if height == 0 {
        Err(IndexError::InvalidHeight(0))
    } else if height == 1 {
        match leaf_read(pages, page) {
            Err(error) => Err(error),
            Ok(leaf) => Ok(Descent { page, leaf, path: Seq::empty() }),
        }
    } else {
        match internal_read(pages, page) {
            Err(error) => Err(error),
            Ok(node) => {
                let place = node::place_of(node.seps, entry);
                match descent(pages, node.kids[place], (height - 1) as nat, entry) {
                    Err(error) => Err(error),
                    Ok(below) => Ok(
                        Descent {
                            page: below.page,
                            leaf: below.leaf,
                            path: seq![StepView { page, node, place }] + below.path,
                        },
                    ),
                }
            },
        }
    }
}

/// A way that was followed part of the way down.
pub open spec fn descent_after(
    path: Seq<StepView>,
    rest: Result<Descent, IndexError>,
) -> Result<Descent, IndexError> {
    match rest {
        Err(error) => Err(error),
        Ok(below) => Ok(
            Descent { page: below.page, leaf: below.leaf, path: path + below.path },
        ),
    }
}

impl BTree {
    /// The leaf that an entry belongs to, and the way to it.
    pub(crate) fn find_leaf_for_entry(&self, meta: &MetaNode, entry: &IndexEntry) -> (outcome:
        Result<(PageId, LeafNode, Vec<PathEntry>), IndexError>)
        ensures
            match descent(self@, meta.root_page, meta.height as nat, entry@) {
                Err(error) => outcome == Err::<(PageId, LeafNode, Vec<PathEntry>), IndexError>(
                    error,
                ),
                Ok(way) => outcome matches Ok(found) && found.0 == way.page && found.1@ == way.leaf
                    && path_view(found.2@) == way.path,
            },
    {
        let mut page: PageId = meta.root_page;
        let mut path: Vec<PathEntry> = Vec::new();
        if meta.height == 0 {
            return Err(IndexError::InvalidHeight(0));
        }
        let mut level: u16 = meta.height;
        let ghost whole = descent(self@, meta.root_page, meta.height as nat, entry@);
        proof {
            assert(path_view(path@) =~= Seq::empty());
            if whole is Ok {
                assert(Seq::<StepView>::empty() + whole->Ok_0.path =~= whole->Ok_0.path);
            }
        }
        while level > 1
            invariant
                1 <= level,
                whole == descent(self@, meta.root_page, meta.height as nat, entry@),
                whole == descent_after(
                    path_view(path@),
                    descent(self@, page, level as nat, entry@),
                ),
            decreases level,
        {
            let node = self.read_internal(page)?;
            let place: usize = node.child_position(entry);
            let child: PageId = node.child(place);
            let ghost shown = node@;
            let ghost so_far = path_view(path@);
            let ghost below = descent(self@, child, (level - 1) as nat, entry@);
            path.push(PathEntry { page_id: page, node, child_position: place });
            proof {
                let step = StepView { page, node: shown, place: place as int };
                assert(path_view(path@) =~= so_far.push(step));
                if below is Ok {
                    let rest = below->Ok_0.path;
                    assert(so_far + (seq![step] + rest) =~= so_far.push(step) + rest);
                }
            }
            page = child;
            level = level - 1;
        }
        let leaf = self.read_leaf(page)?;
        proof {
            assert(path_view(path@) + Seq::<StepView>::empty() =~= path_view(path@));
        }
        Ok((page, leaf, path))
    }
}

} // verus!
