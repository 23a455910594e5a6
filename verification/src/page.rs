//! Page images: what the engine decides by, decoded, and the bytes.
use crate::bytes;
use crate::ids::{IndexId, Lsn, PageGeneration, PageId, PageRef};
use crate::value::PhysicalType;
use vstd::prelude::*;

verus! {

/// What a page is used for.
#[derive(Debug, Clone, Copy, PartialEq, Eq, Structural)]
pub enum PageType {
    /// A page of zeros, or one without a valid header.
    Unformatted,
    Heap,
    IndexCatalog,
    BTreeMeta,
    BTreeLeaf,
    BTreeInternal,
}

/// The mark of a B-tree page that was retired.
#[derive(Debug, Clone, Copy, PartialEq, Eq, Structural)]
pub struct RetiredBTreePage {
    pub owner: IndexId,
    pub page_ref: PageRef,
}

/// What a page holds, as far as the engine decides by it.
#[derive(Debug)]
pub struct Page {
    pub id: PageId,
    pub page_type: PageType,
    /// The last logged change of the page.
    pub lsn: Option<Lsn>,
    /// The incarnation that the page names.
    pub generation: Option<PageGeneration>,
    /// The index that a B-tree page names.
    pub owner: Option<IndexId>,
    /// The mark of a retired B-tree page.
    pub retired: Option<RetiredBTreePage>,
    /// Whether the payload of a root record can be decoded.
    pub meta_readable: bool,
    /// The key types under which the payload of a node can be decoded.
    pub readable_as: Vec<PhysicalType>,
    pub bytes: Vec<u8>,
}

/// What a page says.
#[verifier::ext_equal]
pub struct Image {
    pub id: PageId,
    pub page_type: PageType,
    pub lsn: Option<Lsn>,
    pub generation: Option<PageGeneration>,
    pub owner: Option<IndexId>,
    pub retired: Option<RetiredBTreePage>,
    pub meta_readable: bool,
    pub readable_as: Seq<PhysicalType>,
    pub bytes: Seq<u8>,
}

impl View for Page {
    type V = Image;

    open spec fn view(&self) -> Image {
        Image {
            id: self.id,
            page_type: self.page_type,
            lsn: self.lsn,
            generation: self.generation,
            owner: self.owner,
            retired: self.retired,
            meta_readable: self.meta_readable,
            readable_as: self.readable_as@,
            bytes: self.bytes@,
        }
    }
}

/// Whether any byte of a page is set.
pub open spec fn any_set(image: Image) -> bool {
    exists|i: int| 0 <= i < image.bytes.len() && #[trigger] image.bytes[i] != 0
}

impl Page {
    /// A copy of the page.
    pub fn copy(&self) -> (copy: Page)
        ensures
            copy@ == self@,
    {
        let mut readable_as: Vec<PhysicalType> = Vec::new();
        let mut i: usize = 0;
        while i < self.readable_as.len()
            invariant
                i <= self.readable_as@.len(),
                readable_as@ == self.readable_as@.take(i as int),
            decreases self.readable_as@.len() - i,
        {
            readable_as.push(self.readable_as[i]);
            assert(readable_as@ =~= self.readable_as@.take(i + 1));
            i = i + 1;
        }
        assert(readable_as@ =~= self.readable_as@);
        Page {
            id: self.id,
            page_type: self.page_type,
            lsn: self.lsn,
            generation: self.generation,
            owner: self.owner,
            retired: self.retired,
            meta_readable: self.meta_readable,
            readable_as,
            bytes: bytes::copy_bytes(self.bytes.as_slice()),
        }
    }

    /// Whether two pages have the same bytes.
    pub fn same_bytes(&self, other: &Page) -> (same: bool)
        ensures
            same == (self@.bytes == other@.bytes),
    {
        bytes::same_bytes(self.bytes.as_slice(), other.bytes.as_slice())
    }

    /// Whether any byte of the page is set.
    pub fn is_set(&self) -> (set: bool)
        ensures
            set == any_set(self@),
    {
        let mut i: usize = 0;
        while i < self.bytes.len()
            invariant
                i <= self.bytes@.len(),
                forall|j: int| 0 <= j < i ==> #[trigger] self.bytes@[j] == 0,
            decreases self.bytes@.len() - i,
        {
            if self.bytes[i] != 0 {
                assert(self@.bytes[i as int] != 0);
                return true;
            }
            i = i + 1;
        }
        false
    }

    /// Whether the payload of a node can be decoded under a key type.
    pub fn reads_as(&self, physical: PhysicalType) -> (readable: bool)
        ensures
            readable == self@.readable_as.contains(physical),
    {
        let mut i: usize = 0;
        while i < self.readable_as.len()
            invariant
                i <= self.readable_as@.len(),
                forall|j: int| 0 <= j < i ==> #[trigger] self.readable_as@[j] != physical,
            decreases self.readable_as@.len() - i,
        {
            if self.readable_as[i] == physical {
                assert(self.readable_as@.contains(self.readable_as@[i as int]));
                return true;
            }
            i = i + 1;
        }
        false
    }
}

} // verus!
