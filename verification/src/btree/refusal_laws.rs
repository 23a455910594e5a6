//! What a tree refuses before it looks at its nodes.
use super::delete;
use super::error::IndexError;
use super::insert;
use super::key;
use super::key::{EntryView, IndexSpec};
use super::lookup;
use super::pages;
use super::pages::{BTreeHandle, PageView};
use super::tree;
use crate::ids::{PageId, RowId};

use vstd::prelude::*;
use vstd::utf8;

verus! {

/// Whether a page can be a node: it is one of the file, and not its first.
pub open spec fn can_be_node(pages: Seq<PageView>, page: PageId) -> bool {
    page.0 != 0 && page.0 < pages.len()
}

/// A root record is read exactly where its page can be a node and holds one, it is
/// lower than the file has pages, and its root can be a node.
pub proof fn law_root_record(pages: Seq<PageView>, handle: BTreeHandle)
    ensures
        match pages::meta_read(pages, handle) {
            Ok(meta) => {
                &&& can_be_node(pages, handle.meta_page)
                &&& pages[handle.meta_page.0 as int] == PageView::Meta(meta)
                &&& meta.height < pages.len()
                &&& can_be_node(pages, meta.root_page)
            },
            Err(_) => {
                ||| !can_be_node(pages, handle.meta_page)
                ||| !(pages[handle.meta_page.0 as int] is Meta)
                ||| pages[handle.meta_page.0 as int]->Meta_0.height >= pages.len()
                ||| !can_be_node(pages, pages[handle.meta_page.0 as int]->Meta_0.root_page)
            },
        },
{
}

/// Where the root record cannot be read, nothing can be done, for the same reason.
/// An entry that the index does not take is neither inserted nor asked for, and a
/// key that it does not take is neither removed nor looked up, for that reason.
pub proof fn law_refused_entries(
    pages: Seq<PageView>,
    capacity: u32,
    handle: BTreeHandle,
    entry: EntryView,
)
    ensures
        pages::meta_read(pages, handle) matches Err(error) ==> {
            &&& insert::insert_changes(pages, capacity, handle, entry) is Err
            &&& insert::insert_changes(pages, capacity, handle, entry)->Err_0 == error
            &&& delete::delete_changes(pages, capacity, handle, entry) is Err
            &&& delete::delete_changes(pages, capacity, handle, entry)->Err_0 == error
            &&& lookup::held(pages, capacity, handle, entry) == Err::<bool, IndexError>(error)
            &&& lookup::rows_of(pages, handle, entry.key) == Err::<Seq<RowId>, IndexError>(error)
        },
        pages::meta_read(pages, handle) matches Ok(meta) ==> {
            &&& key::fit_check(meta.spec, entry, capacity) matches Err(error) ==> {
                &&& insert::insert_changes(pages, capacity, handle, entry) is Err
                &&& insert::insert_changes(pages, capacity, handle, entry)->Err_0 == error
                &&& lookup::held(pages, capacity, handle, entry) == Err::<bool, IndexError>(error)
            }
            &&& key::key_check(meta.spec, entry.key) matches Err(error) ==> {
                &&& delete::delete_changes(pages, capacity, handle, entry) is Err
                &&& delete::delete_changes(pages, capacity, handle, entry)->Err_0 == error
                &&& lookup::rows_of(pages, handle, entry.key) == Err::<Seq<RowId>, IndexError>(
                    error,
                )
            }
        },
{
}

/// A tree can be made exactly where the file has room for two pages more and a page
/// has room for the root record.
pub proof fn law_when_a_tree_can_be_made(count: nat, capacity: u32, spec: IndexSpec)
    ensures
        tree::create_changes(count, capacity, spec) is Ok <==> {
            &&& count < u64::MAX
            &&& 16 + match spec.nominal {
                Some(name) => utf8::encode_utf8(name@).len() as int,
                None => 0,
            } <= capacity
        },
{
}

} // verus!
