//! Page changes: what an operation wants written.
use super::pages;
use super::pages::{BTree, PageView, TreePage};
use crate::ids::PageId;
use vstd::prelude::*;

verus! {

/// One page that an operation wants written.
#[derive(Debug)]
pub struct PageChange {
    pub page_id: PageId,
    /// Whether the page is to be added at the end of the file.
    pub new_page: bool,
    pub after: TreePage,
}

/// What a change says.
#[verifier::ext_equal]
pub struct ChangeView {
    pub page: PageId,
    pub new: bool,
    pub after: PageView,
}

impl View for PageChange {
    type V = ChangeView;

    open spec fn view(&self) -> ChangeView {
        ChangeView { page: self.page_id, new: self.new_page, after: self.after@ }
    }
}

/// What a list of changes says.
pub open spec fn changes_view(changes: Seq<PageChange>) -> Seq<ChangeView> {
    changes.map_values(|change: PageChange| change@)
}

/// The pages after a list of changes.
pub open spec fn applied(pages: Seq<PageView>, changes: Seq<ChangeView>) -> Seq<PageView>
    decreases changes.len(),
{
    if changes.len() == 0 {
        pages
    } else {
        let so_far = applied(pages, changes.drop_last());
        let change = changes.last();
        if change.new {
            so_far.push(change.after)
        } else {
            so_far.update(change.page.0 as int, change.after)
        }
    }
}

/// The number of pages after a list of changes.
pub open spec fn grown(count: nat, changes: Seq<ChangeView>) -> nat
    decreases changes.len(),
{
    if changes.len() == 0 {
        count
    } else if changes.last().new {
        grown(count, changes.drop_last()) + 1
    } else {
        grown(count, changes.drop_last())
    }
}

/// Every new page comes right behind the file as it is then, and every other
/// change is of a page of the file.
pub open spec fn placed(count: nat, changes: Seq<ChangeView>) -> bool
    decreases changes.len(),
{
    changes.len() == 0 || {
        &&& placed(count, changes.drop_last())
        &&& if changes.last().new {
            changes.last().page.0 == grown(count, changes.drop_last())
        } else {
            changes.last().page.0 < count
        }
    }
}

/// A new page at the end of the file.
pub open spec fn new_page(page: PageId, after: PageView) -> ChangeView {
    ChangeView { page, new: true, after }
}

/// Another content for a page of the file.
pub open spec fn rewritten(page: PageId, after: PageView) -> ChangeView {
    ChangeView { page, new: false, after }
}

/// How one more change follows a list of them.
pub proof fn lemma_one_more(
    pages: Seq<PageView>,
    count: nat,
    changes: Seq<ChangeView>,
    change: ChangeView,
)
    ensures
        applied(pages, changes.push(change)) == if change.new {
            applied(pages, changes).push(change.after)
        } else {
            applied(pages, changes).update(change.page.0 as int, change.after)
        },
        grown(count, changes.push(change)) == grown(count, changes) + if change.new {
            1nat
        } else {
            0nat
        },
        placed(count, changes.push(change)) == (placed(count, changes) && if change.new {
            change.page.0 == grown(count, changes)
        } else {
            change.page.0 < count
        }),
{
    assert(changes.push(change).drop_last() =~= changes);
}

/// The length of the file after a list of changes.
pub proof fn lemma_applied_length(pages: Seq<PageView>, changes: Seq<ChangeView>)
    requires
        placed(pages.len(), changes),
    ensures
        applied(pages, changes).len() == grown(pages.len(), changes),
        grown(pages.len(), changes) >= pages.len(),
    decreases changes.len(),
{
    if changes.len() > 0 {
        lemma_applied_length(pages, changes.drop_last());
    }
}

impl BTree {
    /// Writes a list of changes.
    pub(crate) fn apply(&mut self, changes: Vec<PageChange>)
        requires
            placed(old(self)@.len(), changes_view(changes@)),
        ensures
            final(self)@ == applied(old(self)@, changes_view(changes@)),
            final(self).capacity == old(self).capacity,
    {
        let ghost list = changes_view(changes@);
        let ghost start = self@;
        let mut rest = changes;
        let ghost mut done: int = 0;
        assert(list.take(0) =~= Seq::empty());
        while rest.len() > 0
            invariant
                0 <= done <= list.len(),
                rest@.len() == list.len() - done,
                changes_view(rest@) == list.skip(done),
                placed(start.len(), list),
                self@ == applied(start, list.take(done)),
                self.capacity == old(self).capacity,
            decreases rest@.len(),
        {
            let ghost before = rest@;
            let change = rest.remove(0);
            let ghost shown = change@;
            proof {
                assert(shown == changes_view(before)[0]);
                assert(shown == list[done]);
                assert forall|i: int| 0 <= i < rest@.len() implies changes_view(rest@)[i]
                    == list.skip(done + 1)[i] by {
                    assert(changes_view(before)[i + 1] == list.skip(done)[i + 1]);
                }
                assert(changes_view(rest@) =~= list.skip(done + 1));
                assert(list.take(done + 1).drop_last() =~= list.take(done));
                lemma_placed_front(start.len(), list, done);
                lemma_placed_front(start.len(), list, done + 1);
                lemma_applied_length(start, list.take(done));
            }
            let ghost so_far = self@;
            if change.new_page {
                self.pages.push(change.after);
                assert(self@ =~= so_far.push(shown.after));
            } else {
                let count: usize = self.pages.len();
                assert(count == so_far.len());
                let index: usize = change.page_id.0 as usize;
                self.pages.set(index, change.after);
                assert(self@ =~= so_far.update(index as int, shown.after));
            }
            proof {
                done = done + 1;
            }
        }
        assert(list.take(done) =~= list);
    }
}

/// The front of a placed list is placed.
pub proof fn lemma_placed_front(count: nat, changes: Seq<ChangeView>, n: int)
    requires
        placed(count, changes),
        0 <= n <= changes.len(),
    ensures
        placed(count, changes.take(n)),
    decreases changes.len(),
{
    if n == changes.len() {
        assert(changes.take(n) =~= changes);
    } else {
        lemma_placed_front(count, changes.drop_last(), n);
        assert(changes.drop_last().take(n) =~= changes.take(n));
    }
}

} // verus!
