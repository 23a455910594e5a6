//! The order in which the changes of one operation become durable: every
//! page is logged before any is published, the log is flushed before the file
//! grows, and new pages are published before others refer to them.
use super::change;
use super::change::{ChangeView, PageChange};
use crate::ids::{Lsn, PageId};
use vstd::prelude::*;

verus! {

/// What is to be done next.
#[derive(Debug, Clone, Copy, PartialEq, Eq, Structural)]
pub enum PublishAction {
    /// Log the change at a place of the list.
    Log(usize),
    /// Flush the log through a position.
    Flush(Lsn),
    /// Add the new page of the change at a place of the list.
    Add(usize),
    /// Rewrite the page of the change at a place of the list.
    Rewrite(usize),
    /// Nothing is left to do.
    Finished,
    /// A step failed: nothing more is done.
    Stopped,
}

/// What came of an action.
#[derive(Debug, Clone, Copy, PartialEq, Eq, Structural)]
pub enum PublishEvent {
    Logged(Lsn),
    Flushed,
    Added(PageId),
    Rewritten,
    Failed,
}

/// Why a publication stopped.
#[derive(Debug, Clone, Copy, PartialEq, Eq, Structural)]
pub enum PublishError {
    /// The action itself failed.
    ActionFailed,
    /// The file grew by another page than the planned one.
    InvalidChild(PageId),
    /// The event does not answer the action.
    UnexpectedEvent,
}

/// One list of changes on its way to the file.
#[derive(Debug)]
pub struct Publication {
    pages: Vec<PageId>,
    fresh: Vec<bool>,
    action: PublishAction,
    rollback_required: bool,
}

/// The pages of a list of changes.
pub open spec fn change_pages(changes: Seq<ChangeView>) -> Seq<PageId> {
    changes.map_values(|change: ChangeView| change.page)
}

/// Which changes of a list add a page.
pub open spec fn change_fresh(changes: Seq<ChangeView>) -> Seq<bool> {
    changes.map_values(|change: ChangeView| change.new)
}

/// The first place from `i` on that adds a page, or does not.
pub open spec fn next_place(fresh: Seq<bool>, wanted: bool, i: int) -> int
    decreases fresh.len() - i,
{
    if 0 <= i < fresh.len() && fresh[i] != wanted {
        next_place(fresh, wanted, i + 1)
    } else {
        i
    }
}

/// What is rewritten next, from a place on.
pub open spec fn rewrite_from(fresh: Seq<bool>, i: int) -> PublishAction {
    let place = next_place(fresh, false, i);
    if place < fresh.len() {
        PublishAction::Rewrite(place as usize)
    } else {
        PublishAction::Finished
    }
}

/// What is added next, from a place on; then what is rewritten.
pub open spec fn add_from(fresh: Seq<bool>, i: int) -> PublishAction {
    let place = next_place(fresh, true, i);
    if place < fresh.len() {
        PublishAction::Add(place as usize)
    } else {
        rewrite_from(fresh, 0)
    }
}

/// What follows the logging of the last change.
pub open spec fn after_logging(fresh: Seq<bool>, lsn: Lsn) -> PublishAction {
    if next_place(fresh, true, 0) < fresh.len() {
        PublishAction::Flush(lsn)
    } else {
        rewrite_from(fresh, 0)
    }
}

/// What a publication does on an event: the next action, whether a rollback
/// is now required, and what the caller is told.
pub struct Advance {
    pub action: PublishAction,
    pub rollback: bool,
    pub outcome: Result<(), PublishError>,
}

/// A step that failed.
pub open spec fn stopped(rollback: bool, error: PublishError) -> Advance {
    Advance { action: PublishAction::Stopped, rollback, outcome: Err(error) }
}

/// What a publication does on an event.
pub open spec fn advance(
    pages: Seq<PageId>,
    fresh: Seq<bool>,
    action: PublishAction,
    rollback: bool,
    event: PublishEvent,
) -> Advance {
    let done = |next: PublishAction| Advance { action: next, rollback, outcome: Ok(()) };
    match (action, event) {
        (PublishAction::Log(i), PublishEvent::Logged(lsn)) => if i + 1 < fresh.len() {
            done(PublishAction::Log((i + 1) as usize))
        } else {
            done(after_logging(fresh, lsn))
        },
        (PublishAction::Log(i), PublishEvent::Failed) => stopped(
            rollback || i > 0,
            PublishError::ActionFailed,
        ),
        (PublishAction::Flush(_), PublishEvent::Flushed) => done(add_from(fresh, 0)),
        (PublishAction::Add(i), PublishEvent::Added(page)) => if page == pages[i as int] {
            done(add_from(fresh, i + 1))
        } else {
            stopped(true, PublishError::InvalidChild(page))
        },
        (PublishAction::Rewrite(i), PublishEvent::Rewritten) => done(rewrite_from(fresh, i + 1)),
        (PublishAction::Flush(_), PublishEvent::Failed)
        | (PublishAction::Add(_), PublishEvent::Failed)
        | (PublishAction::Rewrite(_), PublishEvent::Failed) => stopped(
            true,
            PublishError::ActionFailed,
        ),
        _ => Advance { action, rollback, outcome: Err(PublishError::UnexpectedEvent) },
    }
}

impl Publication {
    /// The pages of the changes.
    pub closed spec fn pages_shown(&self) -> Seq<PageId> {
        self.pages@
    }

    /// Which changes add a page.
    pub closed spec fn fresh_shown(&self) -> Seq<bool> {
        self.fresh@
    }

    /// What is to be done next.
    pub closed spec fn action_shown(&self) -> PublishAction {
        self.action
    }

    /// Whether the transaction must be rolled back.
    pub closed spec fn rollback_shown(&self) -> bool {
        self.rollback_required
    }

    /// The action is of a place of the list, and of the right kind there.
    pub open spec fn wf(&self) -> bool {
        let fresh = self.fresh_shown();
        &&& self.pages_shown().len() == fresh.len()
        &&& match self.action_shown() {
            PublishAction::Log(i) => i < fresh.len(),
            PublishAction::Flush(_) => next_place(fresh, true, 0) < fresh.len(),
            PublishAction::Add(i) => i < fresh.len() && fresh[i as int],
            PublishAction::Rewrite(i) => i < fresh.len() && !fresh[i as int],
            _ => true,
        }
    }

    /// A publication of a list of changes, of which nothing was done yet.
    pub fn start(changes: &[PageChange]) -> (publication: Publication)
        ensures
            publication.wf(),
            publication.pages_shown() == change_pages(change::changes_view(changes@)),
            publication.fresh_shown() == change_fresh(change::changes_view(changes@)),
            publication.action_shown() == if changes@.len() == 0 {
                PublishAction::Finished
            } else {
                PublishAction::Log(0)
            },
            !publication.rollback_shown(),
    {
        let mut pages: Vec<PageId> = Vec::new();
        let mut fresh: Vec<bool> = Vec::new();
        let mut i: usize = 0;
        while i < changes.len()
            invariant
                i <= changes@.len(),
                pages@.len() == i,
                fresh@.len() == i,
                forall|j: int| 0 <= j < i ==> #[trigger] pages@[j] == changes@[j].page_id,
                forall|j: int| 0 <= j < i ==> #[trigger] fresh@[j] == changes@[j].new_page,
            decreases changes@.len() - i,
        {
            pages.push(changes[i].page_id);
            fresh.push(changes[i].new_page);
            i = i + 1;
        }
        assert(pages@ =~= change_pages(change::changes_view(changes@)));
        assert(fresh@ =~= change_fresh(change::changes_view(changes@)));
        let action = if i == 0 {
            PublishAction::Finished
        } else {
            PublishAction::Log(0)
        };
        Publication { pages, fresh, action, rollback_required: false }
    }

    /// What is to be done next.
    pub fn action(&self) -> (action: PublishAction)
        ensures
            action == self.action_shown(),
    {
        self.action
    }

    /// Whether the transaction must be rolled back.
    pub fn rollback_required(&self) -> (required: bool)
        ensures
            required == self.rollback_shown(),
    {
        self.rollback_required
    }

    /// The first place from `start` on that adds a page, or does not.
    fn find_place(&self, wanted: bool, start: usize) -> (place: usize)
        requires
            start <= self.fresh@.len(),
        ensures
            place == next_place(self.fresh@, wanted, start as int),
            start <= place <= self.fresh@.len(),
            place < self.fresh@.len() ==> self.fresh@[place as int] == wanted,
    {
        let mut i: usize = start;
        while i < self.fresh.len() && self.fresh[i] != wanted
            invariant
                start <= i <= self.fresh@.len(),
                next_place(self.fresh@, wanted, start as int) == next_place(
                    self.fresh@,
                    wanted,
                    i as int,
                ),
            decreases self.fresh@.len() - i,
        {
            i = i + 1;
        }
        i
    }

    /// What is rewritten next, from a place on.
    fn to_rewrite(&self, start: usize) -> (action: PublishAction)
        requires
            start <= self.fresh@.len(),
        ensures
            action == rewrite_from(self.fresh@, start as int),
            action matches PublishAction::Rewrite(i) ==> i < self.fresh@.len()
                && !self.fresh@[i as int],
    {
        let place: usize = self.find_place(false, start);
        if place < self.fresh.len() {
            PublishAction::Rewrite(place)
        } else {
            PublishAction::Finished
        }
    }

    /// What is added next, from a place on; then what is rewritten.
    fn to_add(&self, start: usize) -> (action: PublishAction)
        requires
            start <= self.fresh@.len(),
        ensures
            action == add_from(self.fresh@, start as int),
            match action {
                PublishAction::Add(i) => i < self.fresh@.len() && self.fresh@[i as int],
                PublishAction::Rewrite(i) => i < self.fresh@.len() && !self.fresh@[i as int],
                _ => true,
            },
    {
        let place: usize = self.find_place(true, start);
        if place < self.fresh.len() {
            PublishAction::Add(place)
        } else {
            self.to_rewrite(0)
        }
    }

    /// Takes what came of the action.
    pub fn next(&mut self, event: PublishEvent) -> (outcome: Result<(), PublishError>)
        requires
            old(self).wf(),
        ensures
            final(self).wf(),
            final(self).pages_shown() == old(self).pages_shown(),
            final(self).fresh_shown() == old(self).fresh_shown(),
            ({
                let step = advance(
                    old(self).pages_shown(),
                    old(self).fresh_shown(),
                    old(self).action_shown(),
                    old(self).rollback_shown(),
                    event,
                );
                &&& final(self).action_shown() == step.action
                &&& final(self).rollback_shown() == step.rollback
                &&& outcome == step.outcome
            }),
    {
        let count: usize = self.fresh.len();
        assert(count == self.fresh@.len());
        match (self.action, event) {
            (PublishAction::Log(i), PublishEvent::Logged(lsn)) => {
                if i + 1 < count {
                    self.action = PublishAction::Log(i + 1);
                } else if self.find_place(true, 0) < count {
                    self.action = PublishAction::Flush(lsn);
                } else {
                    self.action = self.to_rewrite(0);
                }
                Ok(())
            },
            (PublishAction::Log(i), PublishEvent::Failed) => {
                self.rollback_required = self.rollback_required || i > 0;
                self.action = PublishAction::Stopped;
                Err(PublishError::ActionFailed)
            },
            (PublishAction::Flush(_), PublishEvent::Flushed) => {
                self.action = self.to_add(0);
                Ok(())
            },
            (PublishAction::Add(i), PublishEvent::Added(page)) => {
                if page == self.pages[i] {
                    self.action = self.to_add(i + 1);
                    Ok(())
                } else {
                    self.rollback_required = true;
                    self.action = PublishAction::Stopped;
                    Err(PublishError::InvalidChild(page))
                }
            },
            (PublishAction::Rewrite(i), PublishEvent::Rewritten) => {
                self.action = self.to_rewrite(i + 1);
                Ok(())
            },
            (PublishAction::Flush(_), PublishEvent::Failed)
            | (PublishAction::Add(_), PublishEvent::Failed)
            | (PublishAction::Rewrite(_), PublishEvent::Failed) => {
                self.rollback_required = true;
                self.action = PublishAction::Stopped;
                Err(PublishError::ActionFailed)
            },
            _ => Err(PublishError::UnexpectedEvent),
        }
    }
}

// ---------------------------------------------------------------------------
// Laws
// ---------------------------------------------------------------------------
/// How far a publication has come.
pub open spec fn stage(action: PublishAction) -> int {
    match action {
        PublishAction::Log(_) => 0,
        PublishAction::Flush(_) => 1,
        PublishAction::Add(_) => 2,
        PublishAction::Rewrite(_) => 3,
        PublishAction::Finished => 4,
        PublishAction::Stopped => 5,
    }
}

/// A publication never goes back: pages are logged one after the other, only
/// then is the log flushed, only then does the file grow, and only then are
/// pages rewritten. A page is added or rewritten for the first time only when
/// the last change of the list was logged, and pages are added only behind a
/// flush.
pub proof fn law_publication_goes_forward(
    pages: Seq<PageId>,
    fresh: Seq<bool>,
    action: PublishAction,
    rollback: bool,
    event: PublishEvent,
)
    ensures
        ({
            let step = advance(pages, fresh, action, rollback, event);
            &&& stage(action) <= stage(step.action)
            &&& (action is Log && !(step.action is Log) && !(step.action is Stopped) ==> action->Log_0
                + 1 >= fresh.len() && event is Logged)
            &&& (action is Log && step.action is Log && event is Logged ==> step.action->Log_0
                == (action->Log_0 + 1) as usize)
            &&& (step.action is Add && !(action is Add) ==> action is Flush && event is Flushed)
            &&& (step.action is Stopped && !(action is Stopped) ==> step.outcome is Err && (
            step.rollback || action == PublishAction::Log(0)))
            &&& (rollback ==> step.rollback)
        }),
{
}

} // verus!
