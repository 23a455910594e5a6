//! In which order a publication does what it does.
use super::publish;
use super::publish::{PublishAction, PublishError, PublishEvent};
use crate::ids::{Lsn, PageId};
use vstd::prelude::*;

verus! {

/// Whether a place is the first of its kind from one on: new pages, or pages that
/// are rewritten.
pub open spec fn first_from(fresh: Seq<bool>, wanted: bool, from: int, place: int) -> bool {
    &&& from <= place < fresh.len()
    &&& fresh[place] == wanted
    &&& forall|i: int| from <= i < place ==> fresh[i] != wanted
}

/// Whether there is none of a kind from one on.
pub open spec fn none_from(fresh: Seq<bool>, wanted: bool, from: int) -> bool {
    forall|i: int| from <= i < fresh.len() ==> fresh[i] != wanted
}

proof fn lemma_next(fresh: Seq<bool>, wanted: bool, from: int)
    requires
        0 <= from <= fresh.len(),
    ensures
        ({
            let place = publish::next_place(fresh, wanted, from);
            &&& from <= place <= fresh.len()
            &&& place < fresh.len() ==> first_from(fresh, wanted, from, place)
            &&& place == fresh.len() ==> none_from(fresh, wanted, from)
        }),
    decreases fresh.len() - from,
{
    if from < fresh.len() && fresh[from] != wanted {
        lemma_next(fresh, wanted, from + 1);
    }
}

/// Whether an action is the rewriting of the first page from one on that is
/// rewritten, or the end where there is none.
pub open spec fn rewrites_next(fresh: Seq<bool>, from: int, next: PublishAction) -> bool {
    match next {
        PublishAction::Rewrite(place) => first_from(fresh, false, from, place as int),
        PublishAction::Finished => none_from(fresh, false, from),
        _ => false,
    }
}

/// Whether an action is the adding of the first new page from one on, or where there
/// is none the rewriting of the first page that is rewritten, or the end.
pub open spec fn adds_next(fresh: Seq<bool>, from: int, next: PublishAction) -> bool {
    if none_from(fresh, true, from) {
        rewrites_next(fresh, 0, next)
    } else {
        next matches PublishAction::Add(place) && first_from(fresh, true, from, place as int)
    }
}

/// Each change is logged, one after the other. Behind the last one the log is
/// flushed through it where there are new pages; then these are added, one after
/// the other. Then the other pages are rewritten, one after the other, and that is
/// the end. No step is left out.
pub proof fn law_publication_takes_every_step(
    pages: Seq<PageId>,
    fresh: Seq<bool>,
    place: usize,
    rollback: bool,
    lsn: Lsn,
)
    requires
        place < fresh.len() <= usize::MAX,
        pages.len() == fresh.len(),
    ensures
        ({
            let log = publish::advance(
                pages,
                fresh,
                PublishAction::Log(place),
                rollback,
                PublishEvent::Logged(lsn),
            );
            &&& log.outcome is Ok
            &&& log.rollback == rollback
            &&& if place + 1 < fresh.len() {
                log.action == PublishAction::Log((place + 1) as usize)
            } else if none_from(fresh, true, 0) {
                rewrites_next(fresh, 0, log.action)
            } else {
                log.action == PublishAction::Flush(lsn)
            }
        }),
        ({
            let flush = publish::advance(
                pages,
                fresh,
                PublishAction::Flush(lsn),
                rollback,
                PublishEvent::Flushed,
            );
            flush.outcome is Ok && flush.rollback == rollback && adds_next(fresh, 0, flush.action)
        }),
        ({
            let add = publish::advance(
                pages,
                fresh,
                PublishAction::Add(place),
                rollback,
                PublishEvent::Added(pages[place as int]),
            );
            add.outcome is Ok && add.rollback == rollback && adds_next(
                fresh,
                place + 1,
                add.action,
            )
        }),
        ({
            let rewrite = publish::advance(
                pages,
                fresh,
                PublishAction::Rewrite(place),
                rollback,
                PublishEvent::Rewritten,
            );
            rewrite.outcome is Ok && rewrite.rollback == rollback && rewrites_next(
                fresh,
                place + 1,
                rewrite.action,
            )
        }),
{
    lemma_next(fresh, true, 0);
    lemma_next(fresh, false, 0);
    lemma_next(fresh, true, place + 1);
    lemma_next(fresh, false, place + 1);
    if publish::next_place(fresh, true, 0) < fresh.len() {
        assert(!none_from(fresh, true, 0)) by {
            assert(fresh[publish::next_place(fresh, true, 0)]);
        }
    }
    if publish::next_place(fresh, true, place + 1) < fresh.len() {
        assert(!none_from(fresh, true, place + 1)) by {
            assert(fresh[publish::next_place(fresh, true, place + 1)]);
        }
    }
}

/// A step that fails stops the publication, and so does a page that was added as
/// another than the planned one. The changes are to be rolled back then, unless not
/// even the first one was logged. An event that does not answer the action changes
/// nothing.
pub proof fn law_publication_stops(
    pages: Seq<PageId>,
    fresh: Seq<bool>,
    action: PublishAction,
    rollback: bool,
    event: PublishEvent,
)
    ensures
        ({
            let step = publish::advance(pages, fresh, action, rollback, event);
            let answered = match action {
                PublishAction::Log(_) => event is Logged || event is Failed,
                PublishAction::Flush(_) => event is Flushed || event is Failed,
                PublishAction::Add(_) => event is Added || event is Failed,
                PublishAction::Rewrite(_) => event is Rewritten || event is Failed,
                _ => false,
            };
            &&& !answered ==> {
                &&& step.action == action
                &&& step.rollback == rollback
                &&& step.outcome == Err::<(), PublishError>(PublishError::UnexpectedEvent)
            }
            &&& answered && event is Failed ==> {
                &&& step.action == PublishAction::Stopped
                &&& step.outcome == Err::<(), PublishError>(PublishError::ActionFailed)
                &&& step.rollback == (rollback || action != PublishAction::Log(0))
            }
            &&& match (action, event) {
                (PublishAction::Add(i), PublishEvent::Added(page)) => pages[i as int] != page ==> {
                    &&& step.action == PublishAction::Stopped
                    &&& step.outcome == Err::<(), PublishError>(PublishError::InvalidChild(page))
                    &&& step.rollback
                },
                _ => true,
            }
        }),
{
}

} // verus!
