//! The boundary between two incarnations of a B-tree page. Ordinary updates
//! never cross it.
use crate::ids::{IndexId, Lsn, PageRef};
use crate::page::{Image, Page, PageType};
use crate::text;
use crate::value::PhysicalType;
use vstd::prelude::*;

verus! {

/// A refused transition.
#[derive(Debug, Clone, Copy, PartialEq, Eq, Structural)]
pub enum TransitionError {
    /// A page that names no incarnation, or cannot be decoded.
    InvalidNodeType,
    /// The two incarnations do not follow each other.
    InvalidIdentities,
    OldAllocationDiffers,
    UnrelatedAllocation,
    InvalidNewAllocation,
    UndoneTransitionDiffers,
    UndoUnrelatedAllocation,
}

/// The message of an error.
pub open spec fn message(error: TransitionError) -> Seq<char> {
    match error {
        TransitionError::InvalidNodeType => "invalid B-tree node type"@,
        TransitionError::InvalidIdentities => "invalid BTree allocation transition identities"@,
        TransitionError::OldAllocationDiffers =>
            "transition old allocation differs from before image"@,
        TransitionError::UnrelatedAllocation => "transition encountered unrelated allocation"@,
        TransitionError::InvalidNewAllocation =>
            "transition new allocation has invalid pageLSN or image"@,
        TransitionError::UndoneTransitionDiffers => "undone transition differs from before image"@,
        TransitionError::UndoUnrelatedAllocation =>
            "transition undo encountered unrelated allocation"@,
    }
}

impl TransitionError {
    /// The message of the error.
    pub fn message(&self) -> (text: String)
        ensures
            text@ == message(*self),
    {
        match self {
            TransitionError::InvalidNodeType => text::text_of("invalid B-tree node type"),
            TransitionError::InvalidIdentities => text::text_of(
                "invalid BTree allocation transition identities",
            ),
            TransitionError::OldAllocationDiffers => text::text_of(
                "transition old allocation differs from before image",
            ),
            TransitionError::UnrelatedAllocation => text::text_of(
                "transition encountered unrelated allocation",
            ),
            TransitionError::InvalidNewAllocation => text::text_of(
                "transition new allocation has invalid pageLSN or image",
            ),
            TransitionError::UndoneTransitionDiffers => text::text_of(
                "undone transition differs from before image",
            ),
            TransitionError::UndoUnrelatedAllocation => text::text_of(
                "transition undo encountered unrelated allocation",
            ),
        }
    }
}

/// Which incarnation a page is, and whose.
#[derive(Debug, Clone, Copy, PartialEq, Eq, Structural)]
pub struct Identity {
    pub reference: PageRef,
    pub owner: IndexId,
}

/// Whether the payload of a B-tree page can be decoded.
pub open spec fn decodes(image: Image) -> bool {
    match image.page_type {
        PageType::BTreeMeta => image.meta_readable,
        PageType::BTreeLeaf | PageType::BTreeInternal => {
            ||| image.readable_as.contains(PhysicalType::Bool)
            ||| image.readable_as.contains(PhysicalType::Int64)
            ||| image.readable_as.contains(PhysicalType::UInt64)
            ||| image.readable_as.contains(PhysicalType::Text)
        },
        _ => false,
    }
}

/// Whether a page holds the mark of its own retirement.
pub open spec fn is_retired(image: Image) -> bool {
    image.retired matches Some(mark) && mark.page_ref.page_id == image.id && image.generation
        == Some(mark.page_ref.generation) && image.owner == Some(mark.owner)
}

/// Which incarnation a page is. Its outgoing references are not followed.
pub open spec fn identity_of(image: Image) -> Result<Identity, TransitionError> {
    match (image.owner, image.generation) {
        (Some(owner), Some(generation)) => if (image.page_type == PageType::BTreeMeta
            || image.page_type == PageType::BTreeLeaf || image.page_type
            == PageType::BTreeInternal) && (if image.retired is Some {
            is_retired(image)
        } else {
            decodes(image)
        }) {
            Ok(Identity { reference: PageRef { page_id: image.id, generation }, owner })
        } else {
            Err(TransitionError::InvalidNodeType)
        },
        _ => Err(TransitionError::InvalidNodeType),
    }
}

/// Whether one incarnation may follow another: a later one of the same page,
/// in use, of another index unless the old one was retired.
pub open spec fn transition_check(before: Image, after: Image) -> Result<(), TransitionError> {
    match identity_of(before) {
        Err(error) => Err(error),
        Ok(old) => match identity_of(after) {
            Err(error) => Err(error),
            Ok(new) => if old.reference.page_id == new.reference.page_id
                && old.reference.generation.0 < new.reference.generation.0 && !is_retired(after) && (
            is_retired(before) || old.owner != new.owner) {
                Ok(())
            } else {
                Err(TransitionError::InvalidIdentities)
            },
        },
    }
}

/// Whether a logged position lies before another. No position lies before
/// every position.
pub open spec fn lsn_before(left: Option<Lsn>, right: Lsn) -> bool {
    match left {
        Some(known) => known.0 < right.0,
        None => true,
    }
}

/// Whether redo must install the new image.
pub open spec fn redo_check(current: Image, before: Image, after: Image, lsn: Lsn) -> Result<
    bool,
    TransitionError,
> {
    match (transition_check(before, after), identity_of(current)) {
        (Err(error), _) => Err(error),
        (Ok(_), Err(error)) => Err(error),
        (Ok(_), Ok(actual)) => if identity_of(before) == Ok::<Identity, TransitionError>(actual) {
            if current.bytes == before.bytes {
                Ok(true)
            } else {
                Err(TransitionError::OldAllocationDiffers)
            }
        } else if identity_of(after) != Ok::<Identity, TransitionError>(actual) {
            Err(TransitionError::UnrelatedAllocation)
        } else if lsn_before(current.lsn, lsn) || (current.lsn == Some(lsn) && current.bytes
            != after.bytes) {
            Err(TransitionError::InvalidNewAllocation)
        } else {
            Ok(false)
        },
    }
}

/// Whether undo must restore the old image.
pub open spec fn undo_check(current: Image, before: Image, after: Image) -> Result<
    bool,
    TransitionError,
> {
    match (transition_check(before, after), identity_of(current)) {
        (Err(error), _) => Err(error),
        (Ok(_), Err(error)) => Err(error),
        (Ok(_), Ok(actual)) => if identity_of(before) == Ok::<Identity, TransitionError>(actual) {
            if current.bytes == before.bytes {
                Ok(false)
            } else {
                Err(TransitionError::UndoneTransitionDiffers)
            }
        } else if identity_of(after) != Ok::<Identity, TransitionError>(actual) {
            Err(TransitionError::UndoUnrelatedAllocation)
        } else {
            Ok(true)
        },
    }
}

/// Whether a page holds the mark of its own retirement.
pub fn retired(page: &Page) -> (marked: bool)
    ensures
        marked == is_retired(page@),
{
    match (page.retired, page.generation, page.owner) {
        (Some(mark), Some(generation), Some(owner)) => mark.page_ref.page_id == page.id
            && mark.page_ref.generation == generation && mark.owner == owner,
        _ => false,
    }
}

/// Which incarnation a page is.
pub fn identity(page: &Page) -> (outcome: Result<Identity, TransitionError>)
    ensures
        outcome == identity_of(page@),
{
    let kind = page.page_type;
    if kind != PageType::BTreeMeta && kind != PageType::BTreeLeaf && kind
        != PageType::BTreeInternal {
        return Err(TransitionError::InvalidNodeType);
    }
    let owner = match page.owner {
        Some(owner) => owner,
        None => {
            return Err(TransitionError::InvalidNodeType);
        },
    };
    let generation = match page.generation {
        Some(generation) => generation,
        None => {
            return Err(TransitionError::InvalidNodeType);
        },
    };
    let valid = if page.retired.is_some() {
        retired(page)
    } else if kind == PageType::BTreeMeta {
        page.meta_readable
    } else {
        page.reads_as(PhysicalType::Bool) || page.reads_as(PhysicalType::Int64) || page.reads_as(
            PhysicalType::UInt64,
        ) || page.reads_as(PhysicalType::Text)
    };
    if valid {
        Ok(Identity { reference: PageRef { page_id: page.id, generation }, owner })
    } else {
        Err(TransitionError::InvalidNodeType)
    }
}

/// Refuses a transition whose incarnations do not follow each other.
pub fn validate(before: &Page, after: &Page) -> (outcome: Result<(), TransitionError>)
    ensures
        outcome == transition_check(before@, after@),
{
    let old = identity(before)?;
    let new = identity(after)?;
    if old.reference.page_id != new.reference.page_id || old.reference.generation.0
        >= new.reference.generation.0 || retired(after) || (!retired(before) && old.owner
        == new.owner) {
        return Err(TransitionError::InvalidIdentities);
    }
    Ok(())
}

/// Whether redo must install the new image. An old incarnation never uses its
/// position in the log to skip the boundary.
pub fn redo(current: &Page, before: &Page, after: &Page, lsn: Lsn) -> (outcome: Result<
    bool,
    TransitionError,
>)
    ensures
        outcome == redo_check(current@, before@, after@, lsn),
{
    validate(before, after)?;
    let actual = identity(current)?;
    let old = identity(before)?;
    if actual == old {
        if !current.same_bytes(before) {
            return Err(TransitionError::OldAllocationDiffers);
        }
        return Ok(true);
    }
    let new = identity(after)?;
    if actual != new {
        return Err(TransitionError::UnrelatedAllocation);
    }
    let stale = match current.lsn {
        Some(known) => known.0 < lsn.0 || (known.0 == lsn.0 && !current.same_bytes(after)),
        None => true,
    };
    if stale {
        return Err(TransitionError::InvalidNewAllocation);
    }
    Ok(false)
}

/// Whether undo must restore the old image. Later changes of the new
/// incarnation are undone before the boundary is crossed.
pub fn undo(current: &Page, before: &Page, after: &Page) -> (outcome: Result<
    bool,
    TransitionError,
>)
    ensures
        outcome == undo_check(current@, before@, after@),
{
    validate(before, after)?;
    let actual = identity(current)?;
    let old = identity(before)?;
    if actual == old {
        if !current.same_bytes(before) {
            return Err(TransitionError::UndoneTransitionDiffers);
        }
        return Ok(false);
    }
    let new = identity(after)?;
    if actual != new {
        return Err(TransitionError::UndoUnrelatedAllocation);
    }
    Ok(true)
}

/// A page crosses the boundary once in each direction: redo installs the new
/// image over the old one and leaves it alone once it is there, and undo
/// restores the old image over the new one and leaves it alone.
pub proof fn law_transition_is_crossed_once(before: Image, after: Image, lsn: Lsn)
    requires
        transition_check(before, after) is Ok,
        after.lsn == Some(lsn),
    ensures
        redo_check(before, before, after, lsn) == Ok::<bool, TransitionError>(true),
        redo_check(after, before, after, lsn) == Ok::<bool, TransitionError>(false),
        undo_check(after, before, after) == Ok::<bool, TransitionError>(true),
        undo_check(before, before, after) == Ok::<bool, TransitionError>(false),
{
}

/// Incarnations only go forward: where one may follow another, the other may
/// not follow it, nor itself.
pub proof fn law_transitions_go_forward(before: Image, after: Image)
    requires
        transition_check(before, after) is Ok,
    ensures
        transition_check(after, before) is Err,
        transition_check(before, before) is Err,
        transition_check(after, after) is Err,
{
}

} // verus!
