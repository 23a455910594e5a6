//! Which pages are incarnations of a B-tree page, which may follow which, and
//! what redo and undo make of any page that they find.
use crate::allocation_transition::{self, Identity, TransitionError};
use crate::ids::{IndexId, Lsn, PageGeneration, PageRef};
use crate::page::{Image, PageType, RetiredBTreePage};
use crate::value::PhysicalType;
use vstd::prelude::*;

verus! {

/// Whether a page is a root record, a leaf or an inner node, and names an owner
/// and a generation.
pub open spec fn names(image: Image, owner: IndexId, generation: PageGeneration) -> bool {
    &&& image.page_type == PageType::BTreeMeta || image.page_type == PageType::BTreeLeaf
        || image.page_type == PageType::BTreeInternal
    &&& image.owner == Some(owner)
    &&& image.generation == Some(generation)
}

/// Whether a page is an incarnation in use: its payload can be decoded, that of a
/// node under some key type.
pub open spec fn in_use(image: Image, owner: IndexId, generation: PageGeneration) -> bool {
    &&& names(image, owner, generation)
    &&& image.retired is None
    &&& if image.page_type == PageType::BTreeMeta {
        image.meta_readable
    } else {
        image.readable_as.len() > 0
    }
}

/// Whether a page is an incarnation that was retired: it bears the mark of this
/// very incarnation.
pub open spec fn given_up(image: Image, owner: IndexId, generation: PageGeneration) -> bool {
    &&& names(image, owner, generation)
    &&& image.retired == Some(
        RetiredBTreePage { owner, page_ref: PageRef { page_id: image.id, generation } },
    )
}

/// Whether a page is an incarnation of a B-tree page.
pub open spec fn incarnation(image: Image, owner: IndexId, generation: PageGeneration) -> bool {
    in_use(image, owner, generation) || given_up(image, owner, generation)
}

/// Whether one incarnation may follow another: a later one of the same page, in
/// use, of another index unless the old one was retired.
pub open spec fn succeeds(
    before: Image,
    old_owner: IndexId,
    old_generation: PageGeneration,
    after: Image,
    new_owner: IndexId,
    new_generation: PageGeneration,
) -> bool {
    &&& incarnation(before, old_owner, old_generation)
    &&& in_use(after, new_owner, new_generation)
    &&& before.id == after.id
    &&& old_generation.0 < new_generation.0
    &&& old_owner != new_owner || given_up(before, old_owner, old_generation)
}

proof fn lemma_readable(image: Image)
    requires
        image.readable_as.len() > 0,
    ensures
        exists|physical: PhysicalType| image.readable_as.contains(physical),
        image.readable_as.contains(PhysicalType::Bool) || image.readable_as.contains(
            PhysicalType::Int64,
        ) || image.readable_as.contains(PhysicalType::UInt64) || image.readable_as.contains(
            PhysicalType::Text,
        ),
{
    let first = image.readable_as[0];
    assert(image.readable_as.contains(first));
}

/// Every root record, leaf and inner node that names an owner and a generation,
/// and whose payload can be decoded or which bears the mark of its retirement,
/// has an identity: its page, its generation and its owner.
pub proof fn law_every_tree_page_has_an_identity(
    image: Image,
    owner: IndexId,
    generation: PageGeneration,
)
    requires
        incarnation(image, owner, generation),
    ensures
        allocation_transition::identity_of(image) == Ok::<Identity, TransitionError>(
            Identity { reference: PageRef { page_id: image.id, generation }, owner },
        ),
        allocation_transition::is_retired(image) <==> given_up(image, owner, generation),
{
    if image.page_type != PageType::BTreeMeta && image.retired is None {
        lemma_readable(image);
    }
}

/// No other page has an identity, and an identity tells what the page names.
pub proof fn law_only_tree_pages_have_an_identity(image: Image)
    ensures
        match allocation_transition::identity_of(image) {
            Ok(found) => found.reference.page_id == image.id && incarnation(
                image,
                found.owner,
                found.reference.generation,
            ),
            Err(error) => {
                &&& error == TransitionError::InvalidNodeType
                &&& forall|owner: IndexId, generation: PageGeneration|
                    !#[trigger] incarnation(image, owner, generation)
            },
        },
{
    assert forall|owner: IndexId, generation: PageGeneration| #[trigger]
        incarnation(image, owner, generation) implies allocation_transition::identity_of(
        image,
    ) is Ok by {
        law_every_tree_page_has_an_identity(image, owner, generation);
    }
    if allocation_transition::identity_of(image) is Ok && image.retired is None && image.page_type
        != PageType::BTreeMeta {
        assert(image.readable_as.len() > 0);
    }
}

/// A transition between two incarnations is accepted exactly where the second
/// may follow the first.
pub proof fn law_transition_between_incarnations(
    before: Image,
    old_owner: IndexId,
    old_generation: PageGeneration,
    after: Image,
    new_owner: IndexId,
    new_generation: PageGeneration,
)
    requires
        incarnation(before, old_owner, old_generation),
        incarnation(after, new_owner, new_generation),
    ensures
        allocation_transition::transition_check(before, after) == if succeeds(
            before,
            old_owner,
            old_generation,
            after,
            new_owner,
            new_generation,
        ) {
            Ok::<(), TransitionError>(())
        } else {
            Err(TransitionError::InvalidIdentities)
        },
{
    law_every_tree_page_has_an_identity(before, old_owner, old_generation);
    law_every_tree_page_has_an_identity(after, new_owner, new_generation);
}

/// A transition from or to a page that is no incarnation is refused, and so is
/// every redo and undo of it.
pub proof fn law_transition_of_other_pages(
    current: Image,
    before: Image,
    after: Image,
    lsn: Lsn,
)
    requires
        (forall|owner: IndexId, generation: PageGeneration|
            !#[trigger] incarnation(before, owner, generation)) || (forall|
            owner: IndexId,
            generation: PageGeneration,
        | !#[trigger] incarnation(after, owner, generation)),
    ensures
        allocation_transition::transition_check(before, after) == Err::<(), TransitionError>(
            TransitionError::InvalidNodeType,
        ),
        allocation_transition::redo_check(current, before, after, lsn) == Err::<
            bool,
            TransitionError,
        >(TransitionError::InvalidNodeType),
        allocation_transition::undo_check(current, before, after) == Err::<bool, TransitionError>(
            TransitionError::InvalidNodeType,
        ),
{
    law_only_tree_pages_have_an_identity(before);
    law_only_tree_pages_have_an_identity(after);
}

/// What redo and undo make of the page that they find. The old incarnation is
/// overwritten by redo and left alone by undo, where it has the old bytes. The
/// new one is left alone by redo, where it is not older than the transition and,
/// if not newer, has the new bytes; and is overwritten by undo. Any other page
/// is refused.
pub proof fn law_redo_and_undo(
    current: Image,
    owner: IndexId,
    generation: PageGeneration,
    before: Image,
    old_owner: IndexId,
    old_generation: PageGeneration,
    after: Image,
    new_owner: IndexId,
    new_generation: PageGeneration,
    lsn: Lsn,
)
    requires
        succeeds(before, old_owner, old_generation, after, new_owner, new_generation),
        incarnation(current, owner, generation),
    ensures
        ({
            let redone = allocation_transition::redo_check(current, before, after, lsn);
            let undone = allocation_transition::undo_check(current, before, after);
            if current.id == before.id && owner == old_owner && generation == old_generation {
                if current.bytes == before.bytes {
                    &&& redone == Ok::<bool, TransitionError>(true)
                    &&& undone == Ok::<bool, TransitionError>(false)
                } else {
                    &&& redone == Err::<bool, TransitionError>(
                        TransitionError::OldAllocationDiffers,
                    )
                    &&& undone == Err::<bool, TransitionError>(
                        TransitionError::UndoneTransitionDiffers,
                    )
                }
            } else if current.id == after.id && owner == new_owner && generation
                == new_generation {
                &&& undone == Ok::<bool, TransitionError>(true)
                &&& redone == match current.lsn {
                    Some(known) => if known.0 > lsn.0 || (known.0 == lsn.0 && current.bytes
                        == after.bytes) {
                        Ok::<bool, TransitionError>(false)
                    } else {
                        Err(TransitionError::InvalidNewAllocation)
                    },
                    None => Err(TransitionError::InvalidNewAllocation),
                }
            } else {
                &&& redone == Err::<bool, TransitionError>(TransitionError::UnrelatedAllocation)
                &&& undone == Err::<bool, TransitionError>(
                    TransitionError::UndoUnrelatedAllocation,
                )
            }
        }),
{
    law_transition_between_incarnations(
        before,
        old_owner,
        old_generation,
        after,
        new_owner,
        new_generation,
    );
    law_every_tree_page_has_an_identity(current, owner, generation);
    law_every_tree_page_has_an_identity(before, old_owner, old_generation);
    law_every_tree_page_has_an_identity(after, new_owner, new_generation);
}

/// A page that is no incarnation is neither redone nor undone over.
pub proof fn law_other_pages_are_left_alone(
    current: Image,
    before: Image,
    after: Image,
    lsn: Lsn,
)
    requires
        forall|owner: IndexId, generation: PageGeneration|
            !#[trigger] incarnation(current, owner, generation),
    ensures
        allocation_transition::redo_check(current, before, after, lsn) is Err,
        allocation_transition::undo_check(current, before, after) is Err,
{
    law_only_tree_pages_have_an_identity(current);
}

} // verus!
