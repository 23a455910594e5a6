//! Incarnations of B-tree pages.
use netbadb_storage::allocation_transition::{identity, redo, retired, undo, validate, TransitionError};
use netbadb_storage::ids::{IndexId, Lsn, PageGeneration, PageId, PageRef};
use netbadb_storage::page::{Page, PageType, RetiredBTreePage};
use netbadb_storage::value::PhysicalType;

fn leaf(generation: u64, owner: u64, count: u64) -> Page {
    Page {
        id: PageId(1),
        page_type: PageType::BTreeLeaf,
        lsn: None,
        generation: Some(PageGeneration(generation)),
        owner: Some(IndexId(owner)),
        retired: None,
        meta_readable: false,
        readable_as: vec![PhysicalType::UInt64],
        bytes: vec![generation as u8, owner as u8, count as u8],
    }
}

fn mark(page: &Page) -> Page {
    let mut marker = page.copy();
    marker.retired = Some(RetiredBTreePage {
        owner: page.owner.expect("owner"),
        page_ref: PageRef { page_id: page.id, generation: page.generation.expect("generation") },
    });
    marker.readable_as = vec![];
    marker.bytes = vec![0xFF, page.bytes[0], page.bytes[1]];
    marker
}

fn set_lsn(page: &mut Page, lsn: u64) {
    page.lsn = Some(Lsn(lsn));
    page.bytes.push(lsn as u8);
}

#[test]
fn retirement_transition_requires_marker_for_same_owner_and_active_destination() {
    let active = leaf(2, 1, 1);
    let marker = mark(&active);
    for owner in [1, 2] {
        let new = leaf(200, owner, 2);
        validate(&marker, &new).unwrap();
        assert!(undo(&new, &marker, &new).unwrap());
        assert!(!undo(&marker, &marker, &new).unwrap());
        assert!(redo(&leaf(300, owner, 2), &marker, &new, Lsn(250)).is_err());
    }
    assert!(validate(&active, &leaf(200, 1, 1)).is_err());
    assert!(validate(&marker, &active).is_err());
    assert!(validate(&active, &marker).is_err());
    assert!(validate(&marker, &marker).is_err());
}

#[test]
fn transition_two_state_redo_undo_is_generation_first() {
    let mut old = leaf(1, 1, 1);
    set_lsn(&mut old, 9999);
    let mut new = leaf(2, 2, 2);
    set_lsn(&mut new, 100);
    assert!(redo(&old, &old, &new, Lsn(100)).unwrap());
    assert!(!redo(&new, &old, &new, Lsn(100)).unwrap());
    assert!(undo(&new, &old, &new).unwrap());
    assert!(!undo(&old, &old, &new).unwrap());
    let third = leaf(3, 3, 0);
    assert!(redo(&third, &old, &new, Lsn(100)).is_err());
    assert!(undo(&third, &old, &new).is_err());
    let mut false_lsn = leaf(2, 2, 2);
    set_lsn(&mut false_lsn, 99);
    assert!(redo(&false_lsn, &old, &new, Lsn(100)).is_err());
}

#[test]
fn every_refusal_names_its_reason() {
    let old = leaf(1, 1, 1);
    let mut new = leaf(2, 2, 2);
    set_lsn(&mut new, 100);
    let mut other_old = leaf(1, 1, 1);
    other_old.bytes.push(1);
    assert_eq!(redo(&other_old, &old, &new, Lsn(100)), Err(TransitionError::OldAllocationDiffers));
    assert_eq!(undo(&other_old, &old, &new), Err(TransitionError::UndoneTransitionDiffers));
    let third = leaf(3, 3, 0);
    assert_eq!(redo(&third, &old, &new, Lsn(100)), Err(TransitionError::UnrelatedAllocation));
    assert_eq!(undo(&third, &old, &new), Err(TransitionError::UndoUnrelatedAllocation));
    let mut changed = new.copy();
    changed.bytes.push(7);
    assert_eq!(redo(&changed, &old, &new, Lsn(100)), Err(TransitionError::InvalidNewAllocation));
    changed.lsn = Some(Lsn(101));
    assert_eq!(redo(&changed, &old, &new, Lsn(100)), Ok(false));
    changed.lsn = None;
    assert_eq!(redo(&changed, &old, &new, Lsn(100)), Err(TransitionError::InvalidNewAllocation));
    assert_eq!(validate(&new, &old), Err(TransitionError::InvalidIdentities));
    let mut elsewhere = new.copy();
    elsewhere.id = PageId(2);
    assert_eq!(validate(&old, &elsewhere), Err(TransitionError::InvalidIdentities));
    let mut heap = old.copy();
    heap.page_type = PageType::Heap;
    assert_eq!(validate(&heap, &new), Err(TransitionError::InvalidNodeType));
    assert_eq!(
        TransitionError::InvalidIdentities.message(),
        "invalid BTree allocation transition identities"
    );
    assert_eq!(
        TransitionError::UndoUnrelatedAllocation.message(),
        "transition undo encountered unrelated allocation"
    );
}

#[test]
fn pages_without_a_decodable_incarnation_have_no_identity() {
    let page = leaf(5, 6, 1);
    let known = identity(&page).expect("identity");
    assert_eq!(known.owner, IndexId(6));
    assert_eq!(
        known.reference,
        PageRef { page_id: PageId(1), generation: PageGeneration(5) }
    );
    let mut legacy = page.copy();
    legacy.generation = None;
    assert_eq!(identity(&legacy), Err(TransitionError::InvalidNodeType));
    let mut raw = page.copy();
    raw.owner = None;
    assert_eq!(identity(&raw), Err(TransitionError::InvalidNodeType));
    let mut broken = page.copy();
    broken.readable_as = vec![];
    assert_eq!(identity(&broken), Err(TransitionError::InvalidNodeType));
    let mut meta = page.copy();
    meta.page_type = PageType::BTreeMeta;
    assert_eq!(identity(&meta), Err(TransitionError::InvalidNodeType));
    meta.meta_readable = true;
    assert_eq!(identity(&meta).expect("meta"), known);
    let marker = mark(&page);
    assert!(retired(&marker) && !retired(&page));
    assert_eq!(identity(&marker).expect("marker"), known);
    let mut wrong_id = mark(&page);
    wrong_id.id = PageId(2);
    assert_eq!(identity(&wrong_id), Err(TransitionError::InvalidNodeType));
}
