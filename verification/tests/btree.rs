//! The B+Tree index over pages in memory.
use netbadb_storage::btree::change::PageChange;
use netbadb_storage::btree::key::{
    compare_entry_keys, compare_row_ids, ensure_entry_fits, size_of_entry, size_of_node,
};
use netbadb_storage::btree::node::{InternalNode, InternalSeparator, LeafNode, MetaNode};
use netbadb_storage::btree::publish::{Publication, PublishAction, PublishError, PublishEvent};
use netbadb_storage::btree::{
    BTree, BTreeHandle, IndexEntry, IndexError, IndexSpec, TreePage,
};
use netbadb_storage::ids::{Lsn, PageId, RowId};
use netbadb_storage::value::{Ordered, PhysicalType, Scalar, ScalarValue};
use std::collections::BTreeMap;

const CAPACITY: u32 = 4_000;

fn row_id(value: u64) -> RowId {
    RowId {
        page: PageId(value / 64 + 1),
        slot: (value % 64) as u16,
        generation: (value % 17 + 1) as u32,
    }
}

fn physical(physical: PhysicalType, nullable: bool) -> IndexSpec {
    IndexSpec { physical, nominal: None, nullable }
}

fn text_spec() -> IndexSpec {
    physical(PhysicalType::Text, false)
}

fn text(value: &str) -> ScalarValue {
    Scalar::Text(String::from(value))
}

fn split_key(ordinal: usize) -> ScalarValue {
    Scalar::Text(format!("{ordinal:04}-{}", "x".repeat(180)))
}

fn split_trigger_ordinal() -> usize {
    let spec = text_spec();
    let mut leaf = LeafNode::empty();
    for ordinal in 0..1_000_usize {
        leaf.insert(&spec, IndexEntry { key: split_key(ordinal), row_id: row_id(ordinal as u64) })
            .expect("build split boundary");
        if leaf.size() > CAPACITY as u64 {
            return ordinal;
        }
    }
    panic!("fixed-width test keys did not reach a leaf split")
}

fn prepare_split_baseline() -> (BTree, BTreeHandle, usize) {
    let mut tree = BTree::new(CAPACITY);
    let handle = tree.create(text_spec()).expect("create tree");
    let trigger = split_trigger_ordinal();
    for ordinal in 0..trigger {
        tree.insert(handle, split_key(ordinal), row_id(ordinal as u64))
            .expect("prepare full root leaf");
    }
    assert_eq!(tree.read_meta(handle).expect("meta").height, 1);
    (tree, handle, trigger)
}

fn copy_page(page: &TreePage) -> TreePage {
    match page {
        TreePage::Other => TreePage::Other,
        TreePage::Meta(meta) => TreePage::Meta(meta.copy()),
        TreePage::Leaf(leaf) => TreePage::Leaf(leaf.copy()),
        TreePage::Internal(node) => TreePage::Internal(node.copy()),
    }
}

/// The file as it is found again after it was closed.
fn reopened(tree: &BTree) -> BTree {
    BTree { pages: tree.pages.iter().map(copy_page).collect(), capacity: tree.capacity }
}

/// Checks every node of a tree from the outside and returns its entries in
/// order.
fn entries_in_order(tree: &BTree, handle: BTreeHandle) -> Vec<IndexEntry> {
    let meta = tree.read_meta(handle).expect("meta");
    let mut page = meta.root_page;
    for _ in 1..meta.height {
        page = tree.read_internal(page).expect("internal").first_child;
    }
    let mut entries: Vec<IndexEntry> = Vec::new();
    let mut next = Some(page);
    while let Some(page) = next {
        let leaf = tree.read_leaf(page).expect("leaf");
        assert!(leaf.size() <= tree.capacity as u64);
        next = leaf.next_leaf;
        entries.extend(leaf.entries);
    }
    for pair in entries.windows(2) {
        assert_eq!(compare_entry_keys(&pair[0], &pair[1]), Ordered::Before);
    }
    entries
}

#[test]
fn capacity_one_tree_grows_to_arbitrary_height_and_reopens_after_checkpoint() {
    let mut tree = BTree::new(CAPACITY);
    let handle = tree.create(text_spec()).expect("create tree");
    let mut expected = BTreeMap::<String, Vec<RowId>>::new();
    for ordinal in 0..420_u64 {
        let key = format!("{:04}-{}", (ordinal * 73) % 420, "x".repeat(180));
        let row = row_id(ordinal);
        tree.insert(handle, text(&key), row).expect("insert entry");
        expected.entry(key).or_default().push(row);
    }
    let meta = tree.read_meta(handle).expect("read meta");
    assert!(meta.height >= 3, "expected an internal split");
    for (key, rows) in &expected {
        assert_eq!(tree.lookup(handle, &text(key)).expect("lookup"), *rows);
    }
    let again = reopened(&tree);
    assert_eq!(again.spec(handle).expect("persisted spec"), text_spec());
    for (key, rows) in &expected {
        assert_eq!(again.lookup(handle, &text(key)).expect("lookup reopened"), *rows);
    }
    assert_eq!(entries_in_order(&again, handle).len(), 420);
}

#[test]
fn duplicate_nullable_and_typed_keys_lookup_in_deterministic_row_id_order() {
    let mut tree = BTree::new(CAPACITY);
    let spec = IndexSpec {
        physical: PhysicalType::UInt64,
        nominal: Some(String::from("UserId")),
        nullable: true,
    };
    let handle = tree.create(spec).expect("create tree");
    let mut expected = Vec::new();
    for ordinal in (0..240_u64).rev() {
        let row = row_id(ordinal);
        tree.insert(handle, Scalar::UInt64(42), row).expect("insert duplicate");
        expected.push(row);
    }
    expected.sort_by(|left, right| match compare_row_ids(*left, *right) {
        Ordered::Before => std::cmp::Ordering::Less,
        Ordered::Same => std::cmp::Ordering::Equal,
        Ordered::After => std::cmp::Ordering::Greater,
    });
    assert_eq!(tree.lookup(handle, &Scalar::UInt64(42)).expect("lookup duplicates"), expected);
    let null_a = row_id(500);
    let null_b = row_id(501);
    tree.insert(handle, Scalar::Null, null_b).expect("insert NULL");
    tree.insert(handle, Scalar::Null, null_a).expect("insert NULL");
    assert_eq!(tree.lookup(handle, &Scalar::Null).expect("lookup NULL"), vec![null_a, null_b]);
    assert!(tree
        .contains_exact(handle, &Scalar::UInt64(42), expected[0])
        .expect("contains exact duplicate"));
    assert!(!tree
        .contains_exact(handle, &Scalar::UInt64(42), null_a)
        .expect("reject mismatched exact identity"));
    assert_eq!(
        tree.insert(handle, Scalar::UInt64(42), expected[0]),
        Err(IndexError::DuplicateEntry)
    );
    assert_eq!(tree.spec(handle).expect("spec").nominal, Some(String::from("UserId")));
}

#[test]
fn exact_delete_preserves_duplicates_and_not_found_keeps_transaction_active() {
    let mut tree = BTree::new(CAPACITY);
    let handle = tree.create(physical(PhysicalType::UInt64, true)).expect("create tree");
    let rows = [row_id(1), row_id(2), row_id(3)];
    for row in rows {
        tree.insert(handle, Scalar::UInt64(42), row).expect("insert duplicate");
    }
    tree.delete(handle, Scalar::UInt64(42), rows[1]).expect("delete exact duplicate");
    assert_eq!(
        tree.lookup(handle, &Scalar::UInt64(42)).expect("lookup duplicates"),
        vec![rows[0], rows[2]]
    );
    let before = reopened(&tree);
    assert_eq!(
        tree.delete_in(handle, Scalar::UInt64(42), rows[1]).expect_err("second exact delete"),
        IndexError::EntryNotFound
    );
    assert_eq!(
        tree.delete(handle, Scalar::UInt64(42), rows[1]),
        Err(IndexError::EntryNotFound)
    );
    assert_eq!(tree.pages, before.pages);
    tree.insert(handle, Scalar::Null, row_id(10)).expect("still writable");
    let again = reopened(&tree);
    assert_eq!(
        again.lookup(handle, &Scalar::UInt64(42)).expect("lookup reopened"),
        vec![rows[0], rows[2]]
    );
    assert_eq!(again.lookup(handle, &Scalar::Null).expect("lookup NULL"), vec![row_id(10)]);
}

#[test]
fn exact_delete_handles_duplicate_key_entries_across_leaf_boundaries() {
    let mut tree = BTree::new(CAPACITY);
    let handle = tree.create(physical(PhysicalType::UInt64, false)).expect("create tree");
    let mut expected = (0..240_u64).map(row_id).collect::<Vec<_>>();
    for row in expected.iter().rev().copied() {
        tree.insert(handle, Scalar::UInt64(42), row).expect("insert duplicate");
    }
    assert!(tree.read_meta(handle).expect("meta").height > 1);
    for ordinal in [0_usize, 119, 239] {
        let removed = row_id(ordinal as u64);
        tree.delete(handle, Scalar::UInt64(42), removed).expect("delete boundary duplicate");
        expected.retain(|row| *row != removed);
        assert_eq!(tree.lookup(handle, &Scalar::UInt64(42)).expect("lookup duplicates"), expected);
    }
}

#[test]
fn delete_validates_signed_text_null_type_and_row_id_before_wal() {
    for (spec, key) in [
        (physical(PhysicalType::Int64, false), Scalar::Int64(-42)),
        (text_spec(), text("键")),
        (physical(PhysicalType::UInt64, true), Scalar::Null),
    ] {
        let mut tree = BTree::new(CAPACITY);
        let handle = tree.create(spec).expect("create tree");
        let row = row_id(7);
        tree.insert(handle, key.clone(), row).expect("insert typed key");
        tree.delete(handle, key.clone(), row).expect("delete typed key");
        assert!(tree.lookup(handle, &key).expect("lookup").is_empty());
    }
    let mut tree = BTree::new(CAPACITY);
    let handle = tree.create(physical(PhysicalType::UInt64, false)).expect("create tree");
    let zero_page = RowId { page: PageId(0), slot: 0, generation: 1 };
    let zero_generation = RowId { page: PageId(1), slot: 0, generation: 0 };
    for (key, row, error) in [
        (Scalar::Null, row_id(1), IndexError::NullNotAllowed),
        (Scalar::Int64(1), row_id(1), IndexError::TypeMismatch { expected: PhysicalType::UInt64 }),
        (Scalar::UInt64(1), zero_page, IndexError::InvalidRowId),
        (Scalar::UInt64(1), zero_generation, IndexError::InvalidRowId),
    ] {
        let before = reopened(&tree);
        assert_eq!(tree.delete_in(handle, key.clone(), row).expect_err("refused"), error);
        assert_eq!(tree.delete(handle, key, row), Err(error));
        assert_eq!(tree.pages, before.pages);
    }
}

#[test]
fn deterministic_insert_delete_sequence_matches_reference_map() {
    let mut tree = BTree::new(CAPACITY);
    let handle = tree.create(physical(PhysicalType::UInt64, false)).expect("create tree");
    let mut expected = BTreeMap::<u64, Vec<RowId>>::new();
    for ordinal in 0..320_u64 {
        let key = (ordinal * 37) % 23;
        let row = row_id(ordinal);
        tree.insert(handle, Scalar::UInt64(key), row).expect("insert reference entry");
        expected.entry(key).or_default().push(row);
    }
    for ordinal in (0..320_u64).step_by(3) {
        let key = (ordinal * 37) % 23;
        let row = row_id(ordinal);
        tree.delete(handle, Scalar::UInt64(key), row).expect("delete reference entry");
        expected.get_mut(&key).expect("reference key").retain(|candidate| *candidate != row);
    }
    for ordinal in 320..400_u64 {
        let key = (ordinal * 19) % 23;
        let row = row_id(ordinal);
        tree.insert(handle, Scalar::UInt64(key), row).expect("reinsert reference entry");
        expected.entry(key).or_default().push(row);
    }
    for rows in expected.values_mut() {
        rows.sort_by_key(|row| (row.page.0, row.slot, row.generation));
    }
    for key in 0..23_u64 {
        assert_eq!(
            tree.lookup(handle, &Scalar::UInt64(key)).expect("reference lookup"),
            expected.get(&key).cloned().unwrap_or_default()
        );
    }
}

#[test]
fn root_leaf_delete_can_empty_tree_and_rollback_restores_entry() {
    let mut tree = BTree::new(CAPACITY);
    let handle = tree.create(text_spec()).expect("create tree");
    let original_root = tree.read_meta(handle).expect("meta").root_page;
    let row = row_id(1);
    tree.insert(handle, text("only"), row).expect("insert only entry");
    let before = reopened(&tree);
    tree.delete(handle, text("only"), row).expect("delete only entry");
    assert!(tree.lookup(handle, &text("only")).expect("empty lookup").is_empty());
    let mut tree = before;
    assert_eq!(tree.lookup(handle, &text("only")).expect("restored lookup"), vec![row]);
    tree.delete(handle, text("only"), row).expect("commit delete");
    let meta = tree.read_meta(handle).expect("empty meta");
    assert_eq!(meta.height, 1);
    assert_eq!(meta.root_page, original_root);
    assert!(tree.read_leaf(meta.root_page).expect("root leaf").entries.is_empty());
}

#[test]
fn heavy_delete_merges_collapses_root_and_allows_regrowth() {
    let mut tree = BTree::new(CAPACITY);
    let handle = tree.create(text_spec()).expect("create tree");
    let count = 420_u64;
    for ordinal in 0..count {
        tree.insert(handle, split_key(ordinal as usize), row_id(ordinal)).expect("grow tree");
    }
    assert!(tree.read_meta(handle).expect("meta").height >= 3);
    let old_page_count = tree.page_count();
    for ordinal in 0..count {
        tree.delete(handle, split_key(ordinal as usize), row_id(ordinal)).expect("shrink tree");
        if ordinal % 37 == 0 && ordinal + 1 < count {
            assert_eq!(
                tree.lookup(handle, &split_key((ordinal + 1) as usize)).expect("lookup survivor"),
                vec![row_id(ordinal + 1)]
            );
        }
    }
    let meta = tree.read_meta(handle).expect("collapsed meta");
    assert_eq!(meta.height, 1);
    assert!(tree.read_leaf(meta.root_page).expect("root").entries.is_empty());
    assert_eq!(tree.page_count(), old_page_count);
    tree.insert(handle, text("regrown"), row_id(999)).expect("regrow tree");
    assert_eq!(tree.lookup(handle, &text("regrown")).expect("lookup"), vec![row_id(999)]);
    let again = reopened(&tree);
    assert_eq!(again.lookup(handle, &text("regrown")).expect("lookup"), vec![row_id(999)]);
}

#[test]
fn deleting_live_separator_entry_keeps_persistent_fence_for_future_routing() {
    let (mut tree, handle, trigger) = prepare_split_baseline();
    tree.insert(handle, split_key(trigger), row_id(trigger as u64)).expect("split root leaf");
    for ordinal in trigger + 1..trigger + 8 {
        tree.insert(handle, split_key(ordinal), row_id(ordinal as u64)).expect("fill right leaf");
    }
    let meta = tree.read_meta(handle).expect("meta");
    let root_before = tree.read_internal(meta.root_page).expect("root");
    let fence = root_before.separators[0].key.clone();
    tree.delete(handle, fence.key.clone(), fence.row_id).expect("delete fence entry");
    let root_after = tree.read_internal(meta.root_page).expect("root");
    assert_eq!(root_after, root_before, "delete must not rewrite the fence");
    assert!(tree
        .lookup(handle, &fence.key)
        .expect("lookup deleted fence")
        .iter()
        .all(|row| *row != fence.row_id));
    let Scalar::Text(old_fence) = &fence.key else {
        panic!("text split must produce a text fence");
    };
    let between = Scalar::Text(format!("{old_fence}\0"));
    let between_row = row_id(10_000);
    tree.insert(handle, between.clone(), between_row).expect("insert behind fence");
    assert_eq!(tree.lookup(handle, &between).expect("lookup"), vec![between_row]);
}

#[test]
fn invalid_handle_and_key_fail_before_mutating_tree() {
    let mut tree = BTree::new(CAPACITY);
    let handle = tree.create(physical(PhysicalType::UInt64, false)).expect("create tree");
    assert_eq!(
        tree.lookup(BTreeHandle { meta_page: PageId(0) }, &Scalar::UInt64(1)),
        Err(IndexError::InvalidChild(PageId(0)))
    );
    assert_eq!(
        tree.insert(handle, Scalar::Null, row_id(1)),
        Err(IndexError::NullNotAllowed)
    );
    assert!(matches!(
        tree.insert(handle, Scalar::Int64(1), row_id(1)),
        Err(IndexError::TypeMismatch { .. })
    ));
    assert!(tree.lookup(handle, &Scalar::UInt64(1)).expect("empty lookup").is_empty());
}

/// Carries out what a publication asks for, with one failing step.
fn publish(changes: &[PageChange], fail_at: usize) -> (Publication, Result<(), PublishError>) {
    let mut publication = Publication::start(changes);
    let mut step = 0_usize;
    loop {
        let event = match publication.action() {
            PublishAction::Finished | PublishAction::Stopped => return (publication, Ok(())),
            _ if step == fail_at => PublishEvent::Failed,
            PublishAction::Log(place) => PublishEvent::Logged(Lsn(100 + place as u64)),
            PublishAction::Flush(lsn) => {
                assert_eq!(lsn, Lsn(100 + changes.len() as u64 - 1));
                PublishEvent::Flushed
            }
            PublishAction::Add(place) => {
                assert!(changes[place].new_page);
                PublishEvent::Added(changes[place].page_id)
            }
            PublishAction::Rewrite(place) => {
                assert!(!changes[place].new_page);
                PublishEvent::Rewritten
            }
        };
        step += 1;
        if let Err(error) = publication.next(event) {
            return (publication, Err(error));
        }
    }
}

#[test]
fn merge_log_failure_requires_rollback_and_restores_root() {
    let (mut tree, handle, trigger) = prepare_split_baseline();
    tree.insert(handle, split_key(trigger), row_id(trigger as u64)).expect("split root leaf");
    let before = tree.read_meta(handle).expect("meta");
    assert_eq!(before.height, 2);
    let page_count = tree.page_count();
    let removal =
        tree.delete_in(handle, split_key(trigger), row_id(trigger as u64)).expect("plan merge");
    let changes = removal.changes;
    assert_eq!(removal.retired.len(), 2);
    assert!(changes.len() >= 2);
    let (publication, outcome) = publish(&changes, 1);
    assert_eq!(outcome, Err(PublishError::ActionFailed));
    assert!(publication.rollback_required());
    assert_eq!(publication.action(), PublishAction::Stopped);
    assert_eq!(tree.page_count(), page_count);
    assert_eq!(tree.read_meta(handle).expect("meta"), before);
    assert_eq!(
        tree.lookup(handle, &split_key(trigger)).expect("lookup"),
        vec![row_id(trigger as u64)]
    );
    tree.delete(handle, split_key(trigger), row_id(trigger as u64)).expect("merge");
    assert_eq!(tree.read_meta(handle).expect("meta").height, 1);
}

#[test]
fn create_partial_log_failure_requires_rollback_and_restores_page_count() {
    let tree = BTree::new(CAPACITY);
    let baseline = tree.page_count();
    let changes = tree.create_in(text_spec()).expect("plan create");
    let (publication, outcome) = publish(&changes, 1);
    assert_eq!(outcome, Err(PublishError::ActionFailed));
    assert!(publication.rollback_required());
    assert_eq!(tree.page_count(), baseline);
    let (publication, outcome) = publish(&changes, 0);
    assert_eq!(outcome, Err(PublishError::ActionFailed));
    assert!(!publication.rollback_required());
}

#[test]
fn split_partial_log_allocation_and_publication_failures_roll_back_exactly() {
    let (tree, handle, trigger) = prepare_split_baseline();
    let changes =
        tree.insert_in(handle, split_key(trigger), row_id(trigger as u64)).expect("plan split");
    // Four logged pages, one flush, two new pages and two rewritten ones.
    assert_eq!(changes.len(), 4);
    assert_eq!(changes.iter().filter(|change| change.new_page).count(), 2);
    for fail_at in 1..9 {
        let (publication, outcome) = publish(&changes, fail_at);
        assert_eq!(outcome, Err(PublishError::ActionFailed));
        assert!(publication.rollback_required());
        assert!(tree.lookup(handle, &split_key(trigger)).expect("lookup").is_empty());
        assert_eq!(tree.read_meta(handle).expect("meta").height, 1);
        assert_eq!(
            tree.lookup(handle, &split_key(trigger - 1)).expect("lookup"),
            vec![row_id((trigger - 1) as u64)]
        );
    }
    let (publication, outcome) = publish(&changes, 9);
    assert_eq!(outcome, Ok(()));
    assert_eq!(publication.action(), PublishAction::Finished);
    assert!(!publication.rollback_required());
}

#[test]
fn publication_refuses_another_page_and_an_unexpected_event() {
    let tree = BTree::new(CAPACITY);
    let changes = tree.create_in(text_spec()).expect("plan create");
    let mut publication = Publication::start(&changes);
    assert_eq!(publication.next(PublishEvent::Flushed), Err(PublishError::UnexpectedEvent));
    assert_eq!(publication.action(), PublishAction::Log(0));
    publication.next(PublishEvent::Logged(Lsn(7))).expect("first log");
    publication.next(PublishEvent::Logged(Lsn(8))).expect("second log");
    assert_eq!(publication.action(), PublishAction::Flush(Lsn(8)));
    publication.next(PublishEvent::Flushed).expect("flush");
    assert_eq!(publication.action(), PublishAction::Add(0));
    assert_eq!(
        publication.next(PublishEvent::Added(PageId(9))),
        Err(PublishError::InvalidChild(PageId(9)))
    );
    assert!(publication.rollback_required());
    let nothing: Vec<PageChange> = Vec::new();
    assert_eq!(Publication::start(&nothing).action(), PublishAction::Finished);
}

#[test]
fn heap_and_btree_pages_coexist_and_heap_appends_after_index_pages() {
    let mut tree = BTree::new(CAPACITY);
    tree.pages.push(TreePage::Other);
    tree.pages.push(TreePage::Other);
    let handle = tree.create(physical(PhysicalType::UInt64, false)).expect("create mixed tree");
    assert_eq!(handle.meta_page, PageId(3));
    tree.pages.push(TreePage::Other);
    let heap_rows: Vec<RowId> = (0..300_u64)
        .map(|ordinal| RowId {
            page: if ordinal < 200 { PageId(2) } else { PageId(5) },
            slot: ordinal as u16,
            generation: 1,
        })
        .collect();
    for (ordinal, row) in heap_rows.iter().copied().enumerate() {
        tree.insert(handle, Scalar::UInt64(ordinal as u64), row).expect("index heap row");
    }
    assert!(tree.page_count() > 6, "tree should split after the heap page");
    assert_eq!(
        tree.lookup(handle, &Scalar::UInt64(0)).expect("lookup mixed tree"),
        vec![heap_rows[0]]
    );
    for page in [0_usize, 1, 2, 5] {
        assert_eq!(tree.pages[page], TreePage::Other);
    }
    assert_eq!(
        tree.lookup(BTreeHandle { meta_page: PageId(2) }, &Scalar::UInt64(0)),
        Err(IndexError::InvalidNodeType)
    );
}

#[test]
fn traversal_rejects_an_unselected_out_of_range_internal_child() {
    let (mut tree, handle, trigger) = prepare_split_baseline();
    tree.insert(handle, split_key(trigger), row_id(trigger as u64)).expect("split root leaf");
    let meta = tree.read_meta(handle).expect("read metadata");
    let mut root = tree.read_internal(meta.root_page).expect("read root");
    let invalid_child = PageId(tree.page_count() + 10);
    root.separators.last_mut().expect("split root separator").right_child = invalid_child;
    tree.pages[meta.root_page.0 as usize] = TreePage::Internal(root);
    assert_eq!(
        tree.lookup(handle, &split_key(0)),
        Err(IndexError::InvalidChild(invalid_child))
    );
}

#[test]
fn lookup_rejects_non_increasing_and_empty_next_leaves() {
    for corruption in ["non-increasing", "empty"] {
        let (mut tree, handle, trigger) = prepare_split_baseline();
        tree.insert(handle, split_key(trigger), row_id(trigger as u64)).expect("split root leaf");
        let meta = tree.read_meta(handle).expect("read metadata");
        let root = tree.read_internal(meta.root_page).expect("read root");
        let left_page = root.first_child;
        let right_page = root.separators.first().expect("split root separator").right_child;
        let left = tree.read_leaf(left_page).expect("read left leaf");
        let right = tree.read_leaf(right_page).expect("read right leaf");
        let left_last = left.entries.last().cloned().expect("non-empty left leaf");
        let corrupt_right = LeafNode {
            entries: if corruption == "empty" { vec![] } else { vec![left_last.clone()] },
            next_leaf: right.next_leaf,
        };
        tree.pages[right_page.0 as usize] = TreePage::Leaf(corrupt_right);
        let error = tree.lookup(handle, &left_last.key).expect_err("corrupt leaf chain");
        if corruption == "empty" {
            assert_eq!(error, IndexError::EmptyLeaf { page_id: right_page });
        } else {
            assert_eq!(error, IndexError::LeafChainOrder { left_page, right_page });
        }
    }
}

#[test]
fn lookup_rejects_a_leaf_chain_that_comes_back() {
    let mut tree = BTree::new(CAPACITY);
    let handle = tree.create(physical(PhysicalType::UInt64, false)).expect("create tree");
    let root = tree.read_meta(handle).expect("meta").root_page;
    tree.insert(handle, Scalar::UInt64(1), row_id(1)).expect("insert");
    let mut leaf = tree.read_leaf(root).expect("leaf");
    leaf.next_leaf = Some(root);
    tree.pages[root.0 as usize] = TreePage::Leaf(leaf);
    assert_eq!(
        tree.lookup(handle, &Scalar::UInt64(1)),
        Err(IndexError::LeafChainCycle { page_id: root })
    );
}

#[test]
fn damaged_root_records_and_links_are_refused() {
    let (mut tree, handle, trigger) = prepare_split_baseline();
    tree.insert(handle, split_key(trigger), row_id(trigger as u64)).expect("split root leaf");
    let meta = tree.read_meta(handle).expect("meta");
    let count = tree.page_count();
    let root = tree.read_internal(meta.root_page).expect("root");
    let left_page = root.first_child;
    let right_page = root.separators[0].right_child;
    // A link that leads elsewhere is met when the leaves are joined.
    let mut left = tree.read_leaf(left_page).expect("left");
    left.next_leaf = None;
    tree.pages[left_page.0 as usize] = TreePage::Leaf(left);
    assert_eq!(
        tree.delete(handle, split_key(trigger), row_id(trigger as u64)),
        Err(IndexError::InvalidLeafLink {
            left_page,
            expected_right: right_page,
            actual_right: None,
        })
    );
    for height in [0_u16, count as u16] {
        tree.pages[handle.meta_page.0 as usize] =
            TreePage::Meta(MetaNode { root_page: meta.root_page, height, spec: text_spec() });
        assert_eq!(
            tree.lookup(handle, &split_key(0)),
            Err(IndexError::InvalidHeight(height))
        );
    }
    tree.pages[handle.meta_page.0 as usize] =
        TreePage::Meta(MetaNode { root_page: PageId(count), height: 1, spec: text_spec() });
    assert_eq!(tree.spec(handle), Err(IndexError::InvalidChild(PageId(count))));
    tree.pages[handle.meta_page.0 as usize] =
        TreePage::Meta(MetaNode { root_page: left_page, height: 2, spec: text_spec() });
    assert_eq!(tree.lookup(handle, &split_key(0)), Err(IndexError::InvalidNodeType));
}

#[test]
fn sizes_are_counted_and_large_entries_refused() {
    let short = IndexEntry { key: text("abc"), row_id: row_id(1) };
    assert_eq!(size_of_entry(&short), 5 + 3 + 22);
    assert_eq!(size_of_entry(&IndexEntry { key: Scalar::Null, row_id: row_id(1) }), 23);
    assert_eq!(size_of_entry(&IndexEntry { key: Scalar::Bool(true), row_id: row_id(1) }), 24);
    assert_eq!(size_of_entry(&IndexEntry { key: Scalar::Int64(-1), row_id: row_id(1) }), 31);
    assert_eq!(size_of_node(&[short.clone(), short.clone()]), 16 + 60);
    let spec = text_spec();
    assert_eq!(ensure_entry_fits(&spec, &short, 106), Ok(()));
    assert_eq!(
        ensure_entry_fits(&spec, &short, 105),
        Err(IndexError::NodeTooLarge { size: 106, capacity: 105 })
    );
    let mut tree = BTree::new(105);
    let handle = tree.create(text_spec()).expect("create");
    assert_eq!(
        tree.insert(handle, text("abc"), row_id(1)),
        Err(IndexError::NodeTooLarge { size: 106, capacity: 105 })
    );
    let mut small = BTree::new(15);
    assert_eq!(
        small.create(text_spec()),
        Err(IndexError::NodeTooLarge { size: 16, capacity: 15 })
    );
}

#[test]
fn entries_order_by_key_and_then_by_row() {
    let at = |page: u64, slot: u16, generation: u32| RowId {
        page: PageId(page),
        slot,
        generation,
    };
    assert_eq!(compare_row_ids(at(1, 9, 9), at(2, 0, 0)), Ordered::Before);
    assert_eq!(compare_row_ids(at(1, 1, 9), at(1, 2, 0)), Ordered::Before);
    assert_eq!(compare_row_ids(at(1, 1, 2), at(1, 1, 1)), Ordered::After);
    assert_eq!(compare_row_ids(at(1, 1, 1), at(1, 1, 1)), Ordered::Same);
    let entry = |key: &str, row: RowId| IndexEntry { key: text(key), row_id: row };
    assert_eq!(compare_entry_keys(&entry("a", at(9, 9, 9)), &entry("b", at(1, 1, 1))), Ordered::Before);
    assert_eq!(compare_entry_keys(&entry("a", at(1, 1, 1)), &entry("a", at(1, 1, 2))), Ordered::Before);
    assert_eq!(compare_entry_keys(&entry("é", at(1, 1, 1)), &entry("z", at(1, 1, 1))), Ordered::After);
}

#[test]
fn nodes_are_parted_in_the_middle_and_joined_again() {
    let spec = physical(PhysicalType::UInt64, false);
    let mut leaf = LeafNode::empty();
    for value in 0..7_u64 {
        leaf.insert(&spec, IndexEntry { key: Scalar::UInt64(value), row_id: row_id(value) })
            .expect("insert");
    }
    leaf.next_leaf = Some(PageId(77));
    let (left, right, fence) =
        netbadb_storage::btree::node::split_leaf(&leaf, PageId(50), 200).expect("split");
    assert_eq!(left.entries.len(), 4);
    assert_eq!(right.entries.len(), 3);
    assert_eq!(fence, right.entries[0]);
    assert_eq!(left.next_leaf, Some(PageId(50)));
    assert_eq!(right.next_leaf, Some(PageId(77)));
    let merged = netbadb_storage::btree::node::merge_leaves_if_fits(&left, &right, 233);
    assert_eq!(merged, Some(leaf));
    assert_eq!(netbadb_storage::btree::node::merge_leaves_if_fits(&left, &right, 232), None);
    let node = InternalNode {
        first_child: PageId(1),
        separators: right
            .entries
            .iter()
            .enumerate()
            .map(|(place, entry)| netbadb_storage::btree::node::InternalSeparator {
                key: entry.clone(),
                right_child: PageId(10 + place as u64),
            })
            .collect(),
    };
    let (below, moved, above) =
        netbadb_storage::btree::internal::split_internal(&node, 60).expect("split");
    assert_eq!(below.separators.len(), 1);
    assert_eq!(moved, right.entries[1]);
    assert_eq!(above.first_child, PageId(11));
    assert_eq!(above.separators.len(), 1);
    assert_eq!(
        netbadb_storage::btree::internal::merge_internals_if_fits(&below, &moved, &above, 200),
        Some(node)
    );
}

#[test]
fn random_mutations_keep_small_pages_ordered() {
    let mut tree = BTree::new(150);
    let handle = tree.create(physical(PhysicalType::UInt64, false)).expect("create");
    let mut expected: Vec<u64> = Vec::new();
    let mut seed = 12_345_u64;
    for step in 0..3_000_u64 {
        seed = seed.wrapping_mul(6_364_136_223_846_793_005).wrapping_add(1_442_695_040_888_963_407);
        let value = (seed >> 33) % 200;
        let grows = step < 1_500 || (seed >> 20) % 3 == 0;
        if grows {
            let outcome = tree.insert(handle, Scalar::UInt64(value), row_id(value));
            if expected.contains(&value) {
                assert_eq!(outcome, Err(IndexError::DuplicateEntry));
            } else {
                assert_eq!(outcome, Ok(()));
                expected.push(value);
            }
        } else {
            let outcome = tree.delete(handle, Scalar::UInt64(value), row_id(value));
            if expected.contains(&value) {
                if outcome == Ok(()) {
                    expected.retain(|other| *other != value);
                } else {
                    // Only a node that lost its last separator is in the way.
                    assert_eq!(outcome, Err(IndexError::InvalidNodeType));
                }
            } else {
                assert_eq!(outcome, Err(IndexError::EntryNotFound));
            }
        }
        if step % 97 == 0 {
            let mut sorted = expected.clone();
            sorted.sort();
            let found: Vec<ScalarValue> =
                entries_in_order(&tree, handle).into_iter().map(|entry| entry.key).collect();
            assert_eq!(found, sorted.iter().map(|value| Scalar::UInt64(*value)).collect::<Vec<_>>());
        }
    }
}

/// The pages of a tree, its root record left out.
fn pages_of(tree: &BTree, handle: BTreeHandle) -> Vec<PageId> {
    let meta = tree.read_meta(handle).expect("meta");
    let mut found = vec![meta.root_page];
    let mut level = found.clone();
    for _ in 1..meta.height {
        let mut below = Vec::new();
        for page in level {
            let node = tree.read_internal(page).expect("internal");
            for place in 0..node.separators.len() + 1 {
                below.push(node.child(place));
            }
        }
        found.extend(below.iter().copied());
        level = below;
    }
    found
}

#[test]
fn deleting_every_row_retires_every_page_but_one() {
    let mut tree = BTree::new(CAPACITY);
    let handle = tree.create(text_spec()).expect("create tree");
    let key = |id: u64| text(&format!("{id:04}{}", "x".repeat(1000)));
    let mut height = 1;
    for id in (0..90_u64).rev() {
        tree.insert(handle, key(id), row_id(id)).expect("insert");
        let now = tree.read_meta(handle).expect("meta").height;
        assert!(now == height || now == height + 1);
        height = now;
    }
    assert!(height >= 4);
    let page_count = tree.page_count();
    let all = pages_of(&tree, handle);
    let mut retired = Vec::new();
    for id in 0..90_u64 {
        let before = pages_of(&tree, handle);
        let removal = tree.delete_in(handle, key(id), row_id(id)).expect("plan");
        tree.delete(handle, key(id), row_id(id)).expect("delete");
        let after = pages_of(&tree, handle);
        for page in &before {
            assert_eq!(removal.retired.contains(page), !after.contains(page));
        }
        assert_eq!(before.len(), after.len() + removal.retired.len());
        retired.extend(removal.retired);
    }
    assert_eq!(tree.page_count(), page_count);
    assert_eq!(tree.read_meta(handle).expect("meta").height, 1);
    assert_eq!(pages_of(&tree, handle).len(), 1);
    assert_eq!(retired.len(), all.len() - 1);
    assert_eq!(retired.len(), 81);
    assert!(all.iter().all(|page| retired.contains(page) || pages_of(&tree, handle)[0] == *page));
}

/// A tree of height two by hand: a root over leaves with the given keys.
fn tree_of(leaves: &[&[u64]]) -> (BTree, BTreeHandle) {
    let spec = physical(PhysicalType::UInt64, false);
    let first = PageId(3);
    let mut separators = Vec::new();
    let mut pages = vec![
        TreePage::Other,
        TreePage::Meta(MetaNode { root_page: PageId(2), height: 2, spec }),
    ];
    for (place, keys) in leaves.iter().enumerate().skip(1) {
        separators.push(InternalSeparator {
            key: IndexEntry { key: Scalar::UInt64(keys[0]), row_id: row_id(keys[0]) },
            right_child: PageId(3 + place as u64),
        });
    }
    pages.push(TreePage::Internal(InternalNode { first_child: first, separators }));
    for (place, keys) in leaves.iter().enumerate() {
        pages.push(TreePage::Leaf(LeafNode {
            entries: keys
                .iter()
                .map(|key| IndexEntry { key: Scalar::UInt64(*key), row_id: row_id(*key) })
                .collect(),
            next_leaf: if place + 1 < leaves.len() {
                Some(PageId(4 + place as u64))
            } else {
                None
            },
        }));
    }
    (BTree { pages, capacity: CAPACITY }, BTreeHandle { meta_page: PageId(1) })
}

#[test]
fn an_entry_below_a_node_with_one_child_is_found_but_not_deleted() {
    let (mut bare, handle) = tree_of(&[&[4, 9]]);
    assert_eq!(bare.lookup(handle, &Scalar::UInt64(9)).expect("lookup"), vec![row_id(9)]);
    assert_eq!(
        bare.delete(handle, Scalar::UInt64(9), row_id(9)),
        Err(IndexError::InvalidNodeType)
    );
    assert_eq!(bare.lookup(handle, &Scalar::UInt64(9)).expect("lookup"), vec![row_id(9)]);
    assert_eq!(
        bare.delete(handle, Scalar::UInt64(5), row_id(5)),
        Err(IndexError::EntryNotFound)
    );
    let (mut forked, handle) = tree_of(&[&[4, 9], &[12, 15]]);
    assert_eq!(forked.delete(handle, Scalar::UInt64(9), row_id(9)), Ok(()));
    let left: Vec<ScalarValue> =
        entries_in_order(&forked, handle).into_iter().map(|entry| entry.key).collect();
    assert_eq!(left, vec![Scalar::UInt64(4), Scalar::UInt64(12), Scalar::UInt64(15)]);
}
