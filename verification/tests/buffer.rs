//! The page buffer over a file and a log in memory.
use netbadb_storage::buffer::frame::FlushAction;
use netbadb_storage::buffer::pool::{validate_allocation, FramePlan};
use netbadb_storage::buffer::undo::{BeforeImage, UndoAction};
use netbadb_storage::buffer::{BufferError, BufferPool, DEFAULT_BUFFER_POOL_SIZE};
use netbadb_storage::ids::{IndexId, Lsn, PageGeneration, PageId};
use netbadb_storage::page::{Page, PageType};
use netbadb_storage::value::PhysicalType;

fn page(id: u64, bytes: &[u8]) -> Page {
    Page {
        id: PageId(id),
        page_type: PageType::Heap,
        lsn: None,
        generation: None,
        owner: None,
        retired: None,
        meta_readable: false,
        readable_as: vec![],
        bytes: bytes.to_vec(),
    }
}

/// A pool with the file and the log that it stands before.
struct Storage {
    pool: BufferPool,
    disk: Vec<Page>,
    durable: Option<Lsn>,
    fail_wal: bool,
    fail_write: bool,
}

impl Storage {
    fn new(capacity: usize, logged: bool) -> Storage {
        let mut disk = Vec::new();
        for id in 0..3 {
            disk.push(page(id, &[id as u8]));
        }
        Storage {
            pool: BufferPool::new(capacity, logged).expect("create buffer pool"),
            disk,
            durable: None,
            fail_wal: false,
            fail_write: false,
        }
    }

    fn flush(&mut self, index: usize, action: FlushAction) -> Result<(), BufferError> {
        let mut action = action;
        if let FlushAction::FlushWal(lsn) = action {
            let result = if self.fail_wal {
                self.fail_wal = false;
                Err(String::from("flush failed"))
            } else {
                self.durable = Some(lsn);
                Ok(())
            };
            action = BufferPool::wal_flushed(result)?;
        }
        if action == FlushAction::WritePage {
            let result = if self.fail_write {
                self.fail_write = false;
                Err(String::from("write failed"))
            } else {
                Ok(())
            };
            let written = result.is_ok();
            if written {
                let content = self.pool.frame_content(index);
                let id = content.id.0 as usize;
                self.disk[id] = content;
            }
            self.pool.page_written(index, result)?;
        }
        Ok(())
    }

    fn room(&mut self) -> Result<usize, BufferError> {
        let plan: FramePlan = self.pool.prepare_frame()?;
        self.flush(plan.index, plan.flush)?;
        self.pool.victim_taken(plan.index);
        Ok(plan.index)
    }

    fn read(&mut self, id: u64) -> Result<Page, BufferError> {
        if let Some(page) = self.pool.pin_read(PageId(id))? {
            return Ok(page);
        }
        let Some(content) = self.disk.get(id as usize).map(Page::copy) else {
            return Err(BufferError::Io(String::from("no such page")));
        };
        let index = self.room()?;
        assert!(self.pool.can_take(index, PageId(id)));
        self.pool.install_frame(index, content.copy(), false);
        Ok(content)
    }

    fn write(&mut self, id: u64) -> Result<Page, BufferError> {
        if let Some(page) = self.pool.pin_write(PageId(id))? {
            return Ok(page);
        }
        let content = self.disk[id as usize].copy();
        let index = self.room()?;
        self.pool.install_frame(index, content.copy(), true);
        Ok(content)
    }

    fn flush_all(&mut self) -> Result<(), BufferError> {
        self.pool.flush_all()?;
        for index in 0..self.pool.frame_count() {
            let action = self.pool.flush_action(index)?;
            self.flush(index, action)?;
        }
        Ok(())
    }

    fn prepare_logged_update(&mut self) -> Lsn {
        let mut content = self.write(1).expect("write page");
        content.bytes = b"logged".to_vec();
        content.lsn = Some(Lsn(42));
        self.pool.release_write(PageId(1), content, true);
        Lsn(42)
    }
}

#[test]
fn capacity_one_evicts_clean_page_and_reloads_from_disk() {
    let mut storage = Storage::new(1, false);
    assert_eq!(storage.read(1).expect("read page A").id, PageId(1));
    storage.pool.release_read(PageId(1));
    storage.read(2).expect("read page B");
    storage.pool.release_read(PageId(2));
    assert_eq!(storage.pool.find_frame(PageId(1)), None);
    let again = storage.read(1).expect("reload page A");
    assert_eq!(again.bytes, vec![1]);
    storage.pool.release_read(PageId(1));
}

#[test]
fn dirty_page_is_written_before_eviction() {
    let mut storage = Storage::new(1, false);
    let mut content = storage.write(1).expect("write page A");
    content.bytes = b"dirty".to_vec();
    storage.pool.release_write(PageId(1), content, true);
    assert_eq!(storage.disk[1].bytes, vec![1]);
    storage.read(2).expect("evict page A for B");
    storage.pool.release_read(PageId(2));
    assert_eq!(storage.read(1).expect("reload dirty page A").bytes, b"dirty".to_vec());
    storage.pool.release_read(PageId(1));
    storage.flush_all().expect("flush pool");
}

#[test]
fn pinned_page_is_not_evicted() {
    let mut storage = Storage::new(1, false);
    storage.read(1).expect("pin page A");
    assert_eq!(storage.read(2).err(), Some(BufferError::Exhausted { capacity: 1 }));
    storage.pool.release_read(PageId(1));
    storage.read(2).expect("load page B");
    storage.pool.release_read(PageId(2));
}

#[test]
fn flush_rejects_an_active_write_guard_and_succeeds_after_release() {
    let mut storage = Storage::new(1, false);
    let mut content = storage.write(1).expect("write page");
    content.bytes = b"flushed".to_vec();
    assert_eq!(storage.flush_all(), Err(BufferError::PagePinned { page_id: PageId(1) }));
    assert_eq!(storage.read(1).err(), Some(BufferError::PagePinned { page_id: PageId(1) }));
    assert_eq!(storage.write(1).err(), Some(BufferError::PagePinned { page_id: PageId(1) }));
    storage.pool.release_write(PageId(1), content, true);
    storage.flush_all().expect("flush released page");
    assert_eq!(storage.disk[1].bytes, b"flushed".to_vec());
}

#[test]
fn capacity_one_eviction_flushes_wal_before_the_dirty_page() {
    let mut storage = Storage::new(1, true);
    let update_lsn = storage.prepare_logged_update();
    assert_eq!(storage.durable, None);
    storage.read(2).expect("evict dirty page");
    storage.pool.release_read(PageId(2));
    assert!(storage.durable.is_some_and(|lsn| lsn >= update_lsn));
    assert_eq!(storage.read(1).expect("reload page").lsn, Some(update_lsn));
    storage.pool.release_read(PageId(1));
}

#[test]
fn wal_flush_failure_prevents_the_data_page_write() {
    let mut storage = Storage::new(1, true);
    storage.prepare_logged_update();
    storage.fail_wal = true;
    assert!(matches!(storage.flush_all(), Err(BufferError::Wal(_))));
    assert_eq!(storage.disk[1].lsn, None);
}

#[test]
fn page_write_failure_happens_only_after_wal_is_durable() {
    let mut storage = Storage::new(1, true);
    let update_lsn = storage.prepare_logged_update();
    storage.fail_write = true;
    assert!(matches!(storage.flush_all(), Err(BufferError::Io(_))));
    assert!(storage.durable.is_some_and(|lsn| lsn >= update_lsn));
    assert_eq!(storage.disk[1].lsn, None);
    storage.flush_all().expect("retry page flush");
    assert_eq!(storage.disk[1].lsn, Some(update_lsn));
}

#[test]
fn tail_invalidation_preflights_every_frame_and_preserves_prefix() {
    for cached in [false, true] {
        let mut storage = Storage::new(6, false);
        for id in 3..6 {
            storage.disk.push(page(id, &[id as u8]));
        }
        storage.read(2).unwrap();
        storage.pool.release_read(PageId(2));
        if cached {
            storage.read(3).unwrap();
            storage.pool.release_read(PageId(3));
            storage.read(5).unwrap();
            assert_eq!(
                storage.pool.invalidate_suffix(3),
                Err(BufferError::PagePinned { page_id: PageId(5) })
            );
            assert!(storage.pool.find_frame(PageId(3)).is_some());
            storage.pool.release_read(PageId(5));
            let mut content = storage.write(4).unwrap();
            content.bytes = b"dirty".to_vec();
            storage.pool.release_write(PageId(4), content, true);
            assert_eq!(
                storage.pool.invalidate_suffix(3),
                Err(BufferError::PageDirty { page_id: PageId(4) })
            );
            assert!(storage.pool.find_frame(PageId(3)).is_some());
            assert_eq!(storage.pool.check_truncate(3), Err(BufferError::TailFramesRemain));
            storage.flush_all().unwrap();
        }
        storage.pool.invalidate_suffix(3).unwrap();
        assert_eq!(storage.pool.frame_count(), 1);
        assert!(storage.pool.find_frame(PageId(2)).is_some());
        storage.pool.check_truncate(3).unwrap();
        storage.disk.truncate(3);
        assert!(storage.read(3).is_err());
        assert!(storage.read(2).is_ok());
    }
}

#[test]
fn pools_start_empty_and_need_room() {
    assert_eq!(BufferPool::new(0, false).err(), Some(BufferError::InvalidCapacity));
    let pool = BufferPool::with_default_capacity(false).expect("pool");
    assert_eq!(pool.capacity(), DEFAULT_BUFFER_POOL_SIZE);
    assert_eq!(DEFAULT_BUFFER_POOL_SIZE, 8);
    assert_eq!(pool.frame_count(), 0);
    assert_eq!(
        pool.flush_page(PageId(4)),
        Err(BufferError::PageNotCached { page_id: PageId(4) })
    );
}

#[test]
fn victims_are_taken_in_turn() {
    let mut storage = Storage::new(2, false);
    for id in [1, 2] {
        storage.read(id).unwrap();
        storage.pool.release_read(PageId(id));
    }
    storage.read(0).unwrap();
    storage.pool.release_read(PageId(0));
    assert_eq!(storage.pool.find_frame(PageId(0)), Some(0));
    storage.read(1).unwrap();
    assert_eq!(storage.pool.find_frame(PageId(1)), Some(1));
    assert_eq!(
        storage.pool.ensure_unpinned(),
        Err(BufferError::PagePinned { page_id: PageId(1) })
    );
    storage.read(2).unwrap();
    assert_eq!(storage.pool.find_frame(PageId(2)), Some(0));
}

#[test]
fn logged_pages_are_not_written_without_a_log() {
    let mut storage = Storage::new(1, false);
    storage.prepare_logged_update();
    assert_eq!(
        storage.flush_all(),
        Err(BufferError::WalUnavailable { page_id: PageId(1), page_lsn: Lsn(42) })
    );
    // The first page of the file is written without the log.
    let mut storage = Storage::new(1, false);
    let mut content = storage.write(0).unwrap();
    content.lsn = Some(Lsn(9));
    storage.pool.release_write(PageId(0), content, true);
    storage.flush_all().expect("flush first page");
    assert_eq!(storage.disk[0].lsn, Some(Lsn(9)));
}

#[test]
fn incarnations_are_checked_against_the_frame() {
    let mut pool = BufferPool::new(2, false).unwrap();
    let mut content = page(1, &[1]);
    content.generation = Some(PageGeneration(7));
    pool.install_frame(0, content.copy(), false);
    let meant = Some(PageGeneration(7));
    let other = Some(PageGeneration(8));
    assert_eq!(pool.validate_btree_frame(PageId(1), meant), Ok(()));
    assert_eq!(pool.validate_btree_frame(PageId(2), meant), Ok(()));
    assert_eq!(
        pool.validate_btree_frame(PageId(1), other),
        Err(BufferError::PagePinned { page_id: PageId(1) })
    );
    pool.release_read(PageId(1));
    assert_eq!(
        pool.validate_btree_frame(PageId(1), other),
        Err(BufferError::WrongAllocation { page_id: PageId(1) })
    );
    assert_eq!(validate_allocation(&content, meant), Ok(()));
    assert_eq!(
        validate_allocation(&content, None),
        Err(BufferError::WrongAllocation { page_id: PageId(1) })
    );
    assert!(pool.take_reuse_invalidation());
    assert!(!pool.take_reuse_invalidation());
    pool.invalidate_reuse_inventory();
    assert!(pool.take_reuse_invalidation());
}

#[test]
fn pin_counts_do_not_overflow_and_come_back() {
    let mut pool = BufferPool::new(1, false).unwrap();
    pool.install_frame(0, page(1, &[1]), false);
    assert_eq!(pool.pin_read(PageId(1)).unwrap().unwrap().bytes, vec![1]);
    pool.release_read(PageId(1));
    pool.release_read(PageId(1));
    assert_eq!(pool.ensure_unpinned(), Ok(()));
    assert!(pool.pin_read(PageId(9)).unwrap().is_none());
    assert!(pool.pin_write(PageId(9)).unwrap().is_none());
}

fn tree_page(generation: u64, owner: u64) -> Page {
    let mut content = page(1, &[generation as u8, owner as u8]);
    content.page_type = PageType::BTreeLeaf;
    content.generation = Some(PageGeneration(generation));
    content.owner = Some(IndexId(owner));
    content.readable_as = vec![PhysicalType::Text];
    content
}

#[test]
fn transitions_drop_the_old_incarnation() {
    let before = tree_page(1, 1);
    let after = tree_page(2, 2);
    let mut pool = BufferPool::new(1, false).unwrap();
    pool.install_frame(0, before.copy(), false);
    assert_eq!(
        pool.publish_page_transition(&before, &after, &before),
        Err(BufferError::PageDirty { page_id: PageId(1) })
    );
    pool.release_read(PageId(1));
    assert_eq!(
        pool.publish_page_transition(&before, &after, &after),
        Err(BufferError::TransitionCandidateChanged)
    );
    assert!(matches!(
        pool.publish_page_transition(&after, &before, &after),
        Err(BufferError::Transition(_))
    ));
    pool.publish_page_transition(&before, &after, &before).expect("publish");
    assert_eq!(pool.frame_count(), 0);
    let plan = pool.prepare_frame().unwrap();
    pool.install_pending(plan.index, after.copy());
    assert!(!pool.reusable_page(PageId(1)));
    assert_eq!(
        pool.check_maintenance(PageId(1)),
        Err(BufferError::PageDirty { page_id: PageId(1) })
    );
    let current = pool.allocation_snapshot(PageId(1)).unwrap().unwrap();
    assert_eq!(pool.undo_page_transition(&before, &after, &current), Ok(true));
    assert_eq!(pool.frame_count(), 0);
    assert_eq!(pool.undo_page_transition(&before, &after, &before), Ok(false));
}

#[test]
fn maintenance_compares_the_frame_with_the_file() {
    let mut pool = BufferPool::new(1, false).unwrap();
    pool.install_frame(0, page(1, &[5]), false);
    assert_eq!(
        pool.check_maintenance(PageId(1)),
        Err(BufferError::PagePinned { page_id: PageId(1) })
    );
    assert_eq!(
        pool.allocation_snapshot(PageId(1)).err(),
        Some(BufferError::PagePinned { page_id: PageId(1) })
    );
    pool.release_read(PageId(1));
    assert_eq!(pool.check_maintenance(PageId(1)), Ok(()));
    assert_eq!(pool.check_maintenance_image(&page(1, &[5])), Ok(()));
    assert_eq!(
        pool.check_maintenance_image(&page(1, &[6])),
        Err(BufferError::MaintenanceFrameDiffers)
    );
    assert_eq!(pool.check_maintenance_image(&page(2, &[6])), Ok(()));
}

#[test]
fn undo_restores_old_content_or_removes_new_pages() {
    let on_file = page(1, &[9]);
    let mut pool = BufferPool::new(2, false).unwrap();
    let undo = |pool: &mut BufferPool, id: u64, count: u64, before: BeforeImage| {
        pool.undo_page_update(PageId(id), count, &on_file, before, None)
    };
    let old = || BeforeImage::Existing(page(1, &[3]));
    assert_eq!(undo(&mut pool, 1, 3, old()), Ok(UndoAction::Install));
    assert_eq!(
        undo(&mut pool, 3, 3, BeforeImage::Existing(page(3, &[3]))),
        Err(BufferError::OutsideDataFile { page_id: PageId(3) })
    );
    assert_eq!(undo(&mut pool, 5, 3, BeforeImage::NewPage), Ok(UndoAction::Nothing));
    assert_eq!(undo(&mut pool, 3, 3, BeforeImage::NewPage), Ok(UndoAction::RemoveTrailing));
    pool.install_frame(0, page(1, &[9]), false);
    assert_eq!(
        undo(&mut pool, 1, 3, old()),
        Err(BufferError::PagePinned { page_id: PageId(1) })
    );
    pool.release_read(PageId(1));
    assert_eq!(undo(&mut pool, 1, 3, old()), Ok(UndoAction::Flush(0)));
    assert_eq!(pool.allocation_snapshot(PageId(1)).unwrap().unwrap().bytes, vec![3]);
    assert_eq!(pool.flush_action(0), Ok(FlushAction::WritePage));
    assert_eq!(undo(&mut pool, 1, 3, BeforeImage::NewPage), Ok(UndoAction::RemoveTrailing));
    assert_eq!(pool.frame_count(), 0);
    let refused = pool.undo_page_update(
        PageId(1),
        3,
        &on_file,
        BeforeImage::NewPage,
        Some(PageGeneration(4)),
    );
    assert_eq!(refused, Err(BufferError::WrongAllocation { page_id: PageId(1) }));
}

#[test]
fn a_page_is_dirty_only_where_a_writer_changed_it() {
    let mut storage = Storage::new(2, false);
    let action = |storage: &mut Storage| {
        let index = storage.pool.find_frame(PageId(1)).expect("page is in the pool");
        storage.pool.flush_action(index).expect("no writer holds the page")
    };
    let content = storage.write(1).expect("write page");
    storage.pool.release_write(PageId(1), content, false);
    assert_eq!(action(&mut storage), FlushAction::Nothing);
    let mut content = storage.write(1).expect("write page");
    content.bytes = b"changed".to_vec();
    storage.pool.release_write(PageId(1), content, true);
    assert_eq!(action(&mut storage), FlushAction::WritePage);
    let content = storage.write(1).expect("write page");
    assert_eq!(content.bytes, b"changed".to_vec());
    storage.pool.release_write(PageId(1), content, false);
    assert_eq!(action(&mut storage), FlushAction::WritePage);
    storage.flush_all().expect("flush pool");
    assert_eq!(action(&mut storage), FlushAction::Nothing);
    assert_eq!(storage.disk[1].bytes, b"changed".to_vec());
}

#[test]
fn pages_come_back_as_they_were_written_after_any_evictions() {
    let mut storage = Storage::new(1, false);
    let mut expected: Vec<Vec<u8>> = vec![vec![0], vec![1], vec![2]];
    for step in 0..12_u8 {
        let id = u64::from(step % 3);
        let mut content = storage.write(id).expect("write page");
        assert_eq!(content.bytes, expected[id as usize]);
        content.bytes.push(step);
        expected[id as usize].push(step);
        storage.pool.release_write(PageId(id), content, true);
        for other in 0..3_u64 {
            let found = storage.read(other).expect("read page");
            assert_eq!(found.bytes, expected[other as usize]);
            storage.pool.release_read(PageId(other));
        }
    }
}
