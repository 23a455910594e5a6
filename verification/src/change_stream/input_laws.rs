//! Which changes a log takes.
use super::record;
use super::types::{StorageChange, StorageVersionKey};
use crate::ids::StorageId;
use vstd::prelude::*;

verus! {

/// Whether a row version is one that a log of a storage takes: it names the storage
/// and a row that can be. Its commit number may be open.
pub open spec fn key_fits(key: StorageVersionKey, storage_id: StorageId) -> bool {
    match key {
        StorageVersionKey::Heap { storage_id: owner, row_id } => owner == storage_id
            && row_id.generation != 0,
        StorageVersionKey::Lsm { storage_id: owner, row_id, .. } => owner == storage_id && row_id.0
            != 0,
    }
}

/// Whether a change is one that a log of a storage takes: its versions are, and its
/// row is not too long.
pub open spec fn change_fits(change: StorageChange<Seq<u8>>, storage_id: StorageId) -> bool {
    match change {
        StorageChange::Insert { new_version, after } => key_fits(new_version, storage_id)
            && after.len() <= 16_777_216,
        StorageChange::Update { old_version, new_version, after } => {
            &&& key_fits(old_version, storage_id)
            &&& key_fits(new_version, storage_id)
            &&& after.len() <= 16_777_216
        },
        StorageChange::Delete { old_version } => key_fits(old_version, storage_id),
    }
}

/// A log takes changes exactly where it takes each of them.
pub proof fn law_changes_of_a_log(changes: Seq<StorageChange<Seq<u8>>>, storage_id: StorageId)
    ensures
        record::mutations_error(changes, storage_id) is None <==> forall|c: int|
            0 <= c < changes.len() ==> change_fits(#[trigger] changes[c], storage_id),
    decreases changes.len(),
{
    if changes.len() > 0 {
        let front = changes.drop_last();
        let last = changes.last();
        law_changes_of_a_log(front, storage_id);
        assert(record::mutation_error(last, storage_id) is None <==> change_fits(
            last,
            storage_id,
        ));
        assert(last == changes[changes.len() - 1]);
        if forall|c: int| 0 <= c < front.len() ==> change_fits(#[trigger] front[c], storage_id) {
            assert forall|c: int| 0 <= c < changes.len() - 1 implies change_fits(
                #[trigger] changes[c],
                storage_id,
            ) by {
                assert(front[c] == changes[c]);
            }
        } else {
            let c = choose|c: int|
                0 <= c < front.len() && !change_fits(#[trigger] front[c], storage_id);
            assert(changes[c] == front[c]);
        }
    }
}

} // verus!
