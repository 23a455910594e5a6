//! How row versions are ordered, and what a row change does to the rows of an
//! overlay.
use super::error::ColumnarError;
use super::overlay::{self, DeltaMutation, OverlayView};
use crate::change_stream::types::StorageVersionKey;
use vstd::prelude::*;

verus! {

/// Row versions of a heap compare by page, slot and generation, those of a log tree
/// by row and commit number, and then by storage. Those of a heap come first.
pub proof fn law_version_order(left: StorageVersionKey, right: StorageVersionKey)
    ensures
        overlay::key_less(left, right) <==> match (left, right) {
            (
                StorageVersionKey::Heap { storage_id: s, row_id: a },
                StorageVersionKey::Heap { storage_id: t, row_id: b },
            ) => {
                ||| a.page.0 < b.page.0
                ||| a.page.0 == b.page.0 && a.slot < b.slot
                ||| a.page.0 == b.page.0 && a.slot == b.slot && a.generation < b.generation
                ||| a == b && s.0 < t.0
            },
            (
                StorageVersionKey::Lsm { storage_id: s, row_id: a, version: v },
                StorageVersionKey::Lsm { storage_id: t, row_id: b, version: w },
            ) => {
                ||| a.0 < b.0
                ||| a.0 == b.0 && v.0 < w.0
                ||| a.0 == b.0 && v.0 == w.0 && s.0 < t.0
            },
            (StorageVersionKey::Heap { .. }, StorageVersionKey::Lsm { .. }) => true,
            (StorageVersionKey::Lsm { .. }, StorageVersionKey::Heap { .. }) => false,
        },
        left == right || overlay::key_less(left, right) || overlay::key_less(right, left),
        !(overlay::key_less(left, right) && overlay::key_less(right, left)),
        overlay::key_less(left, right) ==> left != right,
{
}

/// Whether the live versions that two overlays share have the same rows in both.
pub open spec fn rows_shared<R>(before: OverlayView<R>, after: OverlayView<R>) -> bool {
    forall|i: int, j: int|
        0 <= i < before.live_keys.len() && 0 <= j < after.live_keys.len() && (
        #[trigger] before.live_keys[i]) == (#[trigger] after.live_keys[j]) ==> after.live_rows[j]
            == before.live_rows[i]
}

proof fn lemma_distinct(keys: Seq<StorageVersionKey>, i: int, j: int)
    requires
        overlay::ascending(keys),
        0 <= i < keys.len(),
        0 <= j < keys.len(),
        keys[i] == keys[j],
    ensures
        i == j,
{
    if i < j {
        assert(overlay::key_less(keys[i], keys[j]));
    } else if j < i {
        assert(overlay::key_less(keys[j], keys[i]));
    }
}

proof fn lemma_replaced_rows<R>(before: OverlayView<R>, key: StorageVersionKey)
    requires
        overlay::overlay_kept(before),
    ensures
        rows_shared(before, overlay::replaced(before, key)),
{
    let after = overlay::replaced(before, key);
    overlay::lemma_place_among(before.live_keys, key);
    let place = overlay::place_among(before.live_keys, key);
    assert forall|i: int, j: int|
        0 <= i < before.live_keys.len() && 0 <= j < after.live_keys.len() && (
        #[trigger] before.live_keys[i]) == (#[trigger] after.live_keys[j]) implies after.live_rows[j]
        == before.live_rows[i] by {
        if before.live_keys.contains(key) {
            let k = if j < place {
                j
            } else {
                j + 1
            };
            assert(after.live_keys[j] == before.live_keys[k]);
            lemma_distinct(before.live_keys, i, k);
        } else {
            lemma_distinct(before.live_keys, i, j);
        }
    }
}

proof fn lemma_added_rows<R>(before: OverlayView<R>, key: StorageVersionKey, row: R)
    requires
        overlay::overlay_kept(before),
        !before.live_keys.contains(key),
    ensures
        rows_shared(before, overlay::added(before, key, row)),
        forall|j: int|
            0 <= j < overlay::added(before, key, row).live_keys.len() && (
            #[trigger] overlay::added(before, key, row).live_keys[j]) == key ==> overlay::added(
                before,
                key,
                row,
            ).live_rows[j] == row,
{
    let after = overlay::added(before, key, row);
    overlay::lemma_place_among(before.live_keys, key);
    let place = overlay::place_among(before.live_keys, key);
    assert forall|i: int, j: int|
        0 <= i < before.live_keys.len() && 0 <= j < after.live_keys.len() && (
        #[trigger] before.live_keys[i]) == (#[trigger] after.live_keys[j]) implies after.live_rows[j]
        == before.live_rows[i] by {
        if j == place {
            assert(before.live_keys[i] == key);
        } else {
            let k = if j < place {
                j
            } else {
                j - 1
            };
            assert(after.live_keys[j] == before.live_keys[k]);
            lemma_distinct(before.live_keys, i, k);
        }
    }
    assert forall|j: int| 0 <= j < after.live_keys.len() && (#[trigger] after.live_keys[j])
        == key implies after.live_rows[j] == row by {
        if j != place {
            let k = if j < place {
                j
            } else {
                j - 1
            };
            assert(before.live_keys[k] == key);
        }
    }
}

/// A row change leaves the row of every version that stays live as it was, and gives
/// the version that it brings its row.
pub proof fn law_row_change_keeps_other_rows<R>(
    before: OverlayView<R>,
    mutation: DeltaMutation<R>,
    invalid: &'static str,
)
    requires
        overlay::overlay_kept(before),
    ensures
        overlay::step(before, mutation, invalid) matches Ok(after) ==> {
            &&& rows_shared(before, after)
            &&& forall|j: int|
                0 <= j < after.live_keys.len() && mutation.new_version == Some(
                    #[trigger] after.live_keys[j],
                ) ==> mutation.after == Some(after.live_rows[j])
        },
{
    if let Ok(after) = overlay::step(before, mutation, invalid) {
        let bare = DeltaMutation { new_version: None, after: None, ..mutation };
        let middle = overlay::step_old(before, mutation.old_version)->Ok_0;
        assert(overlay::step(before, bare, invalid) == Ok::<OverlayView<R>, ColumnarError>(
            middle,
        ));
        overlay::law_step_keeps_overlay(before, bare, invalid);
        if let Some(key) = mutation.old_version {
            lemma_replaced_rows(before, key);
        } else {
            assert forall|i: int, j: int|
                0 <= i < before.live_keys.len() && 0 <= j < middle.live_keys.len() && (
                #[trigger] before.live_keys[i]) == (#[trigger] middle.live_keys[j]) implies
                middle.live_rows[j] == before.live_rows[i] by {
                lemma_distinct(before.live_keys, i, j);
            }
        }
        match (mutation.new_version, mutation.after) {
            (Some(key), Some(row)) => {
                lemma_added_rows(middle, key, row);
                overlay::law_step_moves_versions(before, bare, invalid);
                overlay::lemma_place_among(middle.live_keys, key);
                let place = overlay::place_among(middle.live_keys, key);
                assert forall|i: int, j: int|
                    0 <= i < before.live_keys.len() && 0 <= j < after.live_keys.len() && (
                    #[trigger] before.live_keys[i]) == (#[trigger] after.live_keys[j]) implies
                    after.live_rows[j] == before.live_rows[i] by {
                    if j == place {
                        assert(before.live_keys.contains(key));
                        if mutation.old_version == Some(key) {
                            assert(middle.suppressed.contains(key));
                        } else {
                            assert(middle.live_keys.contains(key));
                        }
                    } else {
                        let k = if j < place {
                            j
                        } else {
                            j - 1
                        };
                        assert(after.live_keys[j] == middle.live_keys[k]);
                        assert(before.live_keys[i] == middle.live_keys[k]);
                        assert(after.live_rows[j] == middle.live_rows[k]);
                    }
                }
            },
            _ => {},
        }
    }
}

/// A row change can be taken exactly where the version that it replaces was not
/// replaced before, and where it brings a version, that has a row, was neither
/// replaced nor is live, and is not the one that it replaces; where it brings none,
/// it has no row.
pub proof fn law_when_a_row_change_can_be_taken<R>(
    before: OverlayView<R>,
    mutation: DeltaMutation<R>,
    invalid: &'static str,
)
    requires
        overlay::overlay_kept(before),
    ensures
        overlay::step(before, mutation, invalid) is Ok <==> {
            &&& mutation.old_version matches Some(old) ==> !before.suppressed.contains(old)
            &&& match (mutation.new_version, mutation.after) {
                (None, None) => true,
                (Some(new), Some(_)) => {
                    &&& mutation.old_version != Some(new)
                    &&& !before.suppressed.contains(new)
                    &&& !before.live_keys.contains(new)
                },
                _ => false,
            }
        },
{
    let bare = DeltaMutation { new_version: None, after: None, ..mutation };
    if overlay::step_old(before, mutation.old_version) is Ok {
        let middle = overlay::step_old(before, mutation.old_version)->Ok_0;
        assert(overlay::step(before, bare, invalid) == Ok::<OverlayView<R>, ColumnarError>(
            middle,
        ));
        overlay::law_step_moves_versions(before, bare, invalid);
        if let Some(new) = mutation.new_version {
            assert(middle.suppressed.contains(new) <==> before.suppressed.contains(new)
                || mutation.old_version == Some(new));
            assert(middle.live_keys.contains(new) <==> before.live_keys.contains(new)
                && mutation.old_version != Some(new));
        }
    }
}

} // verus!
