//! The changes that a running transaction has made so far.
use super::types::{StorageChange, StorageVersionKey};
use vstd::prelude::*;

verus! {

/// The net changes of a transaction: one for each row that it touched, in the
/// order in which it first did.
pub struct PendingChangeSet<R> {
    pub mutations: Vec<StorageChange<R>>,
}

/// The row version that a change leaves behind, if it leaves one.
pub open spec fn created<R>(change: StorageChange<R>) -> Option<StorageVersionKey> {
    match change {
        StorageChange::Insert { new_version, .. } => Some(new_version),
        StorageChange::Update { new_version, .. } => Some(new_version),
        StorageChange::Delete { .. } => None,
    }
}

/// The row version that a change takes away, if it takes one.
pub open spec fn replaced<R>(change: StorageChange<R>) -> Option<StorageVersionKey> {
    match change {
        StorageChange::Insert { .. } => None,
        StorageChange::Update { old_version, .. } => Some(old_version),
        StorageChange::Delete { old_version } => Some(old_version),
    }
}

/// The first change that leaves a row version behind.
pub open spec fn position_of<R>(
    changes: Seq<StorageChange<R>>,
    key: StorageVersionKey,
) -> Option<int>
    decreases changes.len(),
{
    if changes.len() == 0 {
        None
    } else if let Some(earlier) = position_of(changes.drop_last(), key) {
        Some(earlier)
    } else if created(changes.last()) == Some(key) {
        Some(changes.len() - 1)
    } else {
        None
    }
}

/// The first change that leaves a row version behind does so, and none in
/// front of it.
pub proof fn lemma_position_of<R>(changes: Seq<StorageChange<R>>, key: StorageVersionKey)
    ensures
        match position_of(changes, key) {
            Some(found) => {
                &&& 0 <= found < changes.len()
                &&& created(changes[found]) == Some(key)
                &&& forall|i: int| 0 <= i < found ==> created(#[trigger] changes[i]) != Some(key)
            },
            None => forall|i: int|
                0 <= i < changes.len() ==> created(#[trigger] changes[i]) != Some(key),
        },
    decreases changes.len(),
{
    if changes.len() > 0 {
        let earlier = changes.drop_last();
        lemma_position_of(earlier, key);
        assert forall|i: int| 0 <= i < earlier.len() implies #[trigger] changes[i] == earlier[i] by {}
    }
}

/// A change after its row was updated again.
pub open spec fn updated_again<R>(
    change: StorageChange<R>,
    new_version: StorageVersionKey,
    after: R,
) -> StorageChange<R> {
    match change {
        StorageChange::Insert { .. } => StorageChange::Insert { new_version, after },
        StorageChange::Update { old_version, .. } => StorageChange::Update {
            old_version,
            new_version,
            after,
        },
        StorageChange::Delete { .. } => change,
    }
}

/// The changes after an update: it goes into the change that left the old
/// version behind, if there is one.
pub open spec fn after_update<R>(
    changes: Seq<StorageChange<R>>,
    old_version: StorageVersionKey,
    new_version: StorageVersionKey,
    after: R,
) -> Seq<StorageChange<R>> {
    match position_of(changes, old_version) {
        Some(found) => changes.update(found, updated_again(changes[found], new_version, after)),
        None => changes.push(StorageChange::Update { old_version, new_version, after }),
    }
}

/// The changes after a deletion: a row that the transaction inserted is gone
/// without a trace, one that it updated is deleted in its first version.
pub open spec fn after_delete<R>(
    changes: Seq<StorageChange<R>>,
    old_version: StorageVersionKey,
) -> Seq<StorageChange<R>> {
    match position_of(changes, old_version) {
        Some(found) => match replaced(changes[found]) {
            None => changes.remove(found),
            Some(first) => changes.update(found, StorageChange::Delete { old_version: first }),
        },
        None => changes.push(StorageChange::Delete { old_version }),
    }
}

impl<R> PendingChangeSet<R> {
    /// No changes yet.
    pub fn new() -> (set: PendingChangeSet<R>)
        ensures
            set.mutations@ == Seq::<StorageChange<R>>::empty(),
    {
        PendingChangeSet { mutations: Vec::new() }
    }

    /// Records an inserted row.
    pub fn record_insert(&mut self, new_version: StorageVersionKey, after: R)
        ensures
            final(self).mutations@ == old(self).mutations@.push(
                StorageChange::Insert { new_version, after },
            ),
    {
        self.mutations.push(StorageChange::Insert { new_version, after });
    }

    /// Records an updated row.
    pub fn record_update(
        &mut self,
        old_version: StorageVersionKey,
        new_version: StorageVersionKey,
        after: R,
    )
        ensures
            final(self).mutations@ == after_update(
                old(self).mutations@,
                old_version,
                new_version,
                after,
            ),
    {
        proof {
            lemma_position_of(self.mutations@, old_version);
        }
        match self.current_position(old_version) {
            Some(found) => {
                let change = match &self.mutations[found] {
                    StorageChange::Update { old_version: first, .. } => StorageChange::Update {
                        old_version: *first,
                        new_version,
                        after,
                    },
                    _ => StorageChange::Insert { new_version, after },
                };
                self.mutations.set(found, change);
            },
            None => {
                self.mutations.push(StorageChange::Update { old_version, new_version, after });
            },
        }
    }

    /// Records a deleted row.
    pub fn record_delete(&mut self, old_version: StorageVersionKey)
        ensures
            final(self).mutations@ == after_delete(old(self).mutations@, old_version),
    {
        proof {
            lemma_position_of(self.mutations@, old_version);
        }
        match self.current_position(old_version) {
            Some(found) => {
                let first: Option<StorageVersionKey> = match &self.mutations[found] {
                    StorageChange::Update { old_version: first, .. } => Some(*first),
                    _ => None,
                };
                match first {
                    Some(first) => {
                        self.mutations.set(found, StorageChange::Delete { old_version: first });
                    },
                    None => {
                        let _ = self.mutations.remove(found);
                    },
                }
            },
            None => {
                self.mutations.push(StorageChange::Delete { old_version });
            },
        }
    }

    /// The first change that leaves a row version behind.
    fn current_position(&self, key: StorageVersionKey) -> (found: Option<usize>)
        ensures
            match position_of(self.mutations@, key) {
                Some(position) => found is Some && found->0 == position,
                None => found is None,
            },
    {
        let mut i: usize = 0;
        while i < self.mutations.len()
            invariant
                i <= self.mutations@.len(),
                forall|k: int| 0 <= k < i ==> created(#[trigger] self.mutations@[k]) != Some(key),
            decreases self.mutations@.len() - i,
        {
            let matches_key: bool = match &self.mutations[i] {
                StorageChange::Insert { new_version, .. } => *new_version == key,
                StorageChange::Update { new_version, .. } => *new_version == key,
                StorageChange::Delete { .. } => false,
            };
            if matches_key {
                proof {
                    lemma_position_of(self.mutations@, key);
                }
                return Some(i);
            }
            i = i + 1;
        }
        proof {
            lemma_position_of(self.mutations@, key);
        }
        None
    }

    /// The changes.
    pub fn as_slice(&self) -> (changes: &[StorageChange<R>])
        ensures
            changes@ == self.mutations@,
    {
        self.mutations.as_slice()
    }

    /// Forgets all changes.
    pub fn clear(&mut self)
        ensures
            final(self).mutations@ == Seq::<StorageChange<R>>::empty(),
    {
        self.mutations.clear();
    }
}

// ---------------------------------------------------------------------------
// Laws
// ---------------------------------------------------------------------------
/// The rows after a change.
pub open spec fn applied<R>(
    rows: Map<StorageVersionKey, R>,
    change: StorageChange<R>,
) -> Map<StorageVersionKey, R> {
    match change {
        StorageChange::Insert { new_version, after } => rows.insert(new_version, after),
        StorageChange::Update { old_version, new_version, after } => rows.remove(
            old_version,
        ).insert(new_version, after),
        StorageChange::Delete { old_version } => rows.remove(old_version),
    }
}

/// The rows after a list of changes.
pub open spec fn all_applied<R>(
    rows: Map<StorageVersionKey, R>,
    changes: Seq<StorageChange<R>>,
) -> Map<StorageVersionKey, R>
    decreases changes.len(),
{
    if changes.len() == 0 {
        rows
    } else {
        applied(all_applied(rows, changes.drop_last()), changes.last())
    }
}

/// Whether a change neither leaves behind nor takes away a row version.
pub open spec fn untouched<R>(change: StorageChange<R>, key: StorageVersionKey) -> bool {
    created(change) != Some(key) && replaced(change) != Some(key)
}

/// Whether only the change at `found` touches a row version.
pub open spec fn touched_only_at<R>(
    changes: Seq<StorageChange<R>>,
    key: StorageVersionKey,
    found: int,
) -> bool {
    forall|i: int|
        0 <= i < changes.len() && i != found ==> untouched(#[trigger] changes[i], key)
}

/// Folding an update of a row version that the transaction itself created into
/// the change that created it has the same effect as the update: nothing else
/// in the transaction touches the old version or the new one.
pub proof fn law_folded_update<R>(
    rows: Map<StorageVersionKey, R>,
    changes: Seq<StorageChange<R>>,
    old_version: StorageVersionKey,
    new_version: StorageVersionKey,
    after: R,
)
    requires
        position_of(changes, old_version) matches Some(found) && touched_only_at(
            changes,
            old_version,
            found,
        ) && replaced(changes[found]) != Some(old_version) && replaced(changes[found]) != Some(
            new_version,
        ),
        touched_only_at(changes, new_version, -1),
        old_version != new_version,
        !rows.contains_key(old_version),
        !rows.contains_key(new_version),
    ensures
        all_applied(rows, after_update(changes, old_version, new_version, after)) =~= applied(
            all_applied(rows, changes),
            StorageChange::Update { old_version, new_version, after },
        ),
{
    lemma_position_of(changes, old_version);
    let found = position_of(changes, old_version)->0;
    lemma_fold_update(rows, changes, found, old_version, new_version, after);
}

proof fn lemma_absent<R>(
    rows: Map<StorageVersionKey, R>,
    changes: Seq<StorageChange<R>>,
    key: StorageVersionKey,
)
    requires
        !rows.contains_key(key),
        forall|i: int| 0 <= i < changes.len() ==> created(#[trigger] changes[i]) != Some(key),
    ensures
        !all_applied(rows, changes).contains_key(key),
    decreases changes.len(),
{
    if changes.len() > 0 {
        let earlier = changes.drop_last();
        assert forall|i: int| 0 <= i < earlier.len() implies created(#[trigger] earlier[i]) != Some(
            key,
        ) by {
            assert(created(changes[i]) != Some(key));
        }
        lemma_absent(rows, earlier, key);
        assert(created(changes.last()) != Some(key));
    }
}

proof fn lemma_fold_update<R>(
    rows: Map<StorageVersionKey, R>,
    changes: Seq<StorageChange<R>>,
    found: int,
    old_version: StorageVersionKey,
    new_version: StorageVersionKey,
    after: R,
)
    requires
        0 <= found < changes.len(),
        created(changes[found]) == Some(old_version),
        replaced(changes[found]) != Some(old_version),
        replaced(changes[found]) != Some(new_version),
        touched_only_at(changes, old_version, found),
        touched_only_at(changes, new_version, -1),
        old_version != new_version,
        !rows.contains_key(old_version),
        !rows.contains_key(new_version),
    ensures
        all_applied(
            rows,
            changes.update(found, updated_again(changes[found], new_version, after)),
        ) =~= applied(
            all_applied(rows, changes),
            StorageChange::Update { old_version, new_version, after },
        ),
    decreases changes.len(),
{
    let folded = changes.update(found, updated_again(changes[found], new_version, after));
    let earlier = changes.drop_last();
    let base = all_applied(rows, earlier);
    if found == changes.len() - 1 {
        assert(folded.drop_last() =~= earlier);
        assert forall|i: int| 0 <= i < earlier.len() implies created(#[trigger] earlier[i]) != Some(
            old_version,
        ) && created(earlier[i]) != Some(new_version) by {
            assert(untouched(changes[i], old_version));
            assert(untouched(changes[i], new_version));
        }
        lemma_absent(rows, earlier, old_version);
        lemma_absent(rows, earlier, new_version);
    } else {
        assert forall|i: int| 0 <= i < earlier.len() && i != found implies untouched(
            #[trigger] earlier[i],
            old_version,
        ) by {
            assert(untouched(changes[i], old_version));
        }
        assert forall|i: int| 0 <= i < earlier.len() && i != -1 implies untouched(
            #[trigger] earlier[i],
            new_version,
        ) by {
            assert(untouched(changes[i], new_version));
        }
        lemma_fold_update(rows, earlier, found, old_version, new_version, after);
        assert(folded.drop_last() =~= earlier.update(
            found,
            updated_again(earlier[found], new_version, after),
        ));
        assert(folded.last() == changes.last());
        assert(untouched(changes.last(), old_version));
        assert(untouched(changes.last(), new_version));
    }
}

/// Folding the deletion of a row version that the transaction itself created
/// into the change that created it has the same effect as the deletion:
/// nothing else in the transaction touches that version.
pub proof fn law_folded_delete<R>(
    rows: Map<StorageVersionKey, R>,
    changes: Seq<StorageChange<R>>,
    old_version: StorageVersionKey,
)
    requires
        position_of(changes, old_version) matches Some(found) && touched_only_at(
            changes,
            old_version,
            found,
        ) && replaced(changes[found]) != Some(old_version),
        !rows.contains_key(old_version),
    ensures
        all_applied(rows, after_delete(changes, old_version)) =~= applied(
            all_applied(rows, changes),
            StorageChange::<R>::Delete { old_version },
        ),
{
    lemma_position_of(changes, old_version);
    let found = position_of(changes, old_version)->0;
    lemma_fold_delete(rows, changes, found, old_version);
}

proof fn lemma_fold_delete<R>(
    rows: Map<StorageVersionKey, R>,
    changes: Seq<StorageChange<R>>,
    found: int,
    old_version: StorageVersionKey,
)
    requires
        0 <= found < changes.len(),
        created(changes[found]) == Some(old_version),
        replaced(changes[found]) != Some(old_version),
        touched_only_at(changes, old_version, found),
        !rows.contains_key(old_version),
    ensures
        ({
            let folded = match replaced(changes[found]) {
                None => changes.remove(found),
                Some(first) => changes.update(found, StorageChange::Delete { old_version: first }),
            };
            all_applied(rows, folded) =~= all_applied(rows, changes).remove(old_version)
        }),
    decreases changes.len(),
{
    let folded = match replaced(changes[found]) {
        None => changes.remove(found),
        Some(first) => changes.update(found, StorageChange::Delete { old_version: first }),
    };
    let earlier = changes.drop_last();
    if found == changes.len() - 1 {
        assert forall|i: int| 0 <= i < earlier.len() implies created(#[trigger] earlier[i]) != Some(
            old_version,
        ) by {
            assert(untouched(changes[i], old_version));
        }
        lemma_absent(rows, earlier, old_version);
        match replaced(changes[found]) {
            None => {
                assert(folded =~= earlier);
            },
            Some(first) => {
                assert(folded.drop_last() =~= earlier);
            },
        }
    } else {
        assert forall|i: int| 0 <= i < earlier.len() && i != found implies untouched(
            #[trigger] earlier[i],
            old_version,
        ) by {
            assert(untouched(changes[i], old_version));
        }
        lemma_fold_delete(rows, earlier, found, old_version);
        let folded_earlier = match replaced(earlier[found]) {
            None => earlier.remove(found),
            Some(first) => earlier.update(found, StorageChange::Delete { old_version: first }),
        };
        assert(folded.drop_last() =~= folded_earlier);
        assert(folded.last() == changes.last());
        assert(untouched(changes.last(), old_version));
    }
}

} // verus!
