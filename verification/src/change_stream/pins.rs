//! Runtime promises that history stays readable.
use super::error::ChangeStreamError;
use super::stream::ChangeStreamCursor;
use crate::ids::{ChangeStreamGeneration, StorageDataVersion, StorageId};
use std::collections::BTreeMap;
use vstd::prelude::*;

verus! {

broadcast use {
    vstd::std_specs::btree::group_btree_axioms,
    vstd::laws_cmp::group_laws_cmp,
};


/// What a registered pin protects.
#[derive(Debug, Clone, Copy, PartialEq, Eq, Structural)]
pub struct ChangeStreamRetentionPinInspection {
    pub storage_id: StorageId,
    pub generation: ChangeStreamGeneration,
    pub frontier: StorageDataVersion,
}

/// An explicit, runtime-only promise that history at `frontier` remains
/// readable for this exact stream incarnation.
///
/// Unlike a cursor, a pin takes part in reclamation safety. Releasing it
/// removes that authority. Pins are never persisted and therefore do not
/// survive process restart.
#[derive(Debug, PartialEq, Eq)]
pub struct ChangeStreamRetentionPin {
    pub storage_id: StorageId,
    pub generation: ChangeStreamGeneration,
    pub frontier: StorageDataVersion,
    pub id: u64,
    pub active: bool,
}

/// The registered pins, by their numbers. A later pin has a higher number.
pub struct RetentionPinRegistry {
    pub next_id: u64,
    pub pins: BTreeMap<u64, ChangeStreamRetentionPinInspection>,
}

/// Registered pins by their numbers.
pub type Pins = Map<u64, ChangeStreamRetentionPinInspection>;

/// Whether the pins have numbers below the next one.
pub open spec fn pins_kept(pins: Pins, next_id: u64) -> bool {
    forall|id: u64| #[trigger] pins.contains_key(id) ==> id < next_id
}

/// Whether a pin protects the history of this stream incarnation.
pub open spec fn protects(
    pin: ChangeStreamRetentionPinInspection,
    storage_id: StorageId,
    generation: ChangeStreamGeneration,
) -> bool {
    pin.storage_id == storage_id && pin.generation == generation
}

/// Whether a frontier is that of a pin that protects this stream incarnation,
/// and no such pin has a lower one.
pub open spec fn is_lowest(
    pins: Pins,
    storage_id: StorageId,
    generation: ChangeStreamGeneration,
    frontier: StorageDataVersion,
) -> bool {
    &&& exists|id: u64| #[trigger]
        pins.contains_key(id) && protects(pins[id], storage_id, generation) && pins[id].frontier
            == frontier
    &&& forall|id: u64| #[trigger]
        pins.contains_key(id) && protects(pins[id], storage_id, generation) ==> frontier.0
            <= pins[id].frontier.0
}

/// The lowest frontier among the pins that protect this stream incarnation.
pub open spec fn lowest_pin(
    pins: Pins,
    storage_id: StorageId,
    generation: ChangeStreamGeneration,
) -> Option<StorageDataVersion> {
    if exists|frontier: StorageDataVersion| is_lowest(pins, storage_id, generation, frontier) {
        Some(
            choose|frontier: StorageDataVersion|
                is_lowest(pins, storage_id, generation, frontier),
        )
    } else {
        None
    }
}

/// No protecting pin lies below the lowest one, and without one none protects.
pub proof fn lemma_lowest_pin(
    pins: Pins,
    storage_id: StorageId,
    generation: ChangeStreamGeneration,
    id: u64,
)
    requires
        pins.contains_key(id),
        protects(pins[id], storage_id, generation),
    ensures
        lowest_pin(pins, storage_id, generation) matches Some(lowest) && lowest.0
            <= pins[id].frontier.0,
    decreases pins[id].frontier.0,
{
    let frontier = pins[id].frontier;
    if is_lowest(pins, storage_id, generation, frontier) {
        let lowest = choose|other: StorageDataVersion|
            is_lowest(pins, storage_id, generation, other);
        assert(is_lowest(pins, storage_id, generation, lowest));
    } else {
        let other = choose|other: u64| #[trigger]
            pins.contains_key(other) && protects(pins[other], storage_id, generation)
                && pins[other].frontier.0 < frontier.0;
        lemma_lowest_pin(pins, storage_id, generation, other);
    }
}

/// Whether a list is that of all pins with their numbers, in ascending order.
pub open spec fn listed(known: Seq<(u64, ChangeStreamRetentionPinInspection)>, pins: Pins) -> bool {
    &&& forall|i: int, j: int|
        0 <= i < j < known.len() ==> (#[trigger] known[i]).0 < (#[trigger] known[j]).0
    &&& forall|i: int|
        0 <= i < known.len() ==> pins.contains_key((#[trigger] known[i]).0) && pins[known[i].0]
            == known[i].1
    &&& forall|id: u64| #[trigger]
        pins.contains_key(id) ==> exists|i: int|
            0 <= i < known.len() && (#[trigger] known[i]).0 == id
}

/// Whether a list is that of all pins, those with lower numbers first.
pub open spec fn lists(list: Seq<ChangeStreamRetentionPinInspection>, pins: Pins) -> bool {
    exists|ids: Seq<u64>| #[trigger] lists_by(list, pins, ids)
}

/// Whether a list is that of the pins with these numbers, which are all in
/// ascending order.
pub open spec fn lists_by(
    list: Seq<ChangeStreamRetentionPinInspection>,
    pins: Pins,
    ids: Seq<u64>,
) -> bool {
    &&& forall|i: int, j: int| 0 <= i < j < ids.len() ==> #[trigger] ids[i] < #[trigger] ids[j]
    &&& forall|id: u64| #[trigger] pins.contains_key(id) <==> ids.contains(id)
    &&& list == ids.map_values(|id: u64| pins[id])
}

impl ChangeStreamRetentionPin {
    /// The cursor at the protected frontier.
    pub fn cursor(&self) -> (cursor: ChangeStreamCursor)
        ensures
            cursor == (ChangeStreamCursor {
                storage_id: self.storage_id,
                generation: self.generation,
                frontier: self.frontier,
            }),
    {
        ChangeStreamCursor {
            storage_id: self.storage_id,
            generation: self.generation,
            frontier: self.frontier,
        }
    }

    /// The protected frontier.
    pub fn frontier(&self) -> (frontier: StorageDataVersion)
        ensures
            frontier == self.frontier,
    {
        self.frontier
    }

    /// Takes the pin out of its registry, where it still stands there.
    pub fn unregister(&mut self, registry: &mut RetentionPinRegistry)
        requires
            old(registry).wf(),
        ensures
            final(registry).wf(),
            final(registry).next_id == old(registry).next_id,
            !final(self).active,
            final(self).storage_id == old(self).storage_id,
            final(self).generation == old(self).generation,
            final(self).frontier == old(self).frontier,
            final(self).id == old(self).id,
            final(registry).pins@ == if old(self).active {
                old(registry).pins@.remove(old(self).id)
            } else {
                old(registry).pins@
            },
    {
        if self.active {
            registry.pins.remove(&self.id);
            self.active = false;
        }
    }

    /// Releases this runtime retention authority.
    pub fn release(self, registry: &mut RetentionPinRegistry)
        requires
            old(registry).wf(),
        ensures
            final(registry).wf(),
            final(registry).next_id == old(registry).next_id,
            final(registry).pins@ == if self.active {
                old(registry).pins@.remove(self.id)
            } else {
                old(registry).pins@
            },
    {
        let mut pin = self;
        pin.unregister(registry);
    }
}

impl RetentionPinRegistry {
    /// What every operation keeps of a registry.
    pub open spec fn wf(&self) -> bool {
        pins_kept(self.pins@, self.next_id)
    }

    /// A registry without pins.
    pub fn new() -> (registry: RetentionPinRegistry)
        ensures
            registry.wf(),
            registry.next_id == 0,
            registry.pins@ == Pins::empty(),
    {
        RetentionPinRegistry { next_id: 0, pins: BTreeMap::new() }
    }

    /// The lowest frontier that is protected of this stream incarnation.
    pub fn lowest(&self, storage_id: StorageId, generation: ChangeStreamGeneration) -> (lowest:
        Option<StorageDataVersion>)
        ensures
            lowest == lowest_pin(self.pins@, storage_id, generation),
    {
        let known: Vec<(u64, ChangeStreamRetentionPinInspection)> = self.entries();
        let mut lowest: Option<StorageDataVersion> = None;
        let mut i: usize = 0;
        while i < known.len()
            invariant
                i <= known@.len(),
                listed(known@, self.pins@),
                match lowest {
                    None => forall|k: int|
                        0 <= k < i ==> !protects((#[trigger] known@[k]).1, storage_id, generation),
                    Some(frontier) => {
                        &&& exists|k: int|
                            0 <= k < i && protects(
                                (#[trigger] known@[k]).1,
                                storage_id,
                                generation,
                            ) && known@[k].1.frontier == frontier
                        &&& forall|k: int|
                            0 <= k < i && protects(
                                (#[trigger] known@[k]).1,
                                storage_id,
                                generation,
                            ) ==> frontier.0 <= known@[k].1.frontier.0
                    },
                },
            decreases known@.len() - i,
        {
            let pin: ChangeStreamRetentionPinInspection = known[i].1;
            assert(known@[i as int].1 == pin);
            if pin.storage_id == storage_id && pin.generation == generation {
                lowest = match lowest {
                    Some(frontier) => if pin.frontier.0 < frontier.0 {
                        Some(pin.frontier)
                    } else {
                        Some(frontier)
                    },
                    None => Some(pin.frontier),
                };
            }
            i = i + 1;
        }
        proof {
            let pins = self.pins@;
            match lowest {
                None => {
                    assert forall|id: u64| #[trigger] pins.contains_key(id) implies !protects(
                        pins[id],
                        storage_id,
                        generation,
                    ) by {
                        let k = choose|k: int|
                            0 <= k < known@.len() && (#[trigger] known@[k]).0 == id;
                        assert(known@[k].1 == pins[id]);
                    }
                },
                Some(frontier) => {
                    let k = choose|k: int|
                        0 <= k < known@.len() && protects(
                            (#[trigger] known@[k]).1,
                            storage_id,
                            generation,
                        ) && known@[k].1.frontier == frontier;
                    assert(pins.contains_key(known@[k].0));
                    assert forall|id: u64| #[trigger]
                        pins.contains_key(id) && protects(
                            pins[id],
                            storage_id,
                            generation,
                        ) implies frontier.0 <= pins[id].frontier.0 by {
                        let j = choose|j: int|
                            0 <= j < known@.len() && (#[trigger] known@[j]).0 == id;
                        assert(known@[j].1 == pins[id]);
                    }
                    assert(is_lowest(pins, storage_id, generation, frontier));
                    lemma_lowest_pin(pins, storage_id, generation, known@[k].0);
                    let other = lowest_pin(pins, storage_id, generation)->0;
                    assert(is_lowest(pins, storage_id, generation, other));
                },
            }
        }
        lowest
    }

    /// The registered pins with their numbers, in the order in which they were
    /// acquired.
    fn entries(&self) -> (known: Vec<(u64, ChangeStreamRetentionPinInspection)>)
        ensures
            listed(known@, self.pins@),
    {
        let mut known: Vec<(u64, ChangeStreamRetentionPinInspection)> = Vec::new();
        let items = self.pins.iter();
        let ghost shown = vstd::std_specs::iter::IteratorSpec::remaining(&items);
        for entry in it: items
            invariant
                known@.len() == it.index(),
                it.seq() == shown,
                forall|k: int|
                    0 <= k < known@.len() ==> (#[trigger] known@[k]).0 == *shown[k].0
                        && known@[k].1 == *shown[k].1,
        {
            known.push((*entry.0, *entry.1));
        }
        proof {
            let ids = shown.map_values(|entry: (&u64, &ChangeStreamRetentionPinInspection)| *entry.0);
            assert(known@.len() == shown.len());
            assert(vstd::std_specs::btree::increasing_seq(ids));
            assert forall|i: int, j: int| 0 <= i < j < known@.len() implies (
            #[trigger] known@[i]).0 < (#[trigger] known@[j]).0 by {
                assert(vstd::std_specs::cmp::OrdSpec::cmp_spec(&ids[i], &ids[j]) is Less);
                assert(ids[i] == known@[i].0 && ids[j] == known@[j].0);
            }
            assert forall|i: int| 0 <= i < known@.len() implies self.pins@.contains_key(
                (#[trigger] known@[i]).0,
            ) && self.pins@[known@[i].0] == known@[i].1 by {
                assert(self.pins@.contains_key(*shown[i].0));
            }
            assert forall|id: u64| #[trigger] self.pins@.contains_key(id) implies exists|i: int|
                0 <= i < known@.len() && (#[trigger] known@[i]).0 == id by {
                assert(shown.contains((&id, &self.pins@[id])));
                let i = choose|i: int| 0 <= i < shown.len() && shown[i] == (&id, &self.pins@[id]);
                assert(known@[i].0 == id);
            }
        }
        known
    }

    /// The registered pins, in the order in which they were acquired.
    pub fn inspection(&self) -> (pins: Vec<ChangeStreamRetentionPinInspection>)
        ensures
            lists(pins@, self.pins@),
    {
        let known: Vec<(u64, ChangeStreamRetentionPinInspection)> = self.entries();
        let mut pins: Vec<ChangeStreamRetentionPinInspection> = Vec::new();
        let mut i: usize = 0;
        while i < known.len()
            invariant
                i <= known@.len(),
                pins@.len() == i,
                forall|k: int| 0 <= k < i ==> #[trigger] pins@[k] == known@[k].1,
            decreases known@.len() - i,
        {
            pins.push(known[i].1);
            i = i + 1;
        }
        proof {
            let ids = known@.map_values(|entry: (u64, ChangeStreamRetentionPinInspection)| entry.0);
            assert forall|id: u64| #[trigger] self.pins@.contains_key(id) <==> ids.contains(id) by {
                if self.pins@.contains_key(id) {
                    let k = choose|k: int| 0 <= k < known@.len() && (#[trigger] known@[k]).0 == id;
                    assert(ids[k] == id);
                }
                if ids.contains(id) {
                    let k = choose|k: int| 0 <= k < ids.len() && ids[k] == id;
                    assert(known@[k].0 == id);
                }
            }
            assert(pins@ =~= ids.map_values(|id: u64| self.pins@[id]));
            assert(lists_by(pins@, self.pins@, ids));
        }
        pins
    }

    /// Registers a pin at the position of a cursor that was checked against
    /// its stream.
    pub fn register(&mut self, cursor: ChangeStreamCursor) -> (pin: Result<
        ChangeStreamRetentionPin,
        ChangeStreamError,
    >)
        requires
            old(self).wf(),
        ensures
            final(self).wf(),
            if old(self).next_id == u64::MAX {
                pin == Err::<ChangeStreamRetentionPin, ChangeStreamError>(
                    ChangeStreamError::VersionExhausted,
                ) && *final(self) == *old(self)
            } else {
                &&& pin == Ok::<ChangeStreamRetentionPin, ChangeStreamError>(
                    ChangeStreamRetentionPin {
                        storage_id: cursor.storage_id,
                        generation: cursor.generation,
                        frontier: cursor.frontier,
                        id: old(self).next_id,
                        active: true,
                    },
                )
                &&& final(self).next_id == old(self).next_id + 1
                &&& final(self).pins@ == old(self).pins@.insert(
                    old(self).next_id,
                    ChangeStreamRetentionPinInspection {
                        storage_id: cursor.storage_id,
                        generation: cursor.generation,
                        frontier: cursor.frontier,
                    },
                )
            },
    {
        let id: u64 = self.next_id;
        if id == u64::MAX {
            return Err(ChangeStreamError::VersionExhausted);
        }
        self.next_id = id + 1;
        self.pins.insert(
            id,
            ChangeStreamRetentionPinInspection {
                storage_id: cursor.storage_id,
                generation: cursor.generation,
                frontier: cursor.frontier,
            },
        );
        Ok(
            ChangeStreamRetentionPin {
                storage_id: cursor.storage_id,
                generation: cursor.generation,
                frontier: cursor.frontier,
                id,
                active: true,
            },
        )
    }

    /// Moves a pin forward to a frontier that was checked against its stream.
    /// `registered_here` tells whether the pin came from this registry.
    pub fn advance(
        &mut self,
        pin: &mut ChangeStreamRetentionPin,
        registered_here: bool,
        frontier: StorageDataVersion,
    ) -> (done: Result<(), ChangeStreamError>)
        requires
            old(self).wf(),
        ensures
            final(self).wf(),
            ({
                let known = old(self).pins@;
                let id = old(pin).id;
                if !registered_here || !old(pin).active || !known.contains_key(id) || !protects(
                    known[id],
                    old(pin).storage_id,
                    old(pin).generation,
                ) {
                    &&& done == Err::<(), ChangeStreamError>(
                        ChangeStreamError::RetentionPinUnavailable,
                    )
                    &&& *final(self) == *old(self)
                    &&& *final(pin) == *old(pin)
                } else {
                    &&& done == Ok::<(), ChangeStreamError>(())
                    &&& *final(pin) == (ChangeStreamRetentionPin { frontier, ..*old(pin) })
                    &&& final(self).next_id == old(self).next_id
                    &&& final(self).pins@ == known.insert(
                        id,
                        ChangeStreamRetentionPinInspection { frontier, ..known[id] },
                    )
                }
            }),
    {
        if !registered_here || !pin.active {
            return Err(ChangeStreamError::RetentionPinUnavailable);
        }
        let mut known: ChangeStreamRetentionPinInspection = match self.pins.get(&pin.id) {
            None => {
                return Err(ChangeStreamError::RetentionPinUnavailable);
            },
            Some(found) => *found,
        };
        if known.storage_id != pin.storage_id || known.generation != pin.generation {
            return Err(ChangeStreamError::RetentionPinUnavailable);
        }
        known.frontier = frontier;
        self.pins.insert(pin.id, known);
        pin.frontier = frontier;
        Ok(())
    }
}

} // verus!
