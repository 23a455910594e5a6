//! The overlay of a projection: which versions its delta segments replaced, and
//! the rows that they added.
use super::error::ColumnarError;
use crate::change_stream::types::StorageVersionKey;
use crate::value::{self, ScalarValue, ScalarView};
use vstd::prelude::*;

verus! {

// ---------------------------------------------------------------------------
// Order of row versions
// ---------------------------------------------------------------------------
/// What row versions are ordered by: engine, row, version, and the storage
/// last.
pub open spec fn key_rank(key: StorageVersionKey) -> (int, int, int, int, int) {
    match key {
        StorageVersionKey::Heap { storage_id, row_id } => (
            1,
            row_id.page.0 as int,
            row_id.slot as int,
            row_id.generation as int,
            storage_id.0 as int,
        ),
        StorageVersionKey::Lsm { storage_id, row_id, version } => (
            2,
            row_id.0 as int,
            version.0 as int,
            0,
            storage_id.0 as int,
        ),
    }
}

/// Whether a row version comes before another.
pub open spec fn key_less(left: StorageVersionKey, right: StorageVersionKey) -> bool {
    let a = key_rank(left);
    let b = key_rank(right);
    if a.0 != b.0 {
        a.0 < b.0
    } else if a.1 != b.1 {
        a.1 < b.1
    } else if a.2 != b.2 {
        a.2 < b.2
    } else if a.3 != b.3 {
        a.3 < b.3
    } else {
        a.4 < b.4
    }
}

/// Row versions are totally ordered.
pub proof fn lemma_key_order(a: StorageVersionKey, b: StorageVersionKey, c: StorageVersionKey)
    ensures
        !key_less(a, a),
        key_less(a, b) || key_less(b, a) || a == b,
        key_less(a, b) ==> !key_less(b, a),
        key_less(a, b) && key_less(b, c) ==> key_less(a, c),
{
}

fn sort_key(key: StorageVersionKey) -> (rank: (u64, u64, u64, u64, u64))
    ensures
        rank.0 == key_rank(key).0,
        rank.1 == key_rank(key).1,
        rank.2 == key_rank(key).2,
        rank.3 == key_rank(key).3,
        rank.4 == key_rank(key).4,
{
    match key {
        StorageVersionKey::Heap { storage_id, row_id } => (
            1,
            row_id.page.0,
            row_id.slot as u64,
            row_id.generation as u64,
            storage_id.0,
        ),
        StorageVersionKey::Lsm { storage_id, row_id, version } => (
            2,
            row_id.0,
            version.0,
            0,
            storage_id.0,
        ),
    }
}

/// Whether a row version comes before another.
pub fn version_key_before(left: StorageVersionKey, right: StorageVersionKey) -> (before: bool)
    ensures
        before == key_less(left, right),
{
    let a = sort_key(left);
    let b = sort_key(right);
    if a.0 != b.0 {
        a.0 < b.0
    } else if a.1 != b.1 {
        a.1 < b.1
    } else if a.2 != b.2 {
        a.2 < b.2
    } else if a.3 != b.3 {
        a.3 < b.3
    } else {
        a.4 < b.4
    }
}

/// Whether row versions ascend, and so do not repeat.
pub open spec fn ascending(keys: Seq<StorageVersionKey>) -> bool {
    forall|i: int, j: int| 0 <= i < j < keys.len() ==> key_less(keys[i], keys[j])
}

/// How many of the first `n` row versions come before one.
pub open spec fn rank_in(keys: Seq<StorageVersionKey>, key: StorageVersionKey, n: int) -> int
    decreases n,
{
    if n <= 0 {
        0
    } else {
        rank_in(keys, key, n - 1) + if key_less(keys[n - 1], key) {
            1int
        } else {
            0
        }
    }
}

/// The place of a row version among ascending ones.
pub open spec fn place_among(keys: Seq<StorageVersionKey>, key: StorageVersionKey) -> int {
    rank_in(keys, key, keys.len() as int)
}

proof fn lemma_rank(keys: Seq<StorageVersionKey>, key: StorageVersionKey, place: int, n: int)
    requires
        0 <= place <= keys.len(),
        0 <= n <= keys.len(),
        forall|i: int| 0 <= i < place ==> key_less(#[trigger] keys[i], key),
        forall|i: int| place <= i < keys.len() ==> !key_less(#[trigger] keys[i], key),
    ensures
        rank_in(keys, key, n) == if n <= place {
            n
        } else {
            place
        },
    decreases n,
{
    if n > 0 {
        lemma_rank(keys, key, place, n - 1);
        assert(n - 1 < place ==> key_less(keys[n - 1], key));
    }
}

/// A place is where it separates what comes before from what does not.
pub proof fn lemma_place_among(keys: Seq<StorageVersionKey>, key: StorageVersionKey)
    requires
        ascending(keys),
    ensures
        0 <= place_among(keys, key) <= keys.len(),
        forall|i: int| 0 <= i < place_among(keys, key) ==> key_less(#[trigger] keys[i], key),
        forall|i: int|
            place_among(keys, key) <= i < keys.len() ==> !key_less(#[trigger] keys[i], key),
        keys.contains(key) <==> place_among(keys, key) < keys.len() && keys[place_among(
            keys,
            key,
        )] == key,
    decreases keys.len(),
{
    lemma_split(keys, key, keys.len() as int);
    let place = place_among(keys, key);
    if keys.contains(key) {
        let i = choose|i: int| 0 <= i < keys.len() && keys[i] == key;
        lemma_key_order(key, key, key);
        assert(!key_less(keys[i], key));
        if place < i {
            assert(key_less(keys[place], keys[i]));
            assert(!key_less(keys[place], key));
        }
    }
}

proof fn lemma_split(keys: Seq<StorageVersionKey>, key: StorageVersionKey, n: int)
    requires
        ascending(keys),
        0 <= n <= keys.len(),
    ensures
        0 <= rank_in(keys, key, n) <= n,
        forall|i: int| 0 <= i < rank_in(keys, key, n) ==> key_less(#[trigger] keys[i], key),
        forall|i: int| rank_in(keys, key, n) <= i < n ==> !key_less(#[trigger] keys[i], key),
    decreases n,
{
    if n > 0 {
        lemma_split(keys, key, n - 1);
        let before = rank_in(keys, key, n - 1);
        if key_less(keys[n - 1], key) && before < n - 1 {
            assert(key_less(keys[before], keys[n - 1]));
            lemma_key_order(keys[before], keys[n - 1], key);
            assert(!key_less(keys[before], key));
        }
    }
}

/// The place of a row version among ascending ones, and whether it is there.
pub fn search(keys: &[StorageVersionKey], key: StorageVersionKey) -> (found: (usize, bool))
    requires
        ascending(keys@),
    ensures
        found.0 == place_among(keys@, key),
        found.0 <= keys@.len(),
        found.1 == keys@.contains(key),
{
    let mut low: usize = 0;
    let mut high: usize = keys.len();
    while low < high
        invariant
            low <= high <= keys@.len(),
            ascending(keys@),
            forall|i: int| 0 <= i < low ==> key_less(#[trigger] keys@[i], key),
            forall|i: int| high <= i < keys@.len() ==> !key_less(#[trigger] keys@[i], key),
        decreases high - low,
    {
        let middle: usize = low + (high - low) / 2;
        if version_key_before(keys[middle], key) {
            assert forall|i: int| 0 <= i < middle + 1 implies key_less(
                #[trigger] keys@[i],
                key,
            ) by {
                if i < middle {
                    assert(key_less(keys@[i], keys@[middle as int]));
                    lemma_key_order(keys@[i], keys@[middle as int], key);
                }
            }
            low = middle + 1;
        } else {
            assert forall|i: int| middle <= i < keys@.len() implies !key_less(
                #[trigger] keys@[i],
                key,
            ) by {
                if middle < i {
                    assert(key_less(keys@[middle as int], keys@[i]));
                    lemma_key_order(keys@[middle as int], keys@[i], key);
                }
            }
            high = middle;
        }
    }
    proof {
        lemma_rank(keys@, key, low as int, keys@.len() as int);
        lemma_place_among(keys@, key);
    }
    (low, low < keys.len() && keys[low] == key)
}

/// A version that is added in its place keeps the order.
pub proof fn lemma_insert_ascending(keys: Seq<StorageVersionKey>, key: StorageVersionKey)
    requires
        ascending(keys),
        !keys.contains(key),
    ensures
        ascending(keys.insert(place_among(keys, key), key)),
        forall|other: StorageVersionKey|
            #[trigger] keys.insert(place_among(keys, key), key).contains(other) <==> other == key
                || keys.contains(other),
{
    let place = place_among(keys, key);
    lemma_place_among(keys, key);
    let grown = keys.insert(place, key);
    assert forall|i: int, j: int| 0 <= i < j < grown.len() implies key_less(
        grown[i],
        grown[j],
    ) by {
        if j == place {
            assert(grown[i] == keys[i]);
        } else if i == place {
            assert(grown[j] == keys[j - 1]);
            assert(!key_less(keys[j - 1], key));
            lemma_key_order(key, keys[j - 1], key);
        } else {
            let a = if i < place {
                i
            } else {
                i - 1
            };
            let b = if j < place {
                j
            } else {
                j - 1
            };
            assert(grown[i] == keys[a] && grown[j] == keys[b]);
        }
    }
    assert forall|other: StorageVersionKey| #[trigger] grown.contains(other) <==> other == key
        || keys.contains(other) by {
        assert(grown[place] == key);
        if keys.contains(other) {
            let i = choose|i: int| 0 <= i < keys.len() && keys[i] == other;
            assert(grown[if i < place { i } else { i + 1 }] == other);
        }
        if grown.contains(other) {
            let i = choose|i: int| 0 <= i < grown.len() && grown[i] == other;
            if i < place {
                assert(keys[i] == other);
            } else if i > place {
                assert(keys[i - 1] == other);
            }
        }
    }
}

proof fn lemma_remove_ascending(keys: Seq<StorageVersionKey>, key: StorageVersionKey)
    requires
        ascending(keys),
        keys.contains(key),
    ensures
        0 <= place_among(keys, key) < keys.len(),
        ascending(keys.remove(place_among(keys, key))),
        forall|other: StorageVersionKey|
            #[trigger] keys.remove(place_among(keys, key)).contains(other) <==> other != key
                && keys.contains(other),
{
    let place = place_among(keys, key);
    lemma_place_among(keys, key);
    let shrunk = keys.remove(place);
    assert forall|i: int, j: int| 0 <= i < j < shrunk.len() implies key_less(
        shrunk[i],
        shrunk[j],
    ) by {
        let a = if i < place {
            i
        } else {
            i + 1
        };
        let b = if j < place {
            j
        } else {
            j + 1
        };
        assert(shrunk[i] == keys[a] && shrunk[j] == keys[b]);
    }
    assert forall|other: StorageVersionKey| #[trigger] shrunk.contains(other) <==> other != key
        && keys.contains(other) by {
        if keys.contains(other) && other != key {
            let i = choose|i: int| 0 <= i < keys.len() && keys[i] == other;
            assert(shrunk[if i < place { i } else { i - 1 }] == other);
        }
        if shrunk.contains(other) {
            let i = choose|i: int| 0 <= i < shrunk.len() && shrunk[i] == other;
            let a = if i < place {
                i
            } else {
                i + 1
            };
            assert(keys[a] == other);
            lemma_key_order(key, key, key);
            if a < place {
                assert(key_less(keys[a], keys[place]));
            } else {
                assert(key_less(keys[place], keys[a]));
            }
        }
    }
}

// ---------------------------------------------------------------------------
// Overlays
// ---------------------------------------------------------------------------
/// One row change of a delta segment. `R` is the row after it.
#[derive(Debug, PartialEq, Eq)]
pub struct DeltaMutation<R> {
    pub old_version: Option<StorageVersionKey>,
    pub new_version: Option<StorageVersionKey>,
    pub after: Option<R>,
}

/// A row change with the projected values of the row.
pub type ProjectedDeltaMutation = DeltaMutation<Vec<ScalarValue>>;

/// The versions that delta segments replaced, and the rows that they added, in
/// the order of their versions. `R` is a row.
#[derive(Debug)]
pub struct DeltaOverlay<R> {
    pub suppressed: Vec<StorageVersionKey>,
    pub live_keys: Vec<StorageVersionKey>,
    pub live_rows: Vec<R>,
}

/// What an overlay holds.
pub struct OverlayView<R> {
    pub suppressed: Seq<StorageVersionKey>,
    pub live_keys: Seq<StorageVersionKey>,
    pub live_rows: Seq<R>,
}

impl<R> View for DeltaOverlay<R> {
    type V = OverlayView<R>;

    open spec fn view(&self) -> OverlayView<R> {
        OverlayView {
            suppressed: self.suppressed@,
            live_keys: self.live_keys@,
            live_rows: self.live_rows@,
        }
    }
}

/// Whether versions ascend, each live version has a row, and no version is both
/// replaced and live.
pub open spec fn overlay_kept<R>(overlay: OverlayView<R>) -> bool {
    &&& ascending(overlay.suppressed)
    &&& ascending(overlay.live_keys)
    &&& overlay.live_keys.len() == overlay.live_rows.len()
    &&& forall|key: StorageVersionKey|
        overlay.suppressed.contains(key) ==> !#[trigger] overlay.live_keys.contains(key)
}

/// An overlay with nothing in it.
pub open spec fn no_overlay<R>() -> OverlayView<R> {
    OverlayView { suppressed: Seq::empty(), live_keys: Seq::empty(), live_rows: Seq::empty() }
}

/// An overlay in which a version was replaced.
pub open spec fn replaced<R>(overlay: OverlayView<R>, old_version: StorageVersionKey) -> OverlayView<
    R,
> {
    let suppressed = overlay.suppressed.insert(
        place_among(overlay.suppressed, old_version),
        old_version,
    );
    if overlay.live_keys.contains(old_version) {
        let place = place_among(overlay.live_keys, old_version);
        OverlayView {
            suppressed,
            live_keys: overlay.live_keys.remove(place),
            live_rows: overlay.live_rows.remove(place),
        }
    } else {
        OverlayView { suppressed, ..overlay }
    }
}

/// An overlay in which a row was added.
pub open spec fn added<R>(overlay: OverlayView<R>, new_version: StorageVersionKey, row: R)
    -> OverlayView<R> {
    let place = place_among(overlay.live_keys, new_version);
    OverlayView {
        suppressed: overlay.suppressed,
        live_keys: overlay.live_keys.insert(place, new_version),
        live_rows: overlay.live_rows.insert(place, row),
    }
}

/// An overlay after the first half of a row change: the version that it
/// replaces.
pub open spec fn step_old<R>(
    overlay: OverlayView<R>,
    old_version: Option<StorageVersionKey>,
) -> Result<OverlayView<R>, ColumnarError> {
    match old_version {
        Some(key) => if overlay.suppressed.contains(key) {
            Err(ColumnarError::Corrupt("one version has multiple durable delta transitions"))
        } else {
            Ok(replaced(overlay, key))
        },
        None => Ok(overlay),
    }
}

/// An overlay after the second half of a row change: the row that it adds.
pub open spec fn step_new<R>(
    overlay: OverlayView<R>,
    new_version: Option<StorageVersionKey>,
    after: Option<R>,
    invalid: &'static str,
) -> Result<OverlayView<R>, ColumnarError> {
    match (new_version, after) {
        (Some(key), Some(row)) => if overlay.suppressed.contains(key)
            || overlay.live_keys.contains(key) {
            Err(ColumnarError::Corrupt("duplicate or suppressed new delta version"))
        } else {
            Ok(added(overlay, key, row))
        },
        (None, None) => Ok(overlay),
        _ => Err(ColumnarError::Corrupt(invalid)),
    }
}

/// An overlay after a row change.
pub open spec fn step<R>(
    overlay: OverlayView<R>,
    mutation: DeltaMutation<R>,
    invalid: &'static str,
) -> Result<OverlayView<R>, ColumnarError> {
    match step_old(overlay, mutation.old_version) {
        Err(error) => Err(error),
        Ok(next) => step_new(next, mutation.new_version, mutation.after, invalid),
    }
}

/// An overlay after the first `n` row changes.
pub open spec fn steps<R>(
    overlay: OverlayView<R>,
    mutations: Seq<DeltaMutation<R>>,
    invalid: &'static str,
    n: int,
) -> Result<OverlayView<R>, ColumnarError>
    decreases n,
{
    if n <= 0 {
        Ok(overlay)
    } else {
        match steps(overlay, mutations, invalid, n - 1) {
            Err(error) => Err(error),
            Ok(next) => step(next, mutations[n - 1], invalid),
        }
    }
}

/// A refused row change refuses all that follow.
pub proof fn lemma_steps_prefix<R>(
    overlay: OverlayView<R>,
    mutations: Seq<DeltaMutation<R>>,
    invalid: &'static str,
    n: int,
    m: int,
)
    requires
        n <= m,
        steps(overlay, mutations, invalid, n) is Err,
    ensures
        steps(overlay, mutations, invalid, m) == steps(overlay, mutations, invalid, n),
    decreases m - n,
{
    if n < m {
        lemma_steps_prefix(overlay, mutations, invalid, n, m - 1);
    }
}

/// A row change keeps an overlay in order: in particular a replaced version is
/// not live.
pub proof fn law_step_keeps_overlay<R>(
    overlay: OverlayView<R>,
    mutation: DeltaMutation<R>,
    invalid: &'static str,
)
    requires
        overlay_kept(overlay),
    ensures
        step(overlay, mutation, invalid) matches Ok(next) ==> overlay_kept(next),
{
    if step(overlay, mutation, invalid) is Ok {
        lemma_step_old_keeps(overlay, mutation.old_version);
        let next = step_old(overlay, mutation.old_version)->Ok_0;
        if let Some(key) = mutation.new_version {
            if let Some(row) = mutation.after {
                lemma_place_among(next.live_keys, key);
                lemma_insert_ascending(next.live_keys, key);
            }
        }
    }
}

/// The first half of a row change keeps an overlay in order.
pub proof fn lemma_step_old_keeps<R>(overlay: OverlayView<R>, old_version: Option<StorageVersionKey>)
    requires
        overlay_kept(overlay),
    ensures
        step_old(overlay, old_version) matches Ok(next) ==> overlay_kept(next),
{
    if let Some(key) = old_version {
        if !overlay.suppressed.contains(key) {
            lemma_place_among(overlay.suppressed, key);
            lemma_insert_ascending(overlay.suppressed, key);
            if overlay.live_keys.contains(key) {
                lemma_remove_ascending(overlay.live_keys, key);
            }
        }
    }
}

/// Row changes keep an overlay in order.
pub proof fn law_steps_keep_overlay<R>(
    overlay: OverlayView<R>,
    mutations: Seq<DeltaMutation<R>>,
    invalid: &'static str,
    n: int,
)
    requires
        overlay_kept(overlay),
        0 <= n <= mutations.len(),
    ensures
        steps(overlay, mutations, invalid, n) matches Ok(next) ==> overlay_kept(next),
    decreases n,
{
    if n > 0 {
        law_steps_keep_overlay(overlay, mutations, invalid, n - 1);
        if let Ok(next) = steps(overlay, mutations, invalid, n - 1) {
            law_step_keeps_overlay(next, mutations[n - 1], invalid);
        }
    }
}

/// After a row change its old version is replaced and not live, its new version
/// is live with the new row, and every other version is as before.
pub proof fn law_step_moves_versions<R>(
    overlay: OverlayView<R>,
    mutation: DeltaMutation<R>,
    invalid: &'static str,
)
    requires
        overlay_kept(overlay),
        step(overlay, mutation, invalid) is Ok,
    ensures
        ({
            let next = step(overlay, mutation, invalid)->Ok_0;
            &&& forall|key: StorageVersionKey| #[trigger]
                next.suppressed.contains(key) <==> overlay.suppressed.contains(key)
                    || mutation.old_version == Some(key)
            &&& forall|key: StorageVersionKey| #[trigger]
                next.live_keys.contains(key) <==> mutation.new_version == Some(key) || (
                overlay.live_keys.contains(key) && mutation.old_version != Some(key))
            &&& mutation.new_version matches Some(key) ==> next.live_rows[place_among(
                next.live_keys,
                key,
            )] == mutation.after->0
        }),
{
    let middle = step_old(overlay, mutation.old_version)->Ok_0;
    lemma_step_old_keeps(overlay, mutation.old_version);
    if let Some(key) = mutation.old_version {
        lemma_insert_ascending(overlay.suppressed, key);
        if overlay.live_keys.contains(key) {
            lemma_remove_ascending(overlay.live_keys, key);
        }
    }
    if let Some(key) = mutation.new_version {
        let row = mutation.after->0;
        let place = place_among(middle.live_keys, key);
        lemma_place_among(middle.live_keys, key);
        lemma_insert_ascending(middle.live_keys, key);
        let grown = middle.live_keys.insert(place, key);
        assert(grown[place] == key);
        lemma_place_among(grown, key);
        let found = place_among(grown, key);
        if found != place {
            lemma_key_order(key, key, key);
            if found < place {
                assert(key_less(grown[found], grown[place]));
            } else {
                assert(key_less(grown[place], grown[found]));
            }
        }
    }
}

/// Once a version is replaced, no later row change brings it back.
pub proof fn law_replaced_versions_stay_replaced<R>(
    overlay: OverlayView<R>,
    mutations: Seq<DeltaMutation<R>>,
    invalid: &'static str,
    n: int,
    key: StorageVersionKey,
)
    requires
        overlay_kept(overlay),
        0 <= n <= mutations.len(),
        overlay.suppressed.contains(key),
        steps(overlay, mutations, invalid, n) is Ok,
    ensures
        steps(overlay, mutations, invalid, n)->Ok_0.suppressed.contains(key),
        !steps(overlay, mutations, invalid, n)->Ok_0.live_keys.contains(key),
    decreases n,
{
    law_steps_keep_overlay(overlay, mutations, invalid, n);
    if n > 0 {
        let before = steps(overlay, mutations, invalid, n - 1)->Ok_0;
        law_steps_keep_overlay(overlay, mutations, invalid, n - 1);
        law_replaced_versions_stay_replaced(overlay, mutations, invalid, n - 1, key);
        law_step_moves_versions(before, mutations[n - 1], invalid);
    }
}

impl<R> DeltaOverlay<R> {
    /// An overlay with nothing in it.
    pub fn new() -> (overlay: Self)
        ensures
            overlay@ == no_overlay::<R>(),
            overlay_kept(overlay@),
    {
        DeltaOverlay { suppressed: Vec::new(), live_keys: Vec::new(), live_rows: Vec::new() }
    }

    /// Applies a row change.
    pub fn apply(&mut self, mutation: DeltaMutation<R>, invalid: &'static str) -> (applied: Result<
        (),
        ColumnarError,
    >)
        requires
            overlay_kept(old(self)@),
        ensures
            match step(old(self)@, mutation, invalid) {
                Ok(next) => applied is Ok && final(self)@ == next && overlay_kept(final(self)@),
                Err(error) => applied == Err::<(), ColumnarError>(error),
            },
    {
        proof {
            law_step_keeps_overlay(self@, mutation, invalid);
            lemma_step_old_keeps(self@, mutation.old_version);
        }
        let ghost start = self@;
        if let Some(key) = mutation.old_version {
            let (place, found) = search(self.suppressed.as_slice(), key);
            if found {
                return Err(
                    ColumnarError::Corrupt("one version has multiple durable delta transitions"),
                );
            }
            self.suppressed.insert(place, key);
            let (place, found) = search(self.live_keys.as_slice(), key);
            if found {
                proof {
                    lemma_place_among(start.live_keys, key);
                }
                self.live_keys.remove(place);
                self.live_rows.remove(place);
            }
        }
        assert(self@ == step_old(start, mutation.old_version)->Ok_0);
        match (mutation.new_version, mutation.after) {
            (Some(key), Some(row)) => {
                if search(self.suppressed.as_slice(), key).1 {
                    return Err(ColumnarError::Corrupt("duplicate or suppressed new delta version"));
                }
                let (place, found) = search(self.live_keys.as_slice(), key);
                if found {
                    return Err(ColumnarError::Corrupt("duplicate or suppressed new delta version"));
                }
                self.live_keys.insert(place, key);
                self.live_rows.insert(place, row);
                Ok(())
            },
            (None, None) => Ok(()),
            _ => Err(ColumnarError::Corrupt(invalid)),
        }
    }
}

// ---------------------------------------------------------------------------
// Overlays of values
// ---------------------------------------------------------------------------
/// What a row change says.
pub open spec fn mutation_view(mutation: ProjectedDeltaMutation) -> DeltaMutation<Seq<ScalarView>> {
    DeltaMutation {
        old_version: mutation.old_version,
        new_version: mutation.new_version,
        after: match mutation.after {
            Some(row) => Some(value::row_view(row@)),
            None => None,
        },
    }
}

/// What row changes say.
pub open spec fn mutations_view(mutations: Seq<ProjectedDeltaMutation>) -> Seq<
    DeltaMutation<Seq<ScalarView>>,
> {
    mutations.map_values(|mutation: ProjectedDeltaMutation| mutation_view(mutation))
}

/// What an overlay of values says.
pub open spec fn values_overlay(overlay: OverlayView<Vec<ScalarValue>>) -> OverlayView<
    Seq<ScalarView>,
> {
    OverlayView {
        suppressed: overlay.suppressed,
        live_keys: overlay.live_keys,
        live_rows: overlay.live_rows.map_values(|row: Vec<ScalarValue>| value::row_view(row@)),
    }
}

proof fn lemma_values_step(
    overlay: OverlayView<Vec<ScalarValue>>,
    mutation: ProjectedDeltaMutation,
    invalid: &'static str,
)
    requires
        overlay_kept(overlay),
    ensures
        match step(overlay, mutation, invalid) {
            Ok(next) => step(values_overlay(overlay), mutation_view(mutation), invalid) == Ok::<
                OverlayView<Seq<ScalarView>>,
                ColumnarError,
            >(values_overlay(next)),
            Err(error) => step(values_overlay(overlay), mutation_view(mutation), invalid) == Err::<
                OverlayView<Seq<ScalarView>>,
                ColumnarError,
            >(error),
        },
{
    let says = |row: Vec<ScalarValue>| value::row_view(row@);
    let shown = values_overlay(overlay);
    if let Some(key) = mutation.old_version {
        if !overlay.suppressed.contains(key) {
            lemma_place_among(overlay.live_keys, key);
            let place = place_among(overlay.live_keys, key);
            if overlay.live_keys.contains(key) {
                assert(overlay.live_rows.remove(place).map_values(says)
                    =~= overlay.live_rows.map_values(says).remove(place));
            }
            assert(values_overlay(replaced(overlay, key)) == replaced(shown, key));
        }
    }
    if let Ok(middle) = step_old(overlay, mutation.old_version) {
        lemma_step_old_keeps(overlay, mutation.old_version);
        if let Some(key) = mutation.new_version {
            if let Some(row) = mutation.after {
                lemma_place_among(middle.live_keys, key);
                let place = place_among(middle.live_keys, key);
                assert(middle.live_rows.insert(place, row).map_values(says)
                    =~= middle.live_rows.map_values(says).insert(place, value::row_view(row@)));
            }
        }
    }
}

/// Applies row changes to an overlay of values.
pub fn apply_overlay(
    overlay: &mut DeltaOverlay<Vec<ScalarValue>>,
    mutations: &[ProjectedDeltaMutation],
) -> (applied: Result<(), ColumnarError>)
    requires
        overlay_kept(old(overlay)@),
    ensures
        match steps(
            values_overlay(old(overlay)@),
            mutations_view(mutations@),
            "invalid delta mutation image",
            mutations@.len() as int,
        ) {
            Ok(next) => {
                &&& applied is Ok
                &&& values_overlay(final(overlay)@) == next
                &&& overlay_kept(final(overlay)@)
            },
            Err(error) => applied == Err::<(), ColumnarError>(error),
        },
{
    let ghost start = values_overlay(overlay@);
    let ghost known = mutations_view(mutations@);
    let invalid: &'static str = "invalid delta mutation image";
    let mut i: usize = 0;
    while i < mutations.len()
        invariant
            i <= mutations@.len(),
            overlay_kept(overlay@),
            start == values_overlay(old(overlay)@),
            known == mutations_view(mutations@),
            invalid == "invalid delta mutation image",
            steps(start, known, invalid, i as int) == Ok::<
                OverlayView<Seq<ScalarView>>,
                ColumnarError,
            >(values_overlay(overlay@)),
        decreases mutations@.len() - i,
    {
        let mutation: &ProjectedDeltaMutation = &mutations[i];
        let copy: ProjectedDeltaMutation = DeltaMutation {
            old_version: mutation.old_version,
            new_version: mutation.new_version,
            after: match &mutation.after {
                Some(row) => Some(value::copy_row(row.as_slice())),
                None => None,
            },
        };
        assert(mutation_view(copy) == known[i as int]);
        proof {
            lemma_values_step(overlay@, copy, invalid);
            if steps(start, known, invalid, i + 1) is Err {
                lemma_steps_prefix(start, known, invalid, i + 1, known.len() as int);
            }
        }
        overlay.apply(copy, invalid)?;
        i = i + 1;
    }
    Ok(())
}

// ---------------------------------------------------------------------------
// Overlays of row references
// ---------------------------------------------------------------------------
/// A row of a delta segment.
#[derive(Debug, Clone, Copy, PartialEq, Eq, Structural)]
pub struct DeltaRowRef {
    pub segment: u32,
    pub row: u64,
}

/// A row change with the place of the row in its segment.
pub type DeltaDescriptor = DeltaMutation<u64>;

/// A row change whose row is in a segment.
pub open spec fn located(descriptor: DeltaDescriptor, segment: u32) -> DeltaMutation<DeltaRowRef> {
    DeltaMutation {
        old_version: descriptor.old_version,
        new_version: descriptor.new_version,
        after: match descriptor.after {
            Some(row) => Some(DeltaRowRef { segment, row }),
            None => None,
        },
    }
}

/// Row changes whose rows are in a segment.
pub open spec fn all_located(descriptors: Seq<DeltaDescriptor>, segment: u32) -> Seq<
    DeltaMutation<DeltaRowRef>,
> {
    descriptors.map_values(|descriptor: DeltaDescriptor| located(descriptor, segment))
}

/// Applies the row changes of a segment to an overlay of row references.
pub fn apply_lazy_descriptors(
    overlay: &mut DeltaOverlay<DeltaRowRef>,
    descriptors: &[DeltaDescriptor],
    segment: u32,
) -> (applied: Result<(), ColumnarError>)
    requires
        overlay_kept(old(overlay)@),
    ensures
        match steps(
            old(overlay)@,
            all_located(descriptors@, segment),
            "invalid lazy delta mutation image",
            descriptors@.len() as int,
        ) {
            Ok(next) => {
                &&& applied is Ok
                &&& final(overlay)@ == next
                &&& overlay_kept(final(overlay)@)
            },
            Err(error) => applied == Err::<(), ColumnarError>(error),
        },
{
    let ghost start = overlay@;
    let ghost known = all_located(descriptors@, segment);
    let invalid: &'static str = "invalid lazy delta mutation image";
    let mut i: usize = 0;
    while i < descriptors.len()
        invariant
            i <= descriptors@.len(),
            overlay_kept(overlay@),
            start == old(overlay)@,
            known == all_located(descriptors@, segment),
            invalid == "invalid lazy delta mutation image",
            steps(start, known, invalid, i as int) == Ok::<
                OverlayView<DeltaRowRef>,
                ColumnarError,
            >(overlay@),
        decreases descriptors@.len() - i,
    {
        let descriptor: &DeltaDescriptor = &descriptors[i];
        let mutation: DeltaMutation<DeltaRowRef> = DeltaMutation {
            old_version: descriptor.old_version,
            new_version: descriptor.new_version,
            after: match descriptor.after {
                Some(row) => Some(DeltaRowRef { segment, row }),
                None => None,
            },
        };
        assert(mutation == known[i as int]);
        proof {
            if steps(start, known, invalid, i + 1) is Err {
                lemma_steps_prefix(start, known, invalid, i + 1, known.len() as int);
            }
        }
        overlay.apply(mutation, invalid)?;
        i = i + 1;
    }
    Ok(())
}

/// A copy of an overlay of row references.
pub fn copy_lazy_overlay(overlay: &DeltaOverlay<DeltaRowRef>) -> (copy: DeltaOverlay<DeltaRowRef>)
    ensures
        copy@ == overlay@,
{
    let suppressed = overlay.suppressed.clone();
    let live_keys = overlay.live_keys.clone();
    let live_rows = overlay.live_rows.clone();
    assert(suppressed@ =~= overlay.suppressed@);
    assert(live_keys@ =~= overlay.live_keys@);
    assert(live_rows@ =~= overlay.live_rows@);
    DeltaOverlay { suppressed, live_keys, live_rows }
}

/// A copy of an overlay of values.
pub fn copy_overlay(overlay: &DeltaOverlay<Vec<ScalarValue>>) -> (copy: DeltaOverlay<
    Vec<ScalarValue>,
>)
    ensures
        values_overlay(copy@) == values_overlay(overlay@),
        overlay_kept(overlay@) ==> overlay_kept(copy@),
{
    let suppressed = overlay.suppressed.clone();
    let live_keys = overlay.live_keys.clone();
    assert(suppressed@ =~= overlay.suppressed@);
    assert(live_keys@ =~= overlay.live_keys@);
    let ghost shown = values_overlay(overlay@).live_rows;
    let mut live_rows: Vec<Vec<ScalarValue>> = Vec::new();
    let mut i: usize = 0;
    while i < overlay.live_rows.len()
        invariant
            i <= overlay.live_rows@.len(),
            shown == values_overlay(overlay@).live_rows,
            live_rows@.len() == i,
            forall|k: int|
                0 <= k < i ==> value::row_view((#[trigger] live_rows@[k])@) == shown[k],
        decreases overlay.live_rows@.len() - i,
    {
        live_rows.push(value::copy_row(overlay.live_rows[i].as_slice()));
        i = i + 1;
    }
    let copy = DeltaOverlay { suppressed, live_keys, live_rows };
    assert(values_overlay(copy@).live_rows =~= shown);
    copy
}

} // verus!
