//! Rows that are offered to a new base segment, and why some are refused.
use super::error::ColumnarError;
use super::overlay;
use super::version::{self, SnapshotKind};
use crate::change_stream::types::StorageVersionKey;
use crate::ids::StorageId;
use crate::value::{self, ScalarValue, ScalarView};
use vstd::prelude::*;

verus! {

/// A row that is offered to a base segment. It is refused for what is wrong
/// before its version is looked at, for a version that was offered before, and
/// for what is wrong with the row itself, in this order.
pub struct Offer {
    pub lead: Option<ColumnarError>,
    pub key: StorageVersionKey,
    pub duplicate: ColumnarError,
    pub fault: Option<ColumnarError>,
    pub row: Seq<ScalarView>,
}

/// Whether the version of an offer was offered before.
pub open spec fn offered_before(offers: Seq<Offer>, i: int) -> bool {
    exists|j: int| 0 <= j < i && (#[trigger] offers[j]).key == offers[i].key
}

/// Why an offer is refused, if it is. Versions count only where they are kept.
pub open spec fn refusal(versioned: bool, offers: Seq<Offer>, i: int) -> Option<ColumnarError> {
    if offers[i].lead is Some {
        offers[i].lead
    } else if versioned && offered_before(offers, i) {
        Some(offers[i].duplicate)
    } else {
        offers[i].fault
    }
}

/// Why offers are refused.
pub open spec fn refusals(versioned: bool, offers: Seq<Offer>) -> Seq<Option<ColumnarError>> {
    Seq::new(offers.len(), |i: int| refusal(versioned, offers, i))
}

/// The versions of offers.
pub open spec fn offer_keys(offers: Seq<Offer>) -> Seq<StorageVersionKey> {
    offers.map_values(|offer: Offer| offer.key)
}

/// The rows of offers.
pub open spec fn offer_rows(offers: Seq<Offer>) -> Seq<Seq<ScalarView>> {
    offers.map_values(|offer: Offer| offer.row)
}

/// Why the first `n` offers are refused, if one of them is.
pub open spec fn first_refusal(versioned: bool, offers: Seq<Offer>, n: int) -> Option<ColumnarError>
    decreases n,
{
    if n <= 0 {
        None
    } else if first_refusal(versioned, offers, n - 1) is Some {
        first_refusal(versioned, offers, n - 1)
    } else {
        refusal(versioned, offers, n - 1)
    }
}

/// A refused offer refuses all that follow.
pub proof fn lemma_refusal_prefix(versioned: bool, offers: Seq<Offer>, n: int, m: int)
    requires
        n <= m,
        first_refusal(versioned, offers, n) is Some,
    ensures
        first_refusal(versioned, offers, m) == first_refusal(versioned, offers, n),
    decreases m - n,
{
    if n < m {
        lemma_refusal_prefix(versioned, offers, n, m - 1);
    }
}

/// Why an offer is refused does not depend on later ones.
pub proof fn lemma_refusal_same(versioned: bool, left: Seq<Offer>, right: Seq<Offer>, i: int)
    requires
        0 <= i < left.len(),
        i < right.len(),
        forall|j: int| 0 <= j <= i ==> left[j] == right[j],
    ensures
        refusal(versioned, left, i) == refusal(versioned, right, i),
{
    if offered_before(left, i) {
        let j = choose|j: int| 0 <= j < i && (#[trigger] left[j]).key == left[i].key;
        assert(right[j].key == right[i].key);
    }
    if offered_before(right, i) {
        let j = choose|j: int| 0 <= j < i && (#[trigger] right[j]).key == right[i].key;
        assert(left[j].key == left[i].key);
    }
}

/// Whether a list holds exactly the versions of offers.
pub open spec fn holds_keys(keys: Seq<StorageVersionKey>, offers: Seq<Offer>) -> bool {
    forall|key: StorageVersionKey|
        #[trigger] keys.contains(key) <==> exists|j: int|
            0 <= j < offers.len() && (#[trigger] offers[j]).key == key
}

/// The versions that were offered, in order.
#[derive(Debug)]
pub struct SeenVersions {
    pub keys: Vec<StorageVersionKey>,
}

impl SeenVersions {
    /// Whether the versions ascend.
    pub open spec fn wf(&self) -> bool {
        overlay::ascending(self.keys@)
    }

    /// No versions.
    pub fn new() -> (seen: Self)
        ensures
            seen.wf(),
            holds_keys(seen.keys@, Seq::empty()),
    {
        SeenVersions { keys: Vec::new() }
    }

    /// Adds a version, and says whether it was new.
    pub fn insert(&mut self, key: StorageVersionKey) -> (fresh: bool)
        requires
            old(self).wf(),
        ensures
            final(self).wf(),
            fresh == !old(self).keys@.contains(key),
            forall|other: StorageVersionKey| #[trigger]
                final(self).keys@.contains(other) <==> other == key || old(self).keys@.contains(
                    other,
                ),
    {
        let (place, found) = overlay::search(self.keys.as_slice(), key);
        if found {
            return false;
        }
        proof {
            overlay::lemma_insert_ascending(self.keys@, key);
        }
        self.keys.insert(place, key);
        true
    }
}

/// A list that held the versions of offers holds those of one more.
pub proof fn lemma_holds_push(
    before: Seq<StorageVersionKey>,
    after: Seq<StorageVersionKey>,
    offers: Seq<Offer>,
    offer: Offer,
)
    requires
        holds_keys(before, offers),
        forall|other: StorageVersionKey| #[trigger]
            after.contains(other) <==> other == offer.key || before.contains(other),
    ensures
        holds_keys(after, offers.push(offer)),
        before.contains(offer.key) <==> offered_before(offers.push(offer), offers.len() as int),
{
    let grown = offers.push(offer);
    let n = offers.len() as int;
    assert forall|key: StorageVersionKey| #[trigger] after.contains(key) <==> exists|j: int|
        0 <= j < grown.len() && (#[trigger] grown[j]).key == key by {
        if after.contains(key) {
            if key == offer.key {
                assert(grown[n].key == key);
            } else {
                assert(before.contains(key));
                let j = choose|j: int| 0 <= j < offers.len() && (#[trigger] offers[j]).key == key;
                assert(grown[j].key == key);
            }
        }
        if exists|j: int| 0 <= j < grown.len() && (#[trigger] grown[j]).key == key {
            let j = choose|j: int| 0 <= j < grown.len() && (#[trigger] grown[j]).key == key;
            if j < n {
                assert(offers[j].key == key);
                assert(before.contains(key));
            }
        }
    }
    if before.contains(offer.key) {
        let j = choose|j: int| 0 <= j < offers.len() && (#[trigger] offers[j]).key == offer.key;
        assert(grown[j].key == grown[n].key);
    }
    if offered_before(grown, n) {
        let j = choose|j: int| 0 <= j < n && (#[trigger] grown[j]).key == grown[n].key;
        assert(offers[j].key == offer.key);
    }
}

// ---------------------------------------------------------------------------
// Rows of a source
// ---------------------------------------------------------------------------
/// Why a row does not go with a projection, if it does not.
pub open spec fn width_error(row: Seq<ScalarView>, width: nat) -> Option<ColumnarError> {
    if row.len() != width {
        Some(ColumnarError::InvalidInput("row width differs from projection"))
    } else {
        None
    }
}

/// A row of a source as an offer.
pub open spec fn source_offer(
    storage_id: StorageId,
    kind: SnapshotKind,
    width: nat,
    key: StorageVersionKey,
    row: Seq<ScalarView>,
) -> Offer {
    Offer {
        lead: version::key_error(key, storage_id, kind),
        key,
        duplicate: ColumnarError::InvalidInput("duplicate base source version"),
        fault: width_error(row, width),
        row,
    }
}

/// The rows of a source, with their versions.
pub open spec fn rows_with_keys(rows: Seq<(StorageVersionKey, Vec<ScalarValue>)>) -> Seq<
    (StorageVersionKey, Seq<ScalarView>),
> {
    rows.map_values(
        |row: (StorageVersionKey, Vec<ScalarValue>)| (row.0, value::row_view(row.1@)),
    )
}

/// The rows of a source as offers.
pub open spec fn source_offers(
    storage_id: StorageId,
    kind: SnapshotKind,
    width: nat,
    rows: Seq<(StorageVersionKey, Seq<ScalarView>)>,
) -> Seq<Offer> {
    rows.map_values(
        |row: (StorageVersionKey, Seq<ScalarView>)|
            source_offer(storage_id, kind, width, row.0, row.1),
    )
}

/// Checks the rows of a source: their versions are of the storage and differ, and
/// each row has a value for each column.
pub fn validate_versioned_rows(
    storage_id: StorageId,
    kind: SnapshotKind,
    width: usize,
    rows: &[(StorageVersionKey, Vec<ScalarValue>)],
) -> (valid: Result<(), ColumnarError>)
    ensures
        match first_refusal(
            true,
            source_offers(storage_id, kind, width as nat, rows_with_keys(rows@)),
            rows@.len() as int,
        ) {
            Some(error) => valid == Err::<(), ColumnarError>(error),
            None => valid is Ok,
        },
{
    let ghost offers = source_offers(storage_id, kind, width as nat, rows_with_keys(rows@));
    let mut seen: SeenVersions = SeenVersions::new();
    let mut i: usize = 0;
    assert(offers.take(0) =~= Seq::empty());
    while i < rows.len()
        invariant
            i <= rows@.len(),
            offers == source_offers(storage_id, kind, width as nat, rows_with_keys(rows@)),
            seen.wf(),
            holds_keys(seen.keys@, offers.take(i as int)),
            first_refusal(true, offers, i as int) is None,
        decreases rows@.len() - i,
    {
        let key: StorageVersionKey = rows[i].0;
        let ghost offer = offers[i as int];
        assert(offer.key == key);
        assert(offer == source_offer(
            storage_id,
            kind,
            width as nat,
            key,
            value::row_view(rows@[i as int].1@),
        ));
        proof {
            if first_refusal(true, offers, i + 1) is Some {
                lemma_refusal_prefix(true, offers, i + 1, offers.len() as int);
            }
        }
        version::validate_version_key(key, storage_id, kind)?;
        let ghost before = seen.keys@;
        let fresh: bool = seen.insert(key);
        proof {
            lemma_holds_push(before, seen.keys@, offers.take(i as int), offer);
            assert(offers.take(i as int).push(offer) =~= offers.take(i + 1));
            lemma_offered_take(offers, i as int);
        }
        if !fresh {
            return Err(ColumnarError::InvalidInput("duplicate base source version"));
        }
        if rows[i].1.len() != width {
            return Err(ColumnarError::InvalidInput("row width differs from projection"));
        }
        i = i + 1;
    }
    Ok(())
}

/// Whether a version was offered before does not depend on later offers.
pub proof fn lemma_offered_take(offers: Seq<Offer>, i: int)
    requires
        0 <= i < offers.len(),
    ensures
        offered_before(offers.take(i + 1), i) == offered_before(offers, i),
{
    let front = offers.take(i + 1);
    if offered_before(front, i) {
        let j = choose|j: int| 0 <= j < i && (#[trigger] front[j]).key == front[i].key;
        assert(offers[j].key == offers[i].key);
    }
    if offered_before(offers, i) {
        let j = choose|j: int| 0 <= j < i && (#[trigger] offers[j]).key == offers[i].key;
        assert(front[j].key == front[i].key);
    }
}

} // verus!
