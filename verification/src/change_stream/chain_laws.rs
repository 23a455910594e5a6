//! Reservations form a chain behind the committed history.
use super::finalize;
use super::finalize::FinalizeCandidate;
use super::history;
use super::load;
use super::record;
use super::stream;
use super::stream::StreamView;
use super::types::{BatchView, StorageChange};
use crate::ids::{DatabaseTxnId, StorageDataVersion, TxnId};
use vstd::prelude::*;

verus! {

/// The frontier that the reservation at `i` has to start from.
pub open spec fn chain_base(v: StreamView, i: int) -> StorageDataVersion {
    if i <= 0 {
        stream::current_of(v.header, v.batches)
    } else {
        v.unresolved[i - 1].batch.after
    }
}

/// Whether each reservation starts where the one before it ends, the first one
/// at the committed frontier, and advances the frontier by one.
pub open spec fn reservations_chained(v: StreamView) -> bool {
    forall|i: int|
        0 <= i < v.unresolved.len() ==> v.unresolved[i].batch.before == #[trigger] chain_base(v, i)
            && v.unresolved[i].batch.after.0 == v.unresolved[i].batch.before.0 + 1
}

proof fn lemma_chained_at(v: StreamView, i: int)
    requires
        reservations_chained(v),
        0 <= i < v.unresolved.len(),
    ensures
        v.unresolved[i].batch.before.0 == stream::current_of(v.header, v.batches).0 + i,
        v.unresolved[i].batch.after.0 == stream::current_of(v.header, v.batches).0 + i + 1,
    decreases i,
{
    assert(v.unresolved[i].batch.before == chain_base(v, i));
    if i > 0 {
        lemma_chained_at(v, i - 1);
    }
}

/// A new reservation extends the chain.
pub proof fn law_prepare_extends_the_chain(
    v: StreamView,
    txn_id: TxnId,
    database_txn_id: Option<DatabaseTxnId>,
    changes: Seq<StorageChange<Seq<u8>>>,
    size: u64,
)
    requires
        reservations_chained(v),
        stream::prepare_error(v, txn_id, database_txn_id, changes) is None,
    ensures
        reservations_chained(
            stream::prepared(
                v,
                stream::batch_to_prepare(v, txn_id, database_txn_id, changes),
                size,
            ),
        ),
{
    let batch = stream::batch_to_prepare(v, txn_id, database_txn_id, changes);
    let w = stream::prepared(v, batch, size);
    assert forall|i: int| 0 <= i < w.unresolved.len() implies w.unresolved[i].batch.before
        == #[trigger] chain_base(w, i) && w.unresolved[i].batch.after.0
        == w.unresolved[i].batch.before.0 + 1 by {
        if i < v.unresolved.len() {
            assert(v.unresolved[i].batch.before == chain_base(v, i));
        }
    }
}

/// Dropping the last reservation leaves a chain.
pub proof fn law_abandon_keeps_the_chain(v: StreamView)
    requires
        reservations_chained(v),
        v.unresolved.len() > 0,
    ensures
        reservations_chained(StreamView { unresolved: v.unresolved.drop_last(), ..v }),
{
    let w = StreamView { unresolved: v.unresolved.drop_last(), ..v };
    assert forall|i: int| 0 <= i < w.unresolved.len() implies w.unresolved[i].batch.before
        == #[trigger] chain_base(w, i) && w.unresolved[i].batch.after.0
        == w.unresolved[i].batch.before.0 + 1 by {
        assert(v.unresolved[i].batch.before == chain_base(v, i));
    }
}

/// A candidate is the reservation at its place, counted from the front.
pub proof fn lemma_candidate_position(
    v: StreamView,
    candidates: Seq<FinalizeCandidate>,
    sync_immediately: bool,
    i: int,
)
    requires
        stream::stream_kept(v),
        reservations_chained(v),
        finalize::finalize_ready(v, candidates, sync_immediately),
        0 <= i < candidates.len(),
    ensures
        i < v.unresolved.len(),
        load::record_position(v.unresolved, candidates[i].0) == Some(i),
        candidates[i].1 == stream::identity_of(v.unresolved[i].batch),
        v.unresolved[i].batch.physical_txn_id == candidates[i].0,
    decreases i,
{
    finalize::lemma_no_finalize_error(
        v,
        candidates,
        sync_immediately,
        candidates.len() as int,
        i,
    );
    load::lemma_record_position(v.unresolved, candidates[i].0);
    let found = load::record_position(v.unresolved, candidates[i].0)->0;
    lemma_chained_at(v, found);
    if i > 0 {
        lemma_candidate_position(v, candidates, sync_immediately, i - 1);
        lemma_chained_at(v, i - 1);
    }
}

/// Only the front of the chain can be published, in its order.
pub proof fn law_only_the_front_is_published(
    v: StreamView,
    candidates: Seq<FinalizeCandidate>,
    sync_immediately: bool,
)
    requires
        stream::stream_kept(v),
        reservations_chained(v),
        finalize::finalize_ready(v, candidates, sync_immediately),
    ensures
        candidates.len() <= v.unresolved.len(),
        forall|i: int|
            0 <= i < candidates.len() ==> (#[trigger] candidates[i]).0
                == v.unresolved[i].batch.physical_txn_id,
{
    assert forall|i: int| 0 <= i < candidates.len() implies (#[trigger] candidates[i]).0
        == v.unresolved[i].batch.physical_txn_id by {
        lemma_candidate_position(v, candidates, sync_immediately, i);
    }
    lemma_candidate_position(v, candidates, sync_immediately, candidates.len() - 1);
}

/// A reservation's batch after its commit.
pub open spec fn committed_batch(batch: BatchView, candidate: FinalizeCandidate) -> BatchView {
    BatchView { mutations: record::resolved_changes(batch.mutations, candidate.2), ..batch }
}

proof fn lemma_promotion_of_the_front(
    v: StreamView,
    w: StreamView,
    candidates: Seq<FinalizeCandidate>,
    sync_immediately: bool,
    n: int,
)
    requires
        stream::stream_kept(v),
        reservations_chained(v),
        finalize::finalize_ready(v, candidates, sync_immediately),
        w.unresolved.len() == v.unresolved.len(),
        w.batches == v.batches,
        w.header == v.header,
        forall|k: int|
            0 <= k < v.unresolved.len() ==> (#[trigger] w.unresolved[k]).batch
                == v.unresolved[k].batch,
        0 <= n <= candidates.len(),
    ensures
        candidates.len() <= v.unresolved.len(),
        finalize::promotion(w, candidates, sync_immediately, n) is Ok,
        ({
            let done = finalize::promotion(w, candidates, sync_immediately, n)->Ok_0;
            &&& done.header == v.header
            &&& done.unresolved == w.unresolved.skip(n)
            &&& done.batches == v.batches + Seq::new(
                n as nat,
                |i: int| committed_batch(v.unresolved[i].batch, candidates[i]),
            )
        }),
    decreases n,
{
    law_only_the_front_is_published(v, candidates, sync_immediately);
    if n == 0 {
        assert(w.unresolved.skip(0) =~= w.unresolved);
        assert(w.batches =~= v.batches + Seq::new(
            0,
            |i: int| committed_batch(v.unresolved[i].batch, candidates[i]),
        ));
    } else {
        lemma_promotion_of_the_front(v, w, candidates, sync_immediately, n - 1);
        let done = finalize::promotion(w, candidates, sync_immediately, n - 1)->Ok_0;
        assert(done.unresolved[0] == w.unresolved[n - 1]);
        assert(candidates[n - 1].0 == v.unresolved[n - 1].batch.physical_txn_id);
        load::lemma_record_position_is(done.unresolved, candidates[n - 1].0, 0);
        let next = finalize::promotion(w, candidates, sync_immediately, n)->Ok_0;
        assert(next.unresolved =~= w.unresolved.skip(n));
        assert(next.batches =~= v.batches + Seq::new(
            n as nat,
            |i: int| committed_batch(v.unresolved[i].batch, candidates[i]),
        ));
    }
}

/// Publishing the front of the chain succeeds: its batches, with their commit
/// numbers, become the end of the history, the other reservations stay a chain
/// behind it, and the committed frontier is that of the last one published.
pub proof fn law_publication_moves_the_front(
    v: StreamView,
    candidates: Seq<FinalizeCandidate>,
    sync_immediately: bool,
)
    requires
        stream::stream_kept(v),
        reservations_chained(v),
        finalize::finalize_ready(v, candidates, sync_immediately),
    ensures
        ({
            let n = candidates.len() as int;
            let w = finalize::markers_durable(v, candidates, sync_immediately);
            let result = finalize::promotion(w, candidates, sync_immediately, n);
            &&& result is Ok
            &&& result->Ok_0.batches == v.batches + Seq::new(
                candidates.len(),
                |i: int| committed_batch(v.unresolved[i].batch, candidates[i]),
            )
            &&& result->Ok_0.unresolved.len() == v.unresolved.len() - n
            &&& reservations_chained(result->Ok_0)
            &&& stream::current_of(result->Ok_0.header, result->Ok_0.batches)
                == candidates.last().1.after
            &&& history::advancing(v.batches) ==> history::advancing(result->Ok_0.batches)
        }),
{
    let n = candidates.len() as int;
    let w = finalize::markers_durable(v, candidates, sync_immediately);
    finalize::lemma_markers_durable(v, candidates, sync_immediately);
    lemma_promotion_of_the_front(v, w, candidates, sync_immediately, n);
    let done = finalize::promotion(w, candidates, sync_immediately, n)->Ok_0;
    lemma_candidate_position(v, candidates, sync_immediately, n - 1);
    let last = committed_batch(v.unresolved[n - 1].batch, candidates[n - 1]);
    assert(done.batches.last() == last);
    assert(stream::current_of(done.header, done.batches) == v.unresolved[n - 1].batch.after);
    assert forall|i: int| 0 <= i < done.unresolved.len() implies done.unresolved[i].batch.before
        == #[trigger] chain_base(done, i) && done.unresolved[i].batch.after.0
        == done.unresolved[i].batch.before.0 + 1 by {
        assert(done.unresolved[i] == w.unresolved[n + i]);
        assert(w.unresolved[n + i].batch == v.unresolved[n + i].batch);
        assert(v.unresolved[n + i].batch.before == chain_base(v, n + i));
        if i > 0 {
            assert(done.unresolved[i - 1] == w.unresolved[n + i - 1]);
            assert(w.unresolved[n + i - 1].batch == v.unresolved[n + i - 1].batch);
        }
    }
    if history::advancing(v.batches) {
        assert forall|i: int| 0 <= i < done.batches.len() implies (
        #[trigger] done.batches[i]).after.0 == done.batches[i].before.0 + 1 by {
            if i < v.batches.len() {
                assert(done.batches[i] == v.batches[i]);
            } else {
                let k = i - v.batches.len();
                assert(done.batches[i] == committed_batch(v.unresolved[k].batch, candidates[k]));
                lemma_chained_at(v, k);
            }
        }
    }
}

} // verus!
