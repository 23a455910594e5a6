//! Preparing a projection at once and row by row.
use super::base;
use super::error::ColumnarError;
use super::feed::{self, Offer};
use super::gather;
use super::group::{self, TableDef};
use super::prepare::{self, BaseOrder};
use super::writer::{self, Piece, SegmentPlan};
use crate::ids::ColumnId;
use vstd::prelude::*;

verus! {

spec fn is_written(plan: SegmentPlan, pieces: Seq<Piece>) -> bool {
    writer::pieces_written(plan, pieces, pieces.len() as int) is Ok
}

proof fn lemma_written_front(plan: SegmentPlan, pieces: Seq<Piece>, last: Piece)
    requires
        is_written(plan, pieces.push(last)),
    ensures
        is_written(plan, pieces),
        group::group_error(plan.columns, last.rows) is None,
{
    let grown = pieces.push(last);
    writer::lemma_pieces_prefix(plan, pieces, grown, pieces.len() as int);
    assert(grown[grown.len() - 1] == last);
}

proof fn lemma_gathered_is_built(plan: SegmentPlan, offers: Seq<Offer>, n: int)
    requires
        0 <= n <= offers.len(),
        gather::gathered(plan, offers, n) matches Ok((pieces, _)) && is_written(plan, pieces),
    ensures
        base::built(plan, offers, n) == gather::gathered(plan, offers, n),
    decreases n,
{
    if n > 0 {
        let (before, pending) = gather::gathered(plan, offers, n - 1)->Ok_0;
        let piece = gather::piece_grown(plan, pending, offers[n - 1]);
        if piece.rows.len() >= plan.group_rows {
            lemma_written_front(plan, before, piece);
        }
        lemma_gathered_is_built(plan, offers, n - 1);
        assert(feed::offer_keys(offers)[n - 1] == offers[n - 1].key);
        assert(feed::offer_rows(offers)[n - 1] == offers[n - 1].row);
        assert(feed::refusals(plan.versioned, offers)[n - 1] == feed::refusal(
            plan.versioned,
            offers,
            n - 1,
        ));
    } else {
        assert(base::built(plan, offers, n) == Ok::<(Seq<Piece>, Piece), ColumnarError>(
            (Seq::empty(), writer::no_piece()),
        ));
    }
}

proof fn lemma_built_is_gathered(plan: SegmentPlan, offers: Seq<Offer>, n: int)
    requires
        0 <= n <= offers.len(),
        base::built(plan, offers, n) is Ok,
    ensures
        gather::gathered(plan, offers, n) == base::built(plan, offers, n),
        is_written(plan, base::built(plan, offers, n)->Ok_0.0),
        feed::first_refusal(plan.versioned, offers, n) is None,
    decreases n,
{
    if n > 0 {
        lemma_built_is_gathered(plan, offers, n - 1);
        let (before, pending) = base::built(plan, offers, n - 1)->Ok_0;
        let piece = gather::piece_grown(plan, pending, offers[n - 1]);
        assert(feed::offer_keys(offers)[n - 1] == offers[n - 1].key);
        assert(feed::offer_rows(offers)[n - 1] == offers[n - 1].row);
        assert(feed::refusals(plan.versioned, offers)[n - 1] == feed::refusal(
            plan.versioned,
            offers,
            n - 1,
        ));
        if piece.rows.len() >= plan.group_rows {
            lemma_written_front(plan, before, piece);
        }
    } else {
        assert(base::built(plan, offers, n) == Ok::<(Seq<Piece>, Piece), ColumnarError>(
            (Seq::empty(), writer::no_piece()),
        ));
    }
}

/// Offers make the same segment whether their groups are gathered first or
/// written one by one: either both ways or neither way succeeds.
pub proof fn law_rows_make_the_same_segment(plan: SegmentPlan, offers: Seq<Offer>)
    ensures
        ({
            let rows = offers.len() as u64;
            let gathered = match gather::all_gathered(plan, offers) {
                Err(error) => Err(error),
                Ok(pieces) => writer::segment_made(plan, pieces, rows),
            };
            let built = base::segment_built(plan, offers);
            &&& gathered is Ok <==> built is Ok
            &&& built is Ok ==> gathered == built && feed::first_refusal(
                plan.versioned,
                offers,
                offers.len() as int,
            ) is None
        }),
{
    let n = offers.len() as int;
    if let Ok(all) = gather::all_gathered(plan, offers) {
        if writer::segment_made(plan, all, offers.len() as u64) is Ok {
            let (pieces, pending) = gather::gathered(plan, offers, n)->Ok_0;
            if pending.rows.len() > 0 {
                lemma_written_front(plan, pieces, pending);
            }
            lemma_gathered_is_built(plan, offers, n);
        }
    }
    if base::segment_built(plan, offers) is Ok {
        lemma_built_is_gathered(plan, offers, n);
        let (pieces, pending) = base::built(plan, offers, n)->Ok_0;
        if pending.rows.len() > 0 {
            lemma_written_front(plan, pieces, pending);
        }
    }
}

/// Rows make the same projection whether it is prepared at once or row by row:
/// the same files, and either both ways or neither way succeeds.
pub proof fn law_streaming_prepares_the_same(
    order: BaseOrder,
    table: TableDef,
    columns: Seq<ColumnId>,
    mismatch: &'static str,
    offers: Seq<Offer>,
)
    ensures
        prepare::prepare_spec(order, table, columns, mismatch, offers) is Ok
            <==> prepare::stream_spec(order, table, columns, offers) is Ok,
        prepare::prepare_spec(order, table, columns, mismatch, offers) is Ok
            ==> prepare::prepare_spec(order, table, columns, mismatch, offers)
            == prepare::stream_spec(order, table, columns, offers),
{
    law_rows_make_the_same_segment(prepare::order_plan(order), offers);
}

} // verus!
