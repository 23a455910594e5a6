//! Building an indexed base segment out of offered rows, with at most one group
//! of rows in memory.
use super::error::ColumnarError;
use super::feed::{self, Offer, SeenVersions};
use super::metadata::SegmentIdentity;
use super::vector::ColumnarColumnSpec;
use super::version::SnapshotKind;
use super::lazy_segment::LAZY_SEGMENT_HEADER_BYTES;
use super::writer::{self, FinishedSegment, Piece, SegmentPlan, SegmentWriter};
use crate::bytes;
use crate::change_stream::types::StorageVersionKey;
use crate::ids::{LsmRowId, LsmCommitSeq, StorageId};
use crate::value::{self, ScalarValue, ScalarView};
use vstd::prelude::*;

verus! {

/// The version of a row that has none.
pub open spec fn no_key() -> StorageVersionKey {
    StorageVersionKey::Lsm { storage_id: StorageId(0), row_id: LsmRowId(0), version: LsmCommitSeq(0) }
}

/// The version of a row, if it has one.
pub open spec fn key_or_none(key: Option<StorageVersionKey>) -> StorageVersionKey {
    match key {
        Some(known) => known,
        None => no_key(),
    }
}

/// The pieces and the pending rows after the first `n` offers, unless one of them
/// is refused or a piece cannot be written.
pub open spec fn built(plan: SegmentPlan, offers: Seq<Offer>, n: int) -> Result<
    (Seq<Piece>, Piece),
    ColumnarError,
> {
    writer::fed(
        plan,
        feed::offer_keys(offers),
        feed::offer_rows(offers),
        feed::refusals(plan.versioned, offers),
        n,
    )
}

/// The segment that offers make.
pub open spec fn segment_built(plan: SegmentPlan, offers: Seq<Offer>) -> Result<
    writer::SegmentFile,
    ColumnarError,
> {
    match built(plan, offers, offers.len() as int) {
        Err(error) => Err(error),
        Ok((pieces, pending)) => writer::segment_made(
            plan,
            writer::completed(pieces, pending),
            offers.len() as u64,
        ),
    }
}

proof fn lemma_fed_same(
    plan: SegmentPlan,
    left_keys: Seq<StorageVersionKey>,
    left_rows: Seq<Seq<ScalarView>>,
    left: Seq<Option<ColumnarError>>,
    right_keys: Seq<StorageVersionKey>,
    right_rows: Seq<Seq<ScalarView>>,
    right: Seq<Option<ColumnarError>>,
    n: int,
)
    requires
        forall|i: int| 0 <= i < n ==> left_keys[i] == right_keys[i],
        forall|i: int| 0 <= i < n ==> left_rows[i] == right_rows[i],
        forall|i: int| 0 <= i < n ==> left[i] == right[i],
    ensures
        writer::fed(plan, left_keys, left_rows, left, n) == writer::fed(
            plan,
            right_keys,
            right_rows,
            right,
            n,
        ),
    decreases n,
{
    if n > 0 {
        lemma_fed_same(plan, left_keys, left_rows, left, right_keys, right_rows, right, n - 1);
    }
}

/// What is built of some offers does not depend on later ones.
pub proof fn lemma_built_same(plan: SegmentPlan, left: Seq<Offer>, right: Seq<Offer>, n: int)
    requires
        0 <= n <= left.len(),
        n <= right.len(),
        forall|i: int| 0 <= i < n ==> left[i] == right[i],
    ensures
        built(plan, left, n) == built(plan, right, n),
{
    assert forall|i: int| 0 <= i < n implies feed::refusals(plan.versioned, left)[i]
        == feed::refusals(plan.versioned, right)[i] by {
        feed::lemma_refusal_same(plan.versioned, left, right, i);
    }
    lemma_fed_same(
        plan,
        feed::offer_keys(left),
        feed::offer_rows(left),
        feed::refusals(plan.versioned, left),
        feed::offer_keys(right),
        feed::offer_rows(right),
        feed::refusals(plan.versioned, right),
        n,
    );
}

/// A refused offer refuses all that follow.
pub proof fn lemma_built_prefix(plan: SegmentPlan, offers: Seq<Offer>, n: int, m: int)
    requires
        n <= m,
        built(plan, offers, n) is Err,
    ensures
        built(plan, offers, m) == built(plan, offers, n),
{
    writer::lemma_fed_prefix(
        plan,
        feed::offer_keys(offers),
        feed::offer_rows(offers),
        feed::refusals(plan.versioned, offers),
        n,
        m,
    );
}

/// A base segment that is being built. The caller leaves room for the header,
/// appends what `offer` and `finish` give, and writes the header last.
pub struct BaseBuilder {
    pub writer: SegmentWriter,
    pub seen: SeenVersions,
    pub offers: Ghost<Seq<Offer>>,
}

impl BaseBuilder {
    /// What the segment is built for.
    pub open spec fn plan(&self) -> SegmentPlan {
        self.writer.plan()
    }

    /// Whether the segment is what the offers make so far.
    pub open spec fn wf(&self) -> bool {
        &&& self.writer.wf()
        &&& self.writer.start == LAZY_SEGMENT_HEADER_BYTES
        &&& self.writer.row_count == self.offers@.len()
        &&& self.seen.wf()
        &&& self.writer.versioned ==> feed::holds_keys(self.seen.keys@, self.offers@)
        &&& built(self.plan(), self.offers@, self.offers@.len() as int) == Ok::<
            (Seq<Piece>, Piece),
            ColumnarError,
        >((self.writer.pieces@, self.writer.pending()))
    }

    /// The payload that was given out.
    pub open spec fn written(&self) -> Seq<u8> {
        self.writer.written()
    }

    /// A segment with no rows.
    pub fn new(
        identity: SegmentIdentity,
        kind: SnapshotKind,
        columns: Vec<ColumnarColumnSpec>,
        versioned: bool,
        group_rows: usize,
        overflow: &'static str,
    ) -> (builder: Self)
        requires
            group_rows > 0,
        ensures
            builder.wf(),
            builder.plan() == (SegmentPlan {
                identity,
                kind,
                columns: columns@,
                versioned,
                group_rows,
                start: LAZY_SEGMENT_HEADER_BYTES,
            }),
            builder.writer.overflow == overflow,
            builder.offers@ == Seq::<Offer>::empty(),
            builder.written() == Seq::<u8>::empty(),
    {
        let segment_writer: SegmentWriter = SegmentWriter::new(
            identity,
            kind,
            columns,
            versioned,
            group_rows,
            LAZY_SEGMENT_HEADER_BYTES,
            overflow,
        );
        BaseBuilder { writer: segment_writer, seen: SeenVersions::new(), offers: Ghost(Seq::empty()) }
    }

    /// Offers a row, with the version that it was taken from where the segment
    /// keeps them, and gives what is appended to the file. `lead` and `fault` say
    /// what is wrong with the row, and `duplicate` what a version that was
    /// offered before is refused with.
    pub fn offer(
        &mut self,
        lead: Option<ColumnarError>,
        key: Option<StorageVersionKey>,
        duplicate: ColumnarError,
        fault: Option<ColumnarError>,
        row: Vec<ScalarValue>,
    ) -> (offered: Result<Vec<u8>, ColumnarError>)
        requires
            old(self).wf(),
            key is Some <==> old(self).writer.versioned,
        ensures
            ({
                let offer = Offer {
                    lead,
                    key: key_or_none(key),
                    duplicate,
                    fault,
                    row: value::row_view(row@),
                };
                let grown = old(self).offers@.push(offer);
                let n = old(self).offers@.len() as int;
                if feed::refusal(old(self).writer.versioned, grown, n) is None && n == u64::MAX {
                    offered == Err::<Vec<u8>, ColumnarError>(
                        ColumnarError::InvalidInput(old(self).writer.overflow),
                    )
                } else {
                    match built(old(self).plan(), grown, n + 1) {
                        Ok(_) => {
                            &&& offered is Ok
                            &&& final(self).wf()
                            &&& final(self).plan() == old(self).plan()
                            &&& final(self).writer.overflow == old(self).writer.overflow
                            &&& final(self).offers@ == grown
                            &&& final(self).written() == old(self).written() + offered->Ok_0@
                        },
                        Err(error) => offered == Err::<Vec<u8>, ColumnarError>(error),
                    }
                }
            }),
    {
        let ghost offer = Offer {
            lead,
            key: key_or_none(key),
            duplicate,
            fault,
            row: value::row_view(row@),
        };
        let ghost offers = self.offers@;
        let ghost grown = offers.push(offer);
        let ghost n = offers.len() as int;
        let ghost plan = self.plan();
        proof {
            lemma_built_same(plan, offers, grown, n);
            assert(feed::offer_keys(grown)[n] == offer.key);
            assert(feed::offer_rows(grown)[n] == offer.row);
        }
        if let Some(error) = lead {
            return Err(error);
        }
        let ghost before = self.seen.keys@;
        if let Some(known) = key {
            let fresh: bool = self.seen.insert(known);
            proof {
                feed::lemma_holds_push(before, self.seen.keys@, offers, offer);
            }
            if !fresh {
                return Err(duplicate);
            }
        }
        if let Some(error) = fault {
            return Err(error);
        }
        let ghost written = self.written();
        let appended: Vec<u8> = self.writer.push(key, row)?;
        self.offers = Ghost(grown);
        assert(self.written() =~= written + appended@);
        Ok(appended)
    }

    /// Completes the segment.
    pub fn finish(self) -> (finished: Result<FinishedSegment, ColumnarError>)
        requires
            self.wf(),
        ensures
            match segment_built(self.plan(), self.offers@) {
                Ok(file) => {
                    &&& finished is Ok
                    &&& file.payload + file.footer == self.written() + finished->Ok_0.tail@
                    &&& finished->Ok_0.header@ == file.header
                    &&& finished->Ok_0.row_count == self.offers@.len()
                    &&& finished->Ok_0.row_group_count == file.groups.len()
                    &&& finished->Ok_0.segment_bytes == writer::file_of(file).len()
                    &&& finished->Ok_0.checksum == bytes::u32_at(
                        file.footer,
                        file.footer.len() - 4,
                    )
                },
                Err(error) => finished == Err::<FinishedSegment, ColumnarError>(error),
            },
    {
        assert(self.writer.all_pieces() == writer::completed(
            self.writer.pieces@,
            self.writer.pending(),
        ));
        self.writer.finish()
    }
}

} // verus!
