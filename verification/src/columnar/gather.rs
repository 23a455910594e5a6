//! Gathering rows into groups that are all made before the first is written.
use super::base;
use super::block::{self, BlockRef, LazyRowGroup};
use super::error::ColumnarError;
use super::feed::{self, Offer};
use super::group::{self, RowGroup};
use super::lazy_segment::{self, LAZY_SEGMENT_HEADER_BYTES};
use super::metadata::SegmentIdentity;
use super::reader;
use super::vector::{self, ColumnarColumnSpec};
use super::version::SnapshotKind;
use super::writer::{self, FinishedSegment, Piece, SegmentPlan};
use crate::bytes;
use crate::change_stream::types::StorageVersionKey;
use crate::value::{self, ScalarValue, ScalarView};
use vstd::prelude::*;

verus! {

broadcast use crate::bytes::group_le_len;

/// The pending rows with one more.
pub open spec fn piece_grown(plan: SegmentPlan, pending: Piece, offer: Offer) -> Piece {
    Piece {
        keys: if plan.versioned {
            pending.keys.push(offer.key)
        } else {
            pending.keys
        },
        rows: pending.rows.push(offer.row),
    }
}

/// The pieces and the pending rows after one more row.
pub open spec fn gathered_one(
    plan: SegmentPlan,
    so_far: (Seq<Piece>, Piece),
    offer: Offer,
) -> Result<(Seq<Piece>, Piece), ColumnarError> {
    let (pieces, pending) = so_far;
    let piece = piece_grown(plan, pending, offer);
    if piece.rows.len() < plan.group_rows {
        Ok((pieces, piece))
    } else {
        match group::group_error(plan.columns, piece.rows) {
            Some(error) => Err(error),
            None => Ok((pieces.push(piece), writer::no_piece())),
        }
    }
}

/// The pieces and the pending rows after the first `n` offers, unless one of them
/// is refused or a piece does not make a group.
pub open spec fn gathered(plan: SegmentPlan, offers: Seq<Offer>, n: int) -> Result<
    (Seq<Piece>, Piece),
    ColumnarError,
>
    decreases n,
{
    if n <= 0 {
        Ok((Seq::empty(), writer::no_piece()))
    } else {
        match gathered(plan, offers, n - 1) {
            Err(error) => Err(error),
            Ok(so_far) => match feed::refusal(plan.versioned, offers, n - 1) {
                Some(error) => Err(error),
                None => gathered_one(plan, so_far, offers[n - 1]),
            },
        }
    }
}

/// The pieces with the pending rows as a last one, which must make a group.
pub open spec fn ended(plan: SegmentPlan, so_far: (Seq<Piece>, Piece)) -> Result<
    Seq<Piece>,
    ColumnarError,
> {
    let (pieces, pending) = so_far;
    if pending.rows.len() == 0 {
        Ok(pieces)
    } else {
        match group::group_error(plan.columns, pending.rows) {
            Some(error) => Err(error),
            None => Ok(pieces.push(pending)),
        }
    }
}

/// The pieces that offers make.
pub open spec fn all_gathered(plan: SegmentPlan, offers: Seq<Offer>) -> Result<
    Seq<Piece>,
    ColumnarError,
> {
    match gathered(plan, offers, offers.len() as int) {
        Err(error) => Err(error),
        Ok(so_far) => ended(plan, so_far),
    }
}

/// A refused offer refuses all that follow.
pub proof fn lemma_gathered_prefix(plan: SegmentPlan, offers: Seq<Offer>, n: int, m: int)
    requires
        n <= m,
        gathered(plan, offers, n) is Err,
    ensures
        gathered(plan, offers, m) == gathered(plan, offers, n),
    decreases m - n,
{
    if n < m {
        lemma_gathered_prefix(plan, offers, n, m - 1);
    }
}

/// What is gathered of some offers does not depend on later ones.
pub proof fn lemma_gathered_same(plan: SegmentPlan, left: Seq<Offer>, right: Seq<Offer>, n: int)
    requires
        0 <= n <= left.len(),
        n <= right.len(),
        forall|i: int| 0 <= i < n ==> left[i] == right[i],
    ensures
        gathered(plan, left, n) == gathered(plan, right, n),
    decreases n,
{
    if n > 0 {
        lemma_gathered_same(plan, left, right, n - 1);
        feed::lemma_refusal_same(plan.versioned, left, right, n - 1);
    }
}

/// Whether groups are those that pieces make.
pub open spec fn groups_match(plan: SegmentPlan, groups: Seq<RowGroup>, pieces: Seq<Piece>) -> bool {
    &&& groups.len() == pieces.len()
    &&& forall|i: int|
        0 <= i < pieces.len() ==> {
            &&& (#[trigger] groups[i])@ == writer::piece_group(plan, pieces[i])
            &&& group::group_error(plan.columns, pieces[i].rows) is None
        }
}

/// Groups that are being gathered.
pub struct GroupGatherer {
    pub columns: Vec<ColumnarColumnSpec>,
    pub versioned: bool,
    pub group_rows: usize,
    pub row_count: u64,
    pub pending_keys: Vec<StorageVersionKey>,
    pub pending_rows: Vec<Vec<ScalarValue>>,
    pub groups: Vec<RowGroup>,
    pub plan: Ghost<SegmentPlan>,
    pub pieces: Ghost<Seq<Piece>>,
}

impl GroupGatherer {
    /// The rows that do not make a group yet.
    pub open spec fn pending(&self) -> Piece {
        Piece { keys: self.pending_keys@, rows: vector::rows_view(self.pending_rows@) }
    }

    /// Whether the groups are those of the pieces.
    pub open spec fn wf(&self) -> bool {
        &&& self.group_rows > 0
        &&& self.plan@.columns == self.columns@
        &&& self.plan@.versioned == self.versioned
        &&& self.plan@.group_rows == self.group_rows
        &&& self.pending_rows@.len() < self.group_rows
        &&& groups_match(self.plan@, self.groups@, self.pieces@)
    }

    /// No groups.
    pub(crate) fn new(
        Ghost(plan): Ghost<SegmentPlan>,
        columns: Vec<ColumnarColumnSpec>,
        versioned: bool,
        group_rows: usize,
    ) -> (gatherer: Self)
        requires
            group_rows > 0,
            plan.columns == columns@,
            plan.versioned == versioned,
            plan.group_rows == group_rows,
        ensures
            gatherer.wf(),
            gatherer.plan@ == plan,
            gatherer.pieces@ == Seq::<Piece>::empty(),
            gatherer.pending() == writer::no_piece(),
            gatherer.row_count == 0,
    {
        let pending_rows: Vec<Vec<ScalarValue>> = Vec::new();
        assert(vector::rows_view(pending_rows@) =~= Seq::empty());
        GroupGatherer {
            columns,
            versioned,
            group_rows,
            row_count: 0,
            pending_keys: Vec::new(),
            pending_rows,
            groups: Vec::new(),
            plan: Ghost(plan),
            pieces: Ghost(Seq::empty()),
        }
    }

    fn flush(&mut self) -> (flushed: Result<(), ColumnarError>)
        requires
            old(self).group_rows > 0,
            old(self).plan@.columns == old(self).columns@,
            old(self).plan@.versioned == old(self).versioned,
            old(self).plan@.group_rows == old(self).group_rows,
            groups_match(old(self).plan@, old(self).groups@, old(self).pieces@),
        ensures
            match group::group_error(old(self).columns@, old(self).pending().rows) {
                Some(error) => flushed == Err::<(), ColumnarError>(error),
                None => {
                    &&& flushed is Ok
                    &&& final(self).wf()
                    &&& final(self).plan == old(self).plan
                    &&& final(self).row_count == old(self).row_count
                    &&& final(self).pieces@ == old(self).pieces@.push(old(self).pending())
                    &&& final(self).pending() == writer::no_piece()
                },
            },
    {
        let ghost piece = self.pending();
        let made: RowGroup = if self.versioned {
            let keys: Vec<StorageVersionKey> = self.pending_keys.clone();
            assert(keys@ =~= self.pending_keys@);
            group::encode_versioned_row_group(
                self.columns.as_slice(),
                keys,
                self.pending_rows.as_slice(),
            )?
        } else {
            group::encode_row_group(self.columns.as_slice(), self.pending_rows.as_slice())?
        };
        assert(made@ == writer::piece_group(self.plan@, piece));
        self.groups.push(made);
        self.pending_keys = Vec::new();
        self.pending_rows = Vec::new();
        assert(vector::rows_view(self.pending_rows@) =~= Seq::empty());
        self.pieces = Ghost(self.pieces@.push(piece));
        Ok(())
    }

    /// Adds a row, with the version that it was taken from where they are kept.
    pub fn push(&mut self, key: Option<StorageVersionKey>, row: Vec<ScalarValue>, overflow: &'static str)
        -> (pushed: Result<(), ColumnarError>)
        requires
            old(self).wf(),
            key is Some <==> old(self).versioned,
        ensures
            if old(self).row_count == u64::MAX {
                pushed == Err::<(), ColumnarError>(ColumnarError::InvalidInput(overflow))
            } else {
                match gathered_one(
                    old(self).plan@,
                    (old(self).pieces@, old(self).pending()),
                    bare_offer(base::key_or_none(key), value::row_view(row@)),
                ) {
                    Ok((pieces, pending)) => {
                        &&& pushed is Ok
                        &&& final(self).wf()
                        &&& final(self).plan == old(self).plan
                        &&& final(self).row_count == old(self).row_count + 1
                        &&& final(self).pieces@ == pieces
                        &&& final(self).pending() == pending
                    },
                    Err(error) => pushed == Err::<(), ColumnarError>(error),
                }
            },
    {
        if self.row_count == u64::MAX {
            return Err(ColumnarError::InvalidInput(overflow));
        }
        self.row_count = self.row_count + 1;
        if let Some(known) = key {
            self.pending_keys.push(known);
        }
        let ghost before = vector::rows_view(self.pending_rows@);
        let ghost last = value::row_view(row@);
        self.pending_rows.push(row);
        assert(vector::rows_view(self.pending_rows@) =~= before.push(last));
        if self.pending_rows.len() == self.group_rows {
            return self.flush();
        }
        Ok(())
    }

    /// Makes a last group of the pending rows, if there are any.
    pub fn end(&mut self) -> (closed: Result<(), ColumnarError>)
        requires
            old(self).wf(),
        ensures
            match ended(old(self).plan@, (old(self).pieces@, old(self).pending())) {
                Ok(pieces) => {
                    &&& closed is Ok
                    &&& final(self).plan == old(self).plan
                    &&& final(self).row_count == old(self).row_count
                    &&& final(self).pieces@ == pieces
                    &&& groups_match(final(self).plan@, final(self).groups@, pieces)
                },
                Err(error) => closed == Err::<(), ColumnarError>(error),
            },
    {
        if self.pending_rows.len() > 0 {
            return self.flush();
        }
        Ok(())
    }
}

/// A row with nothing wrong.
pub open spec fn bare_offer(key: StorageVersionKey, row: Seq<ScalarView>) -> Offer {
    Offer { lead: None, key, duplicate: ColumnarError::InvalidInput(""), fault: None, row }
}

// ---------------------------------------------------------------------------
// Writing groups
// ---------------------------------------------------------------------------
fn write_groups(
    identity: &SegmentIdentity,
    columns: &[ColumnarColumnSpec],
    groups: &[RowGroup],
    versioned: bool,
    Ghost(plan): Ghost<SegmentPlan>,
    Ghost(pieces): Ghost<Seq<Piece>>,
) -> (written: Result<(Vec<u8>, Vec<LazyRowGroup>), ColumnarError>)
    requires
        plan.identity == *identity,
        plan.columns == columns@,
        plan.versioned == versioned,
        plan.start == LAZY_SEGMENT_HEADER_BYTES,
        groups_match(plan, groups@, pieces),
    ensures
        match writer::pieces_written(plan, pieces, pieces.len() as int) {
            Ok((payload, entries)) => {
                &&& written is Ok
                &&& written->Ok_0.0@ == payload
                &&& block::lazy_groups_view(written->Ok_0.1@) == entries
                &&& plan.start + payload.len() <= u64::MAX
            },
            Err(error) => written == Err::<(Vec<u8>, Vec<LazyRowGroup>), ColumnarError>(error),
        },
{
    let mut output: Vec<u8> = Vec::new();
    let mut directory: Vec<LazyRowGroup> = Vec::new();
    assert(block::lazy_groups_view(directory@) =~= Seq::empty());
    let mut i: usize = 0;
    while i < groups.len()
        invariant
            i <= groups@.len(),
            plan.identity == *identity,
            plan.columns == columns@,
            plan.versioned == versioned,
            plan.start == LAZY_SEGMENT_HEADER_BYTES,
            groups_match(plan, groups@, pieces),
            LAZY_SEGMENT_HEADER_BYTES + output@.len() <= u64::MAX,
            writer::pieces_written(plan, pieces, i as int) == Ok::<
                (Seq<u8>, Seq<block::LazyGroupView>),
                ColumnarError,
            >((output@, block::lazy_groups_view(directory@))),
        decreases groups@.len() - i,
    {
        proof {
            assert(groups@[i as int]@ == writer::piece_group(plan, pieces[i as int]));
            if writer::pieces_written(plan, pieces, i + 1) is Err {
                lemma_pieces_stop(plan, pieces, i + 1, pieces.len() as int);
            }
        }
        let offset: u64 = LAZY_SEGMENT_HEADER_BYTES + output.len() as u64;
        let (payload, known) = lazy_segment::encode_lazy_row_group(
            offset,
            identity.storage_id,
            columns,
            &groups[i],
            versioned,
        )?;
        let ghost before = block::lazy_groups_view(directory@);
        let ghost last = known@;
        bytes::push_bytes(&mut output, payload.as_slice());
        directory.push(known);
        i = i + 1;
        assert(block::lazy_groups_view(directory@) =~= before.push(last));
    }
    Ok((output, directory))
}

proof fn lemma_pieces_stop(plan: SegmentPlan, pieces: Seq<Piece>, n: int, m: int)
    requires
        n <= m,
        writer::pieces_written(plan, pieces, n) is Err,
    ensures
        writer::pieces_written(plan, pieces, m) == writer::pieces_written(plan, pieces, n),
    decreases m - n,
{
    if n < m {
        lemma_pieces_stop(plan, pieces, n, m - 1);
    }
}

/// Writes an indexed base segment of groups.
pub(crate) fn encode_lazy_segment(
    identity: &SegmentIdentity,
    kind: SnapshotKind,
    columns: &[ColumnarColumnSpec],
    groups: &[RowGroup],
    versioned: bool,
    rows: u64,
    Ghost(plan): Ghost<SegmentPlan>,
    Ghost(pieces): Ghost<Seq<Piece>>,
) -> (finished: Result<FinishedSegment, ColumnarError>)
    requires
        plan.identity == *identity,
        plan.kind == kind,
        plan.columns == columns@,
        plan.versioned == versioned,
        plan.start == LAZY_SEGMENT_HEADER_BYTES,
        groups_match(plan, groups@, pieces),
    ensures
        match writer::segment_made(plan, pieces, rows) {
            Ok(file) => {
                &&& finished is Ok
                &&& file.payload + file.footer == finished->Ok_0.tail@
                &&& finished->Ok_0.header@ == file.header
                &&& finished->Ok_0.row_count == rows
                &&& finished->Ok_0.row_group_count == file.groups.len()
                &&& finished->Ok_0.segment_bytes == writer::file_of(file).len()
                &&& finished->Ok_0.checksum == bytes::u32_at(file.footer, file.footer.len() - 4)
            },
            Err(error) => finished == Err::<FinishedSegment, ColumnarError>(error),
        },
{
    let (payload, directory) = write_groups(
        identity,
        columns,
        groups,
        versioned,
        Ghost(plan),
        Ghost(pieces),
    )?;
    let ghost entries = block::lazy_groups_view(directory@);
    let footer: Vec<u8> = lazy_segment::encode_segment_footer(
        identity,
        columns.len(),
        directory.as_slice(),
        rows,
    )?;
    let offset: u64 = LAZY_SEGMENT_HEADER_BYTES + payload.len() as u64;
    let length: u64 = footer.len() as u64;
    if length > u64::MAX - offset {
        return Err(ColumnarError::ResourceLimit { resource: "segment bytes", value: u64::MAX });
    }
    let checksum: u32 = match reader::stored_checksum(footer.as_slice()) {
        Ok(stored) => stored,
        Err(error) => {
            return Err(error);
        },
    };
    let place: BlockRef = BlockRef { offset, length, checksum };
    let header: Vec<u8> = lazy_segment::encode_lazy_segment_header(
        identity,
        kind,
        versioned,
        columns.len(),
        directory.len(),
        rows,
        place,
    )?;
    proof {
        lazy_segment::lemma_header_len(
            plan.identity,
            plan.kind,
            plan.versioned,
            plan.columns.len(),
            entries.len(),
            rows,
            place,
        );
    }
    let row_group_count: u64 = directory.len() as u64;
    let mut tail: Vec<u8> = payload;
    bytes::push_bytes(&mut tail, footer.as_slice());
    Ok(
        FinishedSegment {
            tail,
            header,
            row_count: rows,
            row_group_count,
            segment_bytes: offset + length,
            checksum,
        },
    )
}

// ---------------------------------------------------------------------------
// Laws
// ---------------------------------------------------------------------------
/// Rows that are gathered are all in the pieces and the pending rows, in order.
pub proof fn law_gathered_rows_are_kept(plan: SegmentPlan, offers: Seq<Offer>, n: int)
    requires
        0 <= n <= offers.len(),
        gathered(plan, offers, n) is Ok,
    ensures
        ({
            let (pieces, pending) = gathered(plan, offers, n)->Ok_0;
            writer::flattened(pieces, pieces.len() as int) + pending.rows == feed::offer_rows(
                offers,
            ).take(n)
        }),
    decreases n,
{
    let rows = feed::offer_rows(offers);
    let (pieces, pending) = gathered(plan, offers, n)->Ok_0;
    if n > 0 {
        let (earlier, waiting) = gathered(plan, offers, n - 1)->Ok_0;
        law_gathered_rows_are_kept(plan, offers, n - 1);
        let before = writer::flattened(earlier, earlier.len() as int);
        assert(rows.take(n) =~= rows.take(n - 1).push(rows[n - 1]));
        if pending.rows.len() == 0 {
            writer::lemma_flattened_prefix(pieces, earlier, earlier.len() as int);
            assert(writer::flattened(pieces, pieces.len() as int) + pending.rows =~= before
                + waiting.rows.push(rows[n - 1]));
            assert(before + waiting.rows.push(rows[n - 1]) =~= (before + waiting.rows).push(
                rows[n - 1],
            ));
        } else {
            assert(before + pending.rows =~= (before + waiting.rows).push(rows[n - 1]));
        }
    } else {
        assert(writer::flattened(pieces, 0) + pending.rows =~= rows.take(0));
    }
}

} // verus!
