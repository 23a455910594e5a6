//! Writing an indexed base segment row by row, with at most one group of rows
//! in memory.
use super::block::{self, BlockRef, LazyGroupView, LazyRowGroup};
use super::error::ColumnarError;
use super::group::{self, GroupView, RowGroup};
use super::lazy_segment::{self, LAZY_SEGMENT_HEADER_BYTES};
use super::metadata::SegmentIdentity;
use super::reader;
use super::vector::{self, ColumnarColumnSpec};
use super::version::SnapshotKind;
use crate::bytes;
use crate::change_stream::types::StorageVersionKey;
use crate::value::{self, ScalarValue, ScalarView};
use vstd::prelude::*;

verus! {

broadcast use crate::bytes::group_le_len;

/// Rows that make one group, and the versions that they were taken from.
pub struct Piece {
    pub keys: Seq<StorageVersionKey>,
    pub rows: Seq<Seq<ScalarView>>,
}

/// A piece with nothing in it.
pub open spec fn no_piece() -> Piece {
    Piece { keys: Seq::empty(), rows: Seq::empty() }
}

/// What a segment is written for.
pub struct SegmentPlan {
    pub identity: SegmentIdentity,
    pub kind: SnapshotKind,
    pub columns: Seq<ColumnarColumnSpec>,
    pub versioned: bool,
    pub group_rows: usize,
    /// Where the first block stands: behind the header.
    pub start: u64,
}

/// The group that a piece makes.
pub open spec fn piece_group(plan: SegmentPlan, piece: Piece) -> GroupView {
    group::group_of(
        plan.columns,
        piece.rows,
        if plan.versioned {
            Some(piece.keys)
        } else {
            None
        },
    )
}

/// A piece as blocks from a place on, and what the directory says of it.
pub open spec fn piece_written(plan: SegmentPlan, piece: Piece, offset: int) -> Result<
    (Seq<u8>, LazyGroupView),
    ColumnarError,
> {
    match group::group_error(plan.columns, piece.rows) {
        Some(error) => Err(error),
        None => lazy_segment::lazy_group(
            plan.identity.storage_id,
            plan.columns,
            piece_group(plan, piece),
            plan.versioned,
            offset,
        ),
    }
}

/// The first `n` pieces as blocks from the start on, and the directory.
pub open spec fn pieces_written(plan: SegmentPlan, pieces: Seq<Piece>, n: int) -> Result<
    (Seq<u8>, Seq<LazyGroupView>),
    ColumnarError,
>
    decreases n,
{
    if n <= 0 {
        Ok((Seq::empty(), Seq::empty()))
    } else {
        match pieces_written(plan, pieces, n - 1) {
            Err(error) => Err(error),
            Ok((before, groups)) => match piece_written(
                plan,
                pieces[n - 1],
                plan.start + before.len(),
            ) {
                Err(error) => Err(error),
                Ok((payload, known)) => Ok((before + payload, groups.push(known))),
            },
        }
    }
}

/// A finished segment: what stands behind the header, the header, and the
/// directory.
pub struct SegmentFile {
    pub payload: Seq<u8>,
    pub footer: Seq<u8>,
    pub header: Seq<u8>,
    pub groups: Seq<LazyGroupView>,
}

/// The segment that pieces make, with so many rows.
pub open spec fn segment_made(plan: SegmentPlan, pieces: Seq<Piece>, rows: u64) -> Result<
    SegmentFile,
    ColumnarError,
> {
    match pieces_written(plan, pieces, pieces.len() as int) {
        Err(error) => Err(error),
        Ok((payload, groups)) => match block::directories_error(groups, groups.len() as int) {
            Some(error) => Err(error),
            None => {
                let footer = reader::checked(
                    lazy_segment::footer_payload(
                        plan.identity,
                        plan.columns.len(),
                        groups,
                        rows,
                    ),
                );
                let place = BlockRef {
                    offset: (LAZY_SEGMENT_HEADER_BYTES + payload.len()) as u64,
                    length: footer.len() as u64,
                    checksum: bytes::u32_at(footer, footer.len() - 4),
                };
                if LAZY_SEGMENT_HEADER_BYTES + payload.len() + footer.len() > u64::MAX {
                    Err(ColumnarError::ResourceLimit { resource: "segment bytes", value: u64::MAX })
                } else if plan.columns.len() > u32::MAX {
                    Err(ColumnarError::InvalidInput("column count overflow"))
                } else if groups.len() > u32::MAX {
                    Err(ColumnarError::InvalidInput("row-group count overflow"))
                } else {
                    Ok(
                        SegmentFile {
                            payload,
                            footer,
                            header: reader::checked(
                                lazy_segment::header_payload(
                                    plan.identity,
                                    plan.kind,
                                    plan.versioned,
                                    plan.columns.len(),
                                    groups.len(),
                                    rows,
                                    place,
                                ),
                            ),
                            groups,
                        },
                    )
                }
            },
        },
    }
}

/// The bytes of a finished segment's file.
pub open spec fn file_of(file: SegmentFile) -> Seq<u8> {
    file.header + file.payload + file.footer
}

/// A segment that is being written. The caller leaves room for the header,
/// appends what `push` and `finish` give, and writes the header last.
pub struct SegmentWriter {
    pub identity: SegmentIdentity,
    pub kind: SnapshotKind,
    pub columns: Vec<ColumnarColumnSpec>,
    pub versioned: bool,
    pub group_rows: usize,
    pub start: u64,
    pub overflow: &'static str,
    pub offset: u64,
    pub row_count: u64,
    pub pending_keys: Vec<StorageVersionKey>,
    pub pending_rows: Vec<Vec<ScalarValue>>,
    pub directory: Vec<LazyRowGroup>,
    pub pieces: Ghost<Seq<Piece>>,
}

/// What is still to be written of a segment.
#[derive(Debug)]
pub struct FinishedSegment {
    /// What is appended to the file.
    pub tail: Vec<u8>,
    /// What is written at the start of the file.
    pub header: Vec<u8>,
    pub row_count: u64,
    pub row_group_count: u64,
    pub segment_bytes: u64,
    pub checksum: u32,
}

impl SegmentWriter {
    /// What the segment is written for.
    pub open spec fn plan(&self) -> SegmentPlan {
        SegmentPlan {
            identity: self.identity,
            kind: self.kind,
            columns: self.columns@,
            versioned: self.versioned,
            group_rows: self.group_rows,
            start: self.start,
        }
    }

    /// The rows that do not make a group yet.
    pub open spec fn pending(&self) -> Piece {
        Piece { keys: self.pending_keys@, rows: vector::rows_view(self.pending_rows@) }
    }

    /// The pieces once the pending rows make a last one, if there are any.
    pub open spec fn all_pieces(&self) -> Seq<Piece> {
        if self.pending_rows@.len() == 0 {
            self.pieces@
        } else {
            self.pieces@.push(self.pending())
        }
    }

    /// Whether the directory, the position and the pending rows go with the
    /// pieces.
    pub open spec fn wf(&self) -> bool {
        &&& self.group_rows > 0
        &&& self.pending_rows@.len() < self.group_rows
        &&& self.pending_keys@.len() == if self.versioned {
            self.pending_rows@.len()
        } else {
            0
        }
        &&& match pieces_written(self.plan(), self.pieces@, self.pieces@.len() as int) {
            Ok((payload, groups)) => {
                &&& block::lazy_groups_view(self.directory@) == groups
                &&& self.offset == self.start + payload.len()
            },
            Err(_) => false,
        }
    }

    /// The payload that was given out.
    pub open spec fn written(&self) -> Seq<u8> {
        pieces_written(self.plan(), self.pieces@, self.pieces@.len() as int)->Ok_0.0
    }

    /// A segment with no rows.
    pub fn new(
        identity: SegmentIdentity,
        kind: SnapshotKind,
        columns: Vec<ColumnarColumnSpec>,
        versioned: bool,
        group_rows: usize,
        start: u64,
        overflow: &'static str,
    ) -> (writer: Self)
        requires
            group_rows > 0,
        ensures
            writer.wf(),
            writer.plan() == (SegmentPlan {
                identity,
                kind,
                columns: columns@,
                versioned,
                group_rows,
                start,
            }),
            writer.overflow == overflow,
            writer.pieces@ == Seq::<Piece>::empty(),
            writer.pending() == no_piece(),
            writer.row_count == 0,
    {
        let directory: Vec<LazyRowGroup> = Vec::new();
        let pending_rows: Vec<Vec<ScalarValue>> = Vec::new();
        assert(block::lazy_groups_view(directory@) =~= Seq::empty());
        assert(vector::rows_view(pending_rows@) =~= Seq::empty());
        SegmentWriter {
            identity,
            kind,
            columns,
            versioned,
            group_rows,
            start,
            overflow,
            offset: start,
            row_count: 0,
            pending_keys: Vec::new(),
            pending_rows,
            directory,
            pieces: Ghost(Seq::empty()),
        }
    }

    fn flush(&mut self) -> (flushed: Result<Vec<u8>, ColumnarError>)
        requires
            old(self).group_rows > 0,
            old(self).pending_rows@.len() > 0,
            match pieces_written(
                old(self).plan(),
                old(self).pieces@,
                old(self).pieces@.len() as int,
            ) {
                Ok((payload, groups)) => {
                    &&& block::lazy_groups_view(old(self).directory@) == groups
                    &&& old(self).offset == old(self).start + payload.len()
                },
                Err(_) => false,
            },
        ensures
            match pieces_written(
                old(self).plan(),
                old(self).pieces@.push(old(self).pending()),
                old(self).pieces@.len() as int + 1,
            ) {
                Ok((payload, groups)) => {
                    &&& flushed is Ok
                    &&& final(self).wf()
                    &&& final(self).plan() == old(self).plan()
                    &&& final(self).overflow == old(self).overflow
                    &&& final(self).row_count == old(self).row_count
                    &&& final(self).pieces@ == old(self).pieces@.push(old(self).pending())
                    &&& final(self).pending() == no_piece()
                    &&& payload == old(self).written() + flushed->Ok_0@
                },
                Err(error) => flushed == Err::<Vec<u8>, ColumnarError>(error),
            },
    {
        let ghost start = *self;
        let ghost plan = self.plan();
        let ghost before = self.pieces@;
        let ghost piece = self.pending();
        let ghost grown = before.push(piece);
        proof {
            lemma_pieces_prefix(plan, before, grown, before.len() as int);
        }
        let made: RowGroup = if self.versioned {
            let keys: Vec<StorageVersionKey> = self.pending_keys.clone();
            assert(keys@ =~= self.pending_keys@);
            group::encode_versioned_row_group(
                self.columns.as_slice(),
                keys,
                self.pending_rows.as_slice(),
            )?
        } else {
            group::encode_row_group(self.columns.as_slice(), self.pending_rows.as_slice())?
        };
        assert(made@ == piece_group(plan, piece));
        let (payload, known) = lazy_segment::encode_lazy_row_group(
            self.offset,
            self.identity.storage_id,
            self.columns.as_slice(),
            &made,
            self.versioned,
        )?;
        self.offset = self.offset + payload.len() as u64;
        let ghost groups = block::lazy_groups_view(self.directory@);
        let ghost last = known@;
        self.directory.push(known);
        assert(block::lazy_groups_view(self.directory@) =~= groups.push(last));
        self.pending_keys = Vec::new();
        self.pending_rows = Vec::new();
        assert(vector::rows_view(self.pending_rows@) =~= Seq::empty());
        self.pieces = Ghost(grown);
        Ok(payload)
    }

    /// Adds a row, with the version that it was taken from where the segment
    /// keeps them, and gives what is appended to the file.
    pub fn push(&mut self, key: Option<StorageVersionKey>, row: Vec<ScalarValue>) -> (pushed:
        Result<Vec<u8>, ColumnarError>)
        requires
            old(self).wf(),
            key is Some <==> old(self).versioned,
        ensures
            ({
                let piece = Piece {
                    keys: match key {
                        Some(known) => old(self).pending().keys.push(known),
                        None => old(self).pending().keys,
                    },
                    rows: old(self).pending().rows.push(value::row_view(row@)),
                };
                let grown = old(self).pieces@.push(piece);
                if old(self).row_count == u64::MAX {
                    pushed == Err::<Vec<u8>, ColumnarError>(
                        ColumnarError::InvalidInput(old(self).overflow),
                    )
                } else if piece.rows.len() < old(self).group_rows {
                    &&& pushed is Ok
                    &&& pushed->Ok_0@ == Seq::<u8>::empty()
                    &&& final(self).wf()
                    &&& final(self).plan() == old(self).plan()
                    &&& final(self).overflow == old(self).overflow
                    &&& final(self).row_count == old(self).row_count + 1
                    &&& final(self).pieces@ == old(self).pieces@
                    &&& final(self).pending() == piece
                } else {
                    match pieces_written(old(self).plan(), grown, grown.len() as int) {
                        Ok((payload, _)) => {
                            &&& pushed is Ok
                            &&& payload == old(self).written() + pushed->Ok_0@
                            &&& final(self).wf()
                            &&& final(self).plan() == old(self).plan()
                            &&& final(self).overflow == old(self).overflow
                            &&& final(self).row_count == old(self).row_count + 1
                            &&& final(self).pieces@ == grown
                            &&& final(self).pending() == no_piece()
                        },
                        Err(error) => pushed == Err::<Vec<u8>, ColumnarError>(error),
                    }
                }
            }),
    {
        if self.row_count == u64::MAX {
            return Err(ColumnarError::InvalidInput(self.overflow));
        }
        self.row_count = self.row_count + 1;
        if let Some(known) = key {
            self.pending_keys.push(known);
        }
        let ghost before = vector::rows_view(self.pending_rows@);
        let ghost last = value::row_view(row@);
        self.pending_rows.push(row);
        assert(vector::rows_view(self.pending_rows@) =~= before.push(last));
        if self.pending_rows.len() == self.group_rows {
            return self.flush();
        }
        Ok(Vec::new())
    }

    /// Ends the blocks: gives what is appended to the file, and the directory.
    pub fn close(self) -> (closed: Result<(Vec<u8>, Vec<LazyRowGroup>), ColumnarError>)
        requires
            self.wf(),
        ensures
            match pieces_written(
                self.plan(),
                self.all_pieces(),
                self.all_pieces().len() as int,
            ) {
                Ok((payload, groups)) => {
                    &&& closed is Ok
                    &&& payload == self.written() + closed->Ok_0.0@
                    &&& block::lazy_groups_view(closed->Ok_0.1@) == groups
                    &&& self.start + payload.len() <= u64::MAX
                },
                Err(error) => closed == Err::<(Vec<u8>, Vec<LazyRowGroup>), ColumnarError>(error),
            },
    {
        let ghost start = self;
        let ghost all = self.all_pieces();
        let mut writer: SegmentWriter = self;
        let tail: Vec<u8> = if writer.pending_rows.len() > 0 {
            writer.flush()?
        } else {
            Vec::new()
        };
        assert(writer.pieces@ == all);
        assert(writer.written() =~= start.written() + tail@);
        Ok((tail, writer.directory))
    }

    /// Completes the segment.
    pub fn finish(self) -> (finished: Result<FinishedSegment, ColumnarError>)
        requires
            self.wf(),
            self.start == LAZY_SEGMENT_HEADER_BYTES,
        ensures
            match segment_made(self.plan(), self.all_pieces(), self.row_count) {
                Ok(file) => {
                    &&& finished is Ok
                    &&& file.payload + file.footer == self.written() + finished->Ok_0.tail@
                    &&& finished->Ok_0.header@ == file.header
                    &&& finished->Ok_0.row_count == self.row_count
                    &&& finished->Ok_0.row_group_count == file.groups.len()
                    &&& finished->Ok_0.segment_bytes == file_of(file).len()
                    &&& finished->Ok_0.checksum == bytes::u32_at(
                        file.footer,
                        file.footer.len() - 4,
                    )
                },
                Err(error) => finished == Err::<FinishedSegment, ColumnarError>(error),
            },
    {
        let ghost start = self;
        let ghost plan = self.plan();
        let ghost all = self.all_pieces();
        let mut writer: SegmentWriter = self;
        let mut tail: Vec<u8> = if writer.pending_rows.len() > 0 {
            writer.flush()?
        } else {
            Vec::new()
        };
        assert(writer.pieces@ == all);
        assert(writer.written() =~= start.written() + tail@);
        let ghost payload = writer.written();
        let ghost groups = block::lazy_groups_view(writer.directory@);
        let footer: Vec<u8> = lazy_segment::encode_segment_footer(
            &writer.identity,
            writer.columns.len(),
            writer.directory.as_slice(),
            writer.row_count,
        )?;
        let length: u64 = footer.len() as u64;
        if length > u64::MAX - writer.offset {
            return Err(ColumnarError::ResourceLimit { resource: "segment bytes", value: u64::MAX });
        }
        let checksum: u32 = match reader::stored_checksum(footer.as_slice()) {
            Ok(stored) => stored,
            Err(error) => {
                return Err(error);
            },
        };
        let place: BlockRef = BlockRef { offset: writer.offset, length, checksum };
        let header: Vec<u8> = lazy_segment::encode_lazy_segment_header(
            &writer.identity,
            writer.kind,
            writer.versioned,
            writer.columns.len(),
            writer.directory.len(),
            writer.row_count,
            place,
        )?;
        proof {
            lazy_segment::lemma_header_len(
                plan.identity,
                plan.kind,
                plan.versioned,
                plan.columns.len(),
                groups.len(),
                start.row_count,
                place,
            );
        }
        let segment_bytes: u64 = writer.offset + length;
        bytes::push_bytes(&mut tail, footer.as_slice());
        assert(payload + footer@ =~= start.written() + tail@);
        Ok(
            FinishedSegment {
                tail,
                header,
                row_count: writer.row_count,
                row_group_count: writer.directory.len() as u64,
                segment_bytes,
                checksum,
            },
        )
    }
}

/// What is written of some pieces does not depend on later ones.
pub proof fn lemma_pieces_prefix(plan: SegmentPlan, left: Seq<Piece>, right: Seq<Piece>, n: int)
    requires
        n <= left.len(),
        n <= right.len(),
        forall|i: int| 0 <= i < n ==> left[i] == right[i],
    ensures
        pieces_written(plan, left, n) == pieces_written(plan, right, n),
    decreases n,
{
    if n > 0 {
        lemma_pieces_prefix(plan, left, right, n - 1);
    }
}

/// There is a directory entry for each piece.
pub proof fn lemma_pieces_len(plan: SegmentPlan, pieces: Seq<Piece>, n: int)
    requires
        0 <= n <= pieces.len(),
    ensures
        pieces_written(plan, pieces, n) matches Ok((_, groups)) ==> groups.len() == n,
    decreases n,
{
    if n > 0 {
        lemma_pieces_len(plan, pieces, n - 1);
    }
}

// ---------------------------------------------------------------------------
// Rows in a row
// ---------------------------------------------------------------------------
/// The pieces and the pending rows after the first `n` rows, unless one of them
/// is refused or a piece cannot be written. Where versions are kept, `keys` has
/// one for each row.
pub open spec fn fed(
    plan: SegmentPlan,
    keys: Seq<StorageVersionKey>,
    rows: Seq<Seq<ScalarView>>,
    refusals: Seq<Option<ColumnarError>>,
    n: int,
) -> Result<(Seq<Piece>, Piece), ColumnarError>
    decreases n,
{
    if n <= 0 {
        Ok((Seq::empty(), no_piece()))
    } else {
        match fed(plan, keys, rows, refusals, n - 1) {
            Err(error) => Err(error),
            Ok((pieces, pending)) => match refusals[n - 1] {
                Some(error) => Err(error),
                None => {
                    let piece = Piece {
                        keys: if plan.versioned {
                            pending.keys.push(keys[n - 1])
                        } else {
                            pending.keys
                        },
                        rows: pending.rows.push(rows[n - 1]),
                    };
                    let grown = pieces.push(piece);
                    if piece.rows.len() < plan.group_rows {
                        Ok((pieces, piece))
                    } else {
                        match pieces_written(plan, grown, grown.len() as int) {
                            Err(error) => Err(error),
                            Ok(_) => Ok((grown, no_piece())),
                        }
                    }
                },
            },
        }
    }
}

/// The pieces, with the pending rows as a last one if there are any.
pub open spec fn completed(pieces: Seq<Piece>, pending: Piece) -> Seq<Piece> {
    if pending.rows.len() == 0 {
        pieces
    } else {
        pieces.push(pending)
    }
}

/// A refused row refuses all that follow.
pub proof fn lemma_fed_prefix(
    plan: SegmentPlan,
    keys: Seq<StorageVersionKey>,
    rows: Seq<Seq<ScalarView>>,
    refusals: Seq<Option<ColumnarError>>,
    n: int,
    m: int,
)
    requires
        n <= m,
        fed(plan, keys, rows, refusals, n) is Err,
    ensures
        fed(plan, keys, rows, refusals, m) == fed(plan, keys, rows, refusals, n),
    decreases m - n,
{
    if n < m {
        lemma_fed_prefix(plan, keys, rows, refusals, n, m - 1);
    }
}

/// No row is refused.
pub open spec fn no_refusals(n: nat) -> Seq<Option<ColumnarError>> {
    Seq::new(n, |i: int| None)
}

/// The rows of the first `n` pieces, one behind the other.
pub open spec fn flattened(pieces: Seq<Piece>, n: int) -> Seq<Seq<ScalarView>>
    decreases n,
{
    if n <= 0 {
        Seq::empty()
    } else {
        flattened(pieces, n - 1) + pieces[n - 1].rows
    }
}

/// The rows of some pieces do not depend on later ones.
pub proof fn lemma_flattened_prefix(left: Seq<Piece>, right: Seq<Piece>, n: int)
    requires
        0 <= n <= left.len(),
        n <= right.len(),
        forall|i: int| 0 <= i < n ==> left[i] == right[i],
    ensures
        flattened(left, n) == flattened(right, n),
    decreases n,
{
    if n > 0 {
        lemma_flattened_prefix(left, right, n - 1);
    }
}

/// Rows that were fed are all in the pieces and the pending rows, in order.
pub proof fn law_fed_rows_are_kept(
    plan: SegmentPlan,
    keys: Seq<StorageVersionKey>,
    rows: Seq<Seq<ScalarView>>,
    refusals: Seq<Option<ColumnarError>>,
    n: int,
)
    requires
        0 <= n <= rows.len(),
        fed(plan, keys, rows, refusals, n) is Ok,
    ensures
        ({
            let (pieces, pending) = fed(plan, keys, rows, refusals, n)->Ok_0;
            flattened(pieces, pieces.len() as int) + pending.rows == rows.take(n)
        }),
    decreases n,
{
    let (pieces, pending) = fed(plan, keys, rows, refusals, n)->Ok_0;
    if n > 0 {
        let (earlier, waiting) = fed(plan, keys, rows, refusals, n - 1)->Ok_0;
        law_fed_rows_are_kept(plan, keys, rows, refusals, n - 1);
        let before = flattened(earlier, earlier.len() as int);
        assert(rows.take(n) =~= rows.take(n - 1).push(rows[n - 1]));
        if pending.rows.len() == 0 {
            lemma_flattened_prefix(pieces, earlier, earlier.len() as int);
            assert(flattened(pieces, pieces.len() as int) + pending.rows =~= before
                + waiting.rows.push(rows[n - 1]));
            assert(before + waiting.rows.push(rows[n - 1]) =~= (before + waiting.rows).push(
                rows[n - 1],
            ));
        } else {
            assert(before + pending.rows =~= (before + waiting.rows).push(rows[n - 1]));
        }
    } else {
        assert(flattened(pieces, 0) + pending.rows =~= rows.take(0));
    }
}

} // verus!
