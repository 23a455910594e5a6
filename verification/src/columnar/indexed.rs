//! Indexed projections: the directories of their segments, and which blocks a
//! scan needs.
use super::block::{self, BlockRef, LazyGroupView, LazyRowGroup};
use super::group;
use super::overlay::{self, DeltaOverlay, DeltaRowRef, OverlayView};
use super::payload::BlockRequest;
use super::scan;
use super::statistics::ColumnarConstraint;
use crate::ids::ColumnId;
use vstd::prelude::*;

verus! {

/// The directory of a delta segment.
#[derive(Debug)]
pub struct LazyDeltaSegment {
    pub groups: Vec<LazyRowGroup>,
}

/// The directories of an indexed projection, with the rows that its delta
/// segments added. Each segment has a path for messages.
#[derive(Debug)]
pub struct LazyProjection {
    pub base_groups: Vec<LazyRowGroup>,
    pub deltas: Vec<LazyDeltaSegment>,
    pub overlay: DeltaOverlay<DeltaRowRef>,
    pub paths: Vec<String>,
    pub resident_metadata_bytes: u64,
    pub base_index_bytes: u64,
    pub delta_descriptor_bytes: u64,
}

/// What is known of an indexed projection.
pub struct LazyView {
    pub base_groups: Seq<LazyGroupView>,
    pub deltas: Seq<Seq<LazyGroupView>>,
    pub added: OverlayView<DeltaRowRef>,
    pub paths: Seq<String>,
}

/// What is known of delta segments.
pub open spec fn delta_groups_view(deltas: Seq<LazyDeltaSegment>) -> Seq<Seq<LazyGroupView>> {
    deltas.map_values(|delta: LazyDeltaSegment| block::lazy_groups_view(delta.groups@))
}

impl View for LazyProjection {
    type V = LazyView;

    open spec fn view(&self) -> LazyView {
        LazyView {
            base_groups: block::lazy_groups_view(self.base_groups@),
            deltas: delta_groups_view(self.deltas@),
            added: self.overlay@,
            paths: self.paths@,
        }
    }
}

/// Whether an overlay is in order, base groups have rows, delta segments can be
/// counted, and each segment has a path.
pub open spec fn indexed_kept(known: LazyView) -> bool {
    &&& forall|i: int|
        0 <= i < known.base_groups.len() ==> (#[trigger] known.base_groups[i]).rows > 0
    &&& overlay::overlay_kept(known.added)
    &&& known.deltas.len() <= u32::MAX
    &&& known.paths.len() == known.deltas.len() + 1
}

// ---------------------------------------------------------------------------
// Places of rows
// ---------------------------------------------------------------------------
/// A group of a delta segment, and the place of its first row in the segment.
pub struct SpotView {
    pub segment: u32,
    pub start: u64,
    pub known: LazyGroupView,
}

/// A group of a delta segment, and the place of its first row in the segment.
#[derive(Debug, Clone, Copy, PartialEq, Eq, Structural)]
pub struct Spot {
    pub segment: u32,
    pub place: usize,
    pub start: u64,
}

/// What a group of a delta segment is.
pub open spec fn spot_view(deltas: Seq<Seq<LazyGroupView>>, spot: Spot) -> SpotView {
    SpotView {
        segment: spot.segment,
        start: spot.start,
        known: deltas[spot.segment as int][spot.place as int],
    }
}

/// The place of the first row of a group.
pub open spec fn group_start(groups: Seq<LazyGroupView>, n: int) -> u64
    decreases n,
{
    if n <= 0 {
        0
    } else {
        scan::grown(group_start(groups, n - 1), groups[n - 1].rows as int)
    }
}

/// The first `n` groups of a delta segment.
pub open spec fn segment_spots(groups: Seq<LazyGroupView>, segment: u32, n: int) -> Seq<SpotView>
    decreases n,
{
    if n <= 0 {
        Seq::empty()
    } else {
        segment_spots(groups, segment, n - 1).push(
            SpotView { segment, start: group_start(groups, n - 1), known: groups[n - 1] },
        )
    }
}

/// The groups of the first `n` delta segments.
pub open spec fn all_spots(deltas: Seq<Seq<LazyGroupView>>, n: int) -> Seq<SpotView>
    decreases n,
{
    if n <= 0 {
        Seq::empty()
    } else {
        all_spots(deltas, n - 1) + segment_spots(
            deltas[n - 1],
            (n - 1) as u32,
            deltas[n - 1].len() as int,
        )
    }
}

/// Whether a row is in a group.
pub open spec fn inside(spot: SpotView, reference: DeltaRowRef) -> bool {
    &&& reference.segment == spot.segment
    &&& spot.start <= reference.row < scan::grown(spot.start, spot.known.rows as int)
}

/// Whether one of some rows is in a group.
pub open spec fn touched(spot: SpotView, references: Seq<DeltaRowRef>) -> bool {
    exists|i: int| 0 <= i < references.len() && inside(spot, #[trigger] references[i])
}

/// What groups of delta segments are.
pub open spec fn spots_view(deltas: Seq<Seq<LazyGroupView>>, spots: Seq<Spot>) -> Seq<SpotView> {
    spots.map_values(|spot: Spot| spot_view(deltas, spot))
}

/// Whether a group is one of a delta segment.
pub open spec fn spot_within(deltas: Seq<Seq<LazyGroupView>>, spot: Spot) -> bool {
    &&& spot.segment < deltas.len()
    &&& spot.place < deltas[spot.segment as int].len()
}

/// The groups of delta segments.
pub fn list_spots(deltas: &[LazyDeltaSegment]) -> (spots: Vec<Spot>)
    requires
        deltas@.len() <= u32::MAX,
    ensures
        spots_view(delta_groups_view(deltas@), spots@) == all_spots(
            delta_groups_view(deltas@),
            deltas@.len() as int,
        ),
        forall|i: int|
            0 <= i < spots@.len() ==> spot_within(
                delta_groups_view(deltas@),
                #[trigger] spots@[i],
            ),
{
    let ghost known = delta_groups_view(deltas@);
    let mut spots: Vec<Spot> = Vec::new();
    assert(spots_view(known, spots@) =~= Seq::empty());
    let mut i: usize = 0;
    while i < deltas.len()
        invariant
            i <= deltas@.len(),
            deltas@.len() <= u32::MAX,
            known == delta_groups_view(deltas@),
            spots_view(known, spots@) == all_spots(known, i as int),
            forall|k: int| 0 <= k < spots@.len() ==> spot_within(known, #[trigger] spots@[k]),
        decreases deltas@.len() - i,
    {
        let groups: &Vec<LazyRowGroup> = &deltas[i].groups;
        let ghost before = all_spots(known, i as int);
        let ghost parts = known[i as int];
        assert(parts == block::lazy_groups_view(groups@));
        let mut start: u64 = 0;
        let mut j: usize = 0;
        assert(before + segment_spots(parts, i as u32, 0) =~= before);
        while j < groups.len()
            invariant
                i < deltas@.len(),
                deltas@.len() <= u32::MAX,
                j <= groups@.len(),
                known == delta_groups_view(deltas@),
                parts == known[i as int],
                parts == block::lazy_groups_view(groups@),
                start == group_start(parts, j as int),
                spots_view(known, spots@) == before + segment_spots(parts, i as u32, j as int),
                forall|k: int|
                    0 <= k < spots@.len() ==> spot_within(known, #[trigger] spots@[k]),
            decreases groups@.len() - j,
        {
            let ghost earlier = spots_view(known, spots@);
            let spot: Spot = Spot { segment: i as u32, place: j, start };
            let ghost last = spot_view(known, spot);
            spots.push(spot);
            assert(parts[j as int] == groups@[j as int]@);
            start = start.saturating_add(groups[j].rows as u64);
            j = j + 1;
            assert(spots_view(known, spots@) =~= earlier.push(last));
            assert(earlier.push(last) =~= before + segment_spots(parts, i as u32, j as int));
        }
        i = i + 1;
    }
    spots
}

/// Whether one of some rows is in a group.
pub(crate) fn spot_touched(spot: Spot, rows: u32, references: &[DeltaRowRef], Ghost(known): Ghost<
    LazyGroupView,
>) -> (found: bool)
    requires
        known.rows == rows,
    ensures
        found == touched(
            (SpotView { segment: spot.segment, start: spot.start, known }),
            references@,
        ),
{
    let ghost shown = SpotView { segment: spot.segment, start: spot.start, known };
    let end: u64 = spot.start.saturating_add(rows as u64);
    let mut i: usize = 0;
    while i < references.len()
        invariant
            i <= references@.len(),
            shown == (SpotView { segment: spot.segment, start: spot.start, known }),
            known.rows == rows,
            end == scan::grown(spot.start, rows as int),
            forall|k: int| 0 <= k < i ==> !inside(shown, #[trigger] references@[k]),
        decreases references@.len() - i,
    {
        let reference: DeltaRowRef = references[i];
        if reference.segment == spot.segment && spot.start <= reference.row && reference.row
            < end {
            assert(inside(shown, references@[i as int]));
            return true;
        }
        i = i + 1;
    }
    false
}

// ---------------------------------------------------------------------------
// Blocks that a scan needs
// ---------------------------------------------------------------------------
/// The ids of the columns in a directory.
pub open spec fn chunk_ids(known: LazyGroupView) -> Seq<ColumnId> {
    known.columns.map_values(|chunk: block::LazyChunkView| chunk.spec.column_id)
}

/// Where a column stands in a directory.
pub open spec fn chunk_place(known: LazyGroupView, column: ColumnId) -> Option<int> {
    group::place_of(chunk_ids(known), column)
}

/// Where a column stands in a directory.
pub fn find_chunk(known: &LazyRowGroup, column: ColumnId) -> (place: Option<usize>)
    ensures
        match chunk_place(known@, column) {
            Some(found) => {
                &&& place is Some
                &&& place->0 == found
                &&& place->0 < known.columns@.len()
            },
            None => place is None,
        },
{
    let ghost ids = chunk_ids(known@);
    let mut i: usize = 0;
    while i < known.columns.len()
        invariant
            i <= known.columns@.len(),
            ids == chunk_ids(known@),
            group::place_of(ids, column) == group::place_from(ids, column, i as int),
        decreases known.columns@.len() - i,
    {
        assert(ids[i as int] == known.columns@[i as int].spec.column_id);
        if known.columns[i].spec.column_id == column {
            return Some(i);
        }
        i = i + 1;
    }
    None
}

/// The blocks of the first `n` wanted columns of a group.
pub open spec fn column_requests(
    known: LazyGroupView,
    columns: Seq<ColumnId>,
    file: usize,
    n: int,
) -> Seq<BlockRequest>
    decreases n,
{
    if n <= 0 {
        Seq::empty()
    } else {
        column_requests(known, columns, file, n - 1) + match chunk_place(known, columns[n - 1]) {
            Some(place) => seq![BlockRequest { file, block: known.columns[place].block }],
            None => Seq::empty(),
        }
    }
}

/// The block of a group's row versions, if it is needed.
pub open spec fn version_requests(known: LazyGroupView, needed: bool) -> Seq<BlockRequest> {
    match known.source_versions {
        Some(at) => if needed {
            seq![BlockRequest { file: 0, block: at }]
        } else {
            Seq::empty()
        },
        None => Seq::empty(),
    }
}

/// The blocks that a group of the base segment needs.
pub open spec fn group_requests(
    known: LazyGroupView,
    needed: bool,
    columns: Seq<ColumnId>,
    constraints: Seq<ColumnarConstraint>,
) -> Seq<BlockRequest> {
    if group::pruned(block::directory_statistics(known), constraints) {
        Seq::empty()
    } else {
        version_requests(known, needed) + column_requests(
            known,
            columns,
            0,
            columns.len() as int,
        )
    }
}

/// The blocks that the first `n` groups of the base segment need.
pub open spec fn base_requests(
    groups: Seq<LazyGroupView>,
    needed: bool,
    columns: Seq<ColumnId>,
    constraints: Seq<ColumnarConstraint>,
    n: int,
) -> Seq<BlockRequest>
    decreases n,
{
    if n <= 0 {
        Seq::empty()
    } else {
        base_requests(groups, needed, columns, constraints, n - 1) + group_requests(
            groups[n - 1],
            needed,
            columns,
            constraints,
        )
    }
}

/// The file of a delta segment.
pub open spec fn file_of(spot: SpotView) -> usize {
    (spot.segment + 1) as usize
}

/// The blocks that a group of a delta segment needs.
pub open spec fn spot_requests(
    spot: SpotView,
    references: Seq<DeltaRowRef>,
    columns: Seq<ColumnId>,
) -> Seq<BlockRequest> {
    if touched(spot, references) {
        column_requests(spot.known, columns, file_of(spot), columns.len() as int)
    } else {
        Seq::empty()
    }
}

/// The blocks that the first `n` groups of delta segments need.
pub open spec fn delta_requests(
    spots: Seq<SpotView>,
    references: Seq<DeltaRowRef>,
    columns: Seq<ColumnId>,
    n: int,
) -> Seq<BlockRequest>
    decreases n,
{
    if n <= 0 {
        Seq::empty()
    } else {
        delta_requests(spots, references, columns, n - 1) + spot_requests(
            spots[n - 1],
            references,
            columns,
        )
    }
}

/// The blocks that a scan needs, in the order in which it reads them.
pub open spec fn scan_requests(
    known: LazyView,
    columns: Seq<ColumnId>,
    constraints: Seq<ColumnarConstraint>,
) -> Seq<BlockRequest> {
    let spots = all_spots(known.deltas, known.deltas.len() as int);
    base_requests(
        known.base_groups,
        known.added.suppressed.len() > 0,
        columns,
        constraints,
        known.base_groups.len() as int,
    ) + delta_requests(spots, known.added.live_rows, columns, spots.len() as int)
}

/// Earlier columns need no more blocks than all.
pub proof fn lemma_column_requests_grow(
    known: LazyGroupView,
    columns: Seq<ColumnId>,
    file: usize,
    n: int,
    m: int,
)
    requires
        n <= m,
    ensures
        column_requests(known, columns, file, n).len() <= column_requests(
            known,
            columns,
            file,
            m,
        ).len(),
    decreases m - n,
{
    if n < m {
        lemma_column_requests_grow(known, columns, file, n, m - 1);
    }
}

/// Earlier groups need no more blocks than all.
pub proof fn lemma_base_requests_grow(
    groups: Seq<LazyGroupView>,
    needed: bool,
    columns: Seq<ColumnId>,
    constraints: Seq<ColumnarConstraint>,
    n: int,
    m: int,
)
    requires
        n <= m,
    ensures
        base_requests(groups, needed, columns, constraints, n).len() <= base_requests(
            groups,
            needed,
            columns,
            constraints,
            m,
        ).len(),
    decreases m - n,
{
    if n < m {
        lemma_base_requests_grow(groups, needed, columns, constraints, n, m - 1);
    }
}

/// Earlier groups need no more blocks than all.
pub proof fn lemma_delta_requests_grow(
    spots: Seq<SpotView>,
    references: Seq<DeltaRowRef>,
    columns: Seq<ColumnId>,
    n: int,
    m: int,
)
    requires
        n <= m,
    ensures
        delta_requests(spots, references, columns, n).len() <= delta_requests(
            spots,
            references,
            columns,
            m,
        ).len(),
    decreases m - n,
{
    if n < m {
        lemma_delta_requests_grow(spots, references, columns, n, m - 1);
    }
}

fn push_column_requests(
    output: &mut Vec<BlockRequest>,
    known: &LazyRowGroup,
    columns: &[ColumnId],
    file: usize,
)
    ensures
        final(output)@ == old(output)@ + column_requests(
            known@,
            columns@,
            file,
            columns@.len() as int,
        ),
{
    let mut i: usize = 0;
    assert(output@ + column_requests(known@, columns@, file, 0) =~= output@);
    while i < columns.len()
        invariant
            i <= columns@.len(),
            output@ == old(output)@ + column_requests(known@, columns@, file, i as int),
        decreases columns@.len() - i,
    {
        let ghost before = column_requests(known@, columns@, file, i as int);
        if let Some(place) = find_chunk(known, columns[i]) {
            let at: BlockRef = known.columns[place].block;
            assert(known@.columns[place as int].block == at);
            output.push(BlockRequest { file, block: at });
        }
        i = i + 1;
        assert(output@ =~= old(output)@ + column_requests(known@, columns@, file, i as int));
    }
}

/// The blocks that a scan of an indexed projection needs, in the order in which
/// it reads them.
pub fn plan_scan(
    lazy: &LazyProjection,
    columns: &[ColumnId],
    constraints: &[ColumnarConstraint],
) -> (requests: Vec<BlockRequest>)
    requires
        indexed_kept(lazy@),
    ensures
        requests@ == scan_requests(lazy@, columns@, constraints@),
{
    let ghost groups = lazy@.base_groups;
    let needed: bool = lazy.overlay.suppressed.len() > 0;
    let mut output: Vec<BlockRequest> = Vec::new();
    let mut i: usize = 0;
    while i < lazy.base_groups.len()
        invariant
            i <= lazy.base_groups@.len(),
            groups == lazy@.base_groups,
            output@ == base_requests(groups, needed, columns@, constraints@, i as int),
        decreases lazy.base_groups@.len() - i,
    {
        let known: &LazyRowGroup = &lazy.base_groups[i];
        assert(groups[i as int] == known@);
        let ghost before = output@;
        if !block::lazy_group_pruned(known, constraints) {
            if needed {
                if let Some(at) = known.source_versions {
                    output.push(BlockRequest { file: 0, block: at });
                }
            }
            assert(output@ =~= before + version_requests(known@, needed));
            push_column_requests(&mut output, known, columns, 0);
        }
        i = i + 1;
        assert(output@ =~= before + group_requests(known@, needed, columns@, constraints@));
    }
    let ghost base = output@;
    let spots: Vec<Spot> = list_spots(lazy.deltas.as_slice());
    let ghost shown = spots_view(lazy@.deltas, spots@);
    let ghost references = lazy.overlay.live_rows@;
    let mut j: usize = 0;
    assert(base + delta_requests(shown, references, columns@, 0) =~= base);
    while j < spots.len()
        invariant
            j <= spots@.len(),
            indexed_kept(lazy@),
            shown == spots_view(lazy@.deltas, spots@),
            references == lazy.overlay.live_rows@,
            forall|k: int| 0 <= k < spots@.len() ==> spot_within(lazy@.deltas, #[trigger] spots@[k]),
            output@ == base + delta_requests(shown, references, columns@, j as int),
        decreases spots@.len() - j,
    {
        let spot: Spot = spots[j];
        assert(spot_within(lazy@.deltas, spots@[j as int]));
        let known: &LazyRowGroup = &lazy.deltas[spot.segment as usize].groups[spot.place];
        assert(shown[j as int].known == known@);
        let ghost before = output@;
        let ghost earlier = delta_requests(shown, references, columns@, j as int);
        if spot_touched(spot, known.rows, lazy.overlay.live_rows.as_slice(), Ghost(known@)) {
            push_column_requests(&mut output, known, columns, spot.segment as usize + 1);
        }
        j = j + 1;
        assert(output@ =~= before + spot_requests(shown[j - 1], references, columns@));
        assert(output@ =~= base + delta_requests(shown, references, columns@, j as int));
    }
    output
}

} // verus!
