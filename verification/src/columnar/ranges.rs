//! Where payload blocks may stand: inside the data area, and apart.
use super::block::{self, BlockRef, LazyGroupView, LazyRowGroup};
use super::error::ColumnarError;
use vstd::prelude::*;

verus! {

/// The blocks of the columns of an indexed group.
pub open spec fn column_blocks(known: LazyGroupView) -> Seq<BlockRef> {
    known.columns.map_values(|chunk: block::LazyChunkView| chunk.block)
}

/// The blocks of an indexed group.
pub open spec fn group_blocks(known: LazyGroupView) -> Seq<BlockRef> {
    match known.source_versions {
        Some(versions) => seq![versions] + column_blocks(known),
        None => column_blocks(known),
    }
}

/// The blocks of the first `n` indexed groups.
pub open spec fn all_blocks(groups: Seq<LazyGroupView>, n: int) -> Seq<BlockRef>
    decreases n,
{
    if n <= 0 {
        Seq::empty()
    } else {
        all_blocks(groups, n - 1) + group_blocks(groups[n - 1])
    }
}

/// Why one of the first `n` blocks is not inside a data area, if it is not.
pub open spec fn bounds_error(blocks: Seq<BlockRef>, start: u64, end: u64, n: int) -> Option<
    ColumnarError,
>
    decreases n,
{
    if n <= 0 {
        None
    } else if bounds_error(blocks, start, end, n - 1) is Some {
        bounds_error(blocks, start, end, n - 1)
    } else if blocks[n - 1].offset + blocks[n - 1].length > u64::MAX {
        Some(ColumnarError::Corrupt("payload block range overflow"))
    } else if blocks[n - 1].offset < start || blocks[n - 1].offset + blocks[n - 1].length > end {
        Some(ColumnarError::Corrupt("payload block is outside data area"))
    } else {
        None
    }
}

/// Whether one of two blocks reaches past the offset of the other, which stands
/// behind it. Of two at one offset, the left one stands in front.
pub open spec fn touch(left: BlockRef, right: BlockRef) -> bool {
    if left.offset <= right.offset {
        left.offset + left.length > right.offset
    } else {
        right.offset + right.length > left.offset
    }
}

/// Whether a block reaches past the offset of one that stands behind it. Of those
/// at one offset, the one that is listed first stands in front.
pub open spec fn overlapping(blocks: Seq<BlockRef>) -> bool {
    exists|i: int, j: int|
        0 <= i < j < blocks.len() && touch(#[trigger] blocks[i], #[trigger] blocks[j])
}

/// Blocks that have bytes overlap where two of them share one.
pub proof fn law_overlap_is_a_shared_byte(blocks: Seq<BlockRef>)
    requires
        forall|i: int| 0 <= i < blocks.len() ==> (#[trigger] blocks[i]).length > 0,
    ensures
        overlapping(blocks) <==> exists|i: int, j: int, at: int|
            0 <= i < j < blocks.len() && #[trigger] within(blocks[i], at) && #[trigger] within(
                blocks[j],
                at,
            ),
{
    if overlapping(blocks) {
        let (i, j) = choose|i: int, j: int|
            0 <= i < j < blocks.len() && touch(#[trigger] blocks[i], #[trigger] blocks[j]);
        let at = if blocks[i].offset <= blocks[j].offset {
            blocks[j].offset as int
        } else {
            blocks[i].offset as int
        };
        assert(within(blocks[i], at) && within(blocks[j], at));
    }
    if exists|i: int, j: int, at: int|
        0 <= i < j < blocks.len() && #[trigger] within(blocks[i], at) && #[trigger] within(
            blocks[j],
            at,
        ) {
        let (i, j, at) = choose|i: int, j: int, at: int|
            0 <= i < j < blocks.len() && #[trigger] within(blocks[i], at) && #[trigger] within(
                blocks[j],
                at,
            );
        assert(touch(blocks[i], blocks[j]));
    }
}

/// Whether a byte of a file is in a block.
pub open spec fn within(block: BlockRef, at: int) -> bool {
    block.offset <= at < block.offset + block.length
}

/// Why blocks cannot stand where they do, if they cannot.
pub open spec fn ranges_error(blocks: Seq<BlockRef>, start: u64, end: u64) -> Option<
    ColumnarError,
> {
    if bounds_error(blocks, start, end, blocks.len() as int) is Some {
        bounds_error(blocks, start, end, blocks.len() as int)
    } else if overlapping(blocks) {
        Some(ColumnarError::Corrupt("payload blocks overlap"))
    } else {
        None
    }
}

proof fn lemma_bounds_prefix(blocks: Seq<BlockRef>, start: u64, end: u64, n: int, m: int)
    requires
        n <= m,
        bounds_error(blocks, start, end, n) is Some,
    ensures
        bounds_error(blocks, start, end, m) == bounds_error(blocks, start, end, n),
    decreases m - n,
{
    if n < m {
        lemma_bounds_prefix(blocks, start, end, n, m - 1);
    }
}

fn push_group_blocks(blocks: &mut Vec<BlockRef>, row_group: &LazyRowGroup)
    ensures
        final(blocks)@ == old(blocks)@ + group_blocks(row_group@),
{
    let ghost start = blocks@;
    if let Some(versions) = row_group.source_versions {
        blocks.push(versions);
    }
    let ghost head = blocks@;
    let ghost whole = column_blocks(row_group@);
    let mut i: usize = 0;
    assert(blocks@ =~= head + whole.take(0));
    while i < row_group.columns.len()
        invariant
            i <= row_group.columns@.len(),
            whole == column_blocks(row_group@),
            blocks@ == head + whole.take(i as int),
        decreases row_group.columns@.len() - i,
    {
        assert(whole[i as int] == row_group.columns@[i as int].block);
        blocks.push(row_group.columns[i].block);
        i = i + 1;
        assert(blocks@ =~= head + whole.take(i as int));
    }
    assert(whole.take(row_group.columns@.len() as int) =~= whole);
    assert(blocks@ =~= start + group_blocks(row_group@));
}

fn collect_blocks(groups: &[LazyRowGroup]) -> (blocks: Vec<BlockRef>)
    ensures
        blocks@ == all_blocks(block::lazy_groups_view(groups@), groups@.len() as int),
{
    let ghost known = block::lazy_groups_view(groups@);
    let mut blocks: Vec<BlockRef> = Vec::new();
    let mut i: usize = 0;
    while i < groups.len()
        invariant
            i <= groups@.len(),
            known == block::lazy_groups_view(groups@),
            blocks@ == all_blocks(known, i as int),
        decreases groups@.len() - i,
    {
        assert(known[i as int] == groups@[i as int]@);
        push_group_blocks(&mut blocks, &groups[i]);
        i = i + 1;
    }
    blocks
}

fn check_bounds(blocks: &[BlockRef], start: u64, end: u64) -> (valid: Result<(), ColumnarError>)
    ensures
        match bounds_error(blocks@, start, end, blocks@.len() as int) {
            Some(error) => valid == Err::<(), ColumnarError>(error),
            None => valid is Ok,
        },
{
    let mut i: usize = 0;
    while i < blocks.len()
        invariant
            i <= blocks@.len(),
            bounds_error(blocks@, start, end, i as int) is None,
        decreases blocks@.len() - i,
    {
        proof {
            if bounds_error(blocks@, start, end, i + 1) is Some {
                lemma_bounds_prefix(blocks@, start, end, i + 1, blocks@.len() as int);
            }
        }
        let found: BlockRef = blocks[i];
        if found.length > u64::MAX - found.offset {
            return Err(ColumnarError::Corrupt("payload block range overflow"));
        }
        if found.offset < start || found.offset + found.length > end {
            return Err(ColumnarError::Corrupt("payload block is outside data area"));
        }
        i = i + 1;
    }
    Ok(())
}

/// Whether blocks ascend and are apart.
spec fn laid_out(placed: Seq<BlockRef>) -> bool {
    forall|i: int, j: int|
        0 <= i < j < placed.len() ==> (#[trigger] placed[i]).offset + placed[i].length <= (
        #[trigger] placed[j]).offset
}

/// Whether two lists have the same blocks.
spec fn same_blocks(placed: Seq<BlockRef>, blocks: Seq<BlockRef>) -> bool {
    &&& forall|i: int| 0 <= i < blocks.len() ==> placed.contains(#[trigger] blocks[i])
    &&& forall|i: int| 0 <= i < placed.len() ==> blocks.contains(#[trigger] placed[i])
}

fn place_for(placed: &[BlockRef], offset: u64) -> (place: usize)
    requires
        laid_out(placed@),
    ensures
        place <= placed@.len(),
        forall|i: int| 0 <= i < place ==> (#[trigger] placed@[i]).offset <= offset,
        forall|i: int| place <= i < placed@.len() ==> (#[trigger] placed@[i]).offset > offset,
{
    let mut low: usize = 0;
    let mut high: usize = placed.len();
    while low < high
        invariant
            low <= high <= placed@.len(),
            laid_out(placed@),
            forall|i: int| 0 <= i < low ==> (#[trigger] placed@[i]).offset <= offset,
            forall|i: int| high <= i < placed@.len() ==> (#[trigger] placed@[i]).offset > offset,
        decreases high - low,
    {
        let middle: usize = low + (high - low) / 2;
        assert(forall|i: int|
            0 <= i < middle ==> (#[trigger] placed@[i]).offset + placed@[i].length
                <= placed@[middle as int].offset);
        if placed[middle].offset <= offset {
            low = middle + 1;
        } else {
            assert forall|i: int| middle <= i < placed@.len() implies (
            #[trigger] placed@[i]).offset > offset by {
                if middle < i {
                    assert(placed@[middle as int].offset + placed@[middle as int].length
                        <= placed@[i].offset);
                }
            }
            high = middle;
        }
    }
    low
}

fn find_overlap(blocks: &[BlockRef]) -> (found: bool)
    requires
        forall|i: int|
            0 <= i < blocks@.len() ==> (#[trigger] blocks@[i]).offset + blocks@[i].length
                <= u64::MAX,
    ensures
        found == overlapping(blocks@),
{
    let mut placed: Vec<BlockRef> = Vec::new();
    let mut n: usize = 0;
    while n < blocks.len()
        invariant
            n <= blocks@.len(),
            forall|i: int|
                0 <= i < blocks@.len() ==> (#[trigger] blocks@[i]).offset + blocks@[i].length
                    <= u64::MAX,
            laid_out(placed@),
            forall|i: int|
                0 <= i < placed@.len() ==> (#[trigger] placed@[i]).offset + placed@[i].length
                    <= u64::MAX,
            same_blocks(placed@, blocks@.take(n as int)),
            !overlapping(blocks@.take(n as int)),
        decreases blocks@.len() - n,
    {
        let next: BlockRef = blocks[n];
        let ghost before = blocks@.take(n as int);
        let ghost grown = blocks@.take(n + 1);
        let place: usize = place_for(placed.as_slice(), next.offset);
        if place > 0 && placed[place - 1].offset + placed[place - 1].length > next.offset {
            proof {
                let other = placed@[place - 1];
                assert(before.contains(other));
                let i = choose|i: int| 0 <= i < before.len() && before[i] == other;
                assert(blocks@[i] == other && blocks@[n as int] == next);
                assert(touch(blocks@[i], blocks@[n as int]));
            }
            return true;
        }
        if place < placed.len() && next.offset + next.length > placed[place].offset {
            proof {
                let other = placed@[place as int];
                assert(before.contains(other));
                let i = choose|i: int| 0 <= i < before.len() && before[i] == other;
                assert(blocks@[i] == other && blocks@[n as int] == next);
                assert(touch(blocks@[i], blocks@[n as int]));
            }
            return true;
        }
        let ghost old_placed = placed@;
        placed.insert(place, next);
        proof {
            lemma_inserted(old_placed, before, next, place as int);
            assert(before.push(next) =~= grown);
        }
        n = n + 1;
    }
    assert(blocks@.take(n as int) =~= blocks@);
    false
}

proof fn lemma_inserted(
    placed: Seq<BlockRef>,
    before: Seq<BlockRef>,
    next: BlockRef,
    place: int,
)
    requires
        0 <= place <= placed.len(),
        laid_out(placed),
        same_blocks(placed, before),
        !overlapping(before),
        forall|i: int| 0 <= i < place ==> (#[trigger] placed[i]).offset <= next.offset,
        forall|i: int| place <= i < placed.len() ==> (#[trigger] placed[i]).offset > next.offset,
        place > 0 ==> placed[place - 1].offset + placed[place - 1].length <= next.offset,
        place < placed.len() ==> next.offset + next.length <= placed[place].offset,
    ensures
        laid_out(placed.insert(place, next)),
        same_blocks(placed.insert(place, next), before.push(next)),
        !overlapping(before.push(next)),
{
    let grown = placed.insert(place, next);
    let list = before.push(next);
    assert forall|i: int| 0 <= i < placed.len() implies !touch(#[trigger] placed[i], next) by {
        if i < place {
            if i < place - 1 {
                assert(placed[i].offset + placed[i].length <= placed[place - 1].offset);
            }
        } else if i > place {
            assert(placed[place].offset + placed[place].length <= placed[i].offset);
        }
    }
    assert forall|i: int, j: int| 0 <= i < j < grown.len() implies (#[trigger] grown[i]).offset
        + grown[i].length <= (#[trigger] grown[j]).offset by {
        let a = if i < place {
            i
        } else {
            i - 1
        };
        let b = if j < place {
            j
        } else {
            j - 1
        };
        if j == place {
            assert(grown[i] == placed[i]);
            assert(!touch(placed[i], next));
        } else if i == place {
            assert(grown[j] == placed[b]);
            assert(!touch(placed[b], next));
        } else {
            assert(grown[i] == placed[a] && grown[j] == placed[b]);
        }
    }
    assert forall|i: int| 0 <= i < list.len() implies grown.contains(#[trigger] list[i]) by {
        if i < before.len() {
            assert(placed.contains(before[i]));
            let k = choose|k: int| 0 <= k < placed.len() && placed[k] == before[i];
            assert(grown[if k < place { k } else { k + 1 }] == before[i]);
        } else {
            assert(grown[place] == next);
        }
    }
    assert forall|i: int| 0 <= i < grown.len() implies list.contains(#[trigger] grown[i]) by {
        if i == place {
            assert(list[before.len() as int] == next);
        } else {
            let k = if i < place {
                i
            } else {
                i - 1
            };
            assert(grown[i] == placed[k]);
            assert(before.contains(placed[k]));
            let m = choose|m: int| 0 <= m < before.len() && before[m] == placed[k];
            assert(list[m] == placed[k]);
        }
    }
    assert forall|i: int, j: int| 0 <= i < j < list.len() implies !touch(
        #[trigger] list[i],
        #[trigger] list[j],
    ) by {
        if j == before.len() {
            assert(placed.contains(before[i]));
            let k = choose|k: int| 0 <= k < placed.len() && placed[k] == before[i];
            assert(!touch(placed[k], next));
        } else {
            assert(list[i] == before[i] && list[j] == before[j]);
        }
    }
}

/// Checks that the blocks of indexed groups stand in the data area and apart.
pub fn validate_block_ranges(groups: &[LazyRowGroup], data_start: u64, data_end: u64) -> (valid:
    Result<(), ColumnarError>)
    ensures
        match ranges_error(
            all_blocks(block::lazy_groups_view(groups@), groups@.len() as int),
            data_start,
            data_end,
        ) {
            Some(error) => valid == Err::<(), ColumnarError>(error),
            None => valid is Ok,
        },
{
    let blocks: Vec<BlockRef> = collect_blocks(groups);
    check_bounds(blocks.as_slice(), data_start, data_end)?;
    assert forall|i: int| 0 <= i < blocks@.len() implies (#[trigger] blocks@[i]).offset
        + blocks@[i].length <= u64::MAX by {
        if bounds_error(blocks@, data_start, data_end, i + 1) is Some {
            lemma_bounds_prefix(blocks@, data_start, data_end, i + 1, blocks@.len() as int);
        }
    }
    if find_overlap(blocks.as_slice()) {
        return Err(ColumnarError::Corrupt("payload blocks overlap"));
    }
    Ok(())
}

} // verus!
