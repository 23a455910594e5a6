//! Opening a projection takes its delta segments one after the other.
use super::block::LazyGroupView;
use super::delta;
use super::error::ColumnarError;
use super::manifest::ManifestView;
use super::metadata::{DeltaSegmentView, MetadataView};
use super::open::{self, DeltasOpened, FileBytes, FileParts};
use super::overlay::{self, DeltaMutation, DeltaRowRef, OverlayView};
use super::project_laws;
use super::segment;
use crate::bytes;
use crate::ids::StorageDataVersion;
use crate::value::ScalarView;
use vstd::prelude::*;

verus! {

/// The row changes of the first `n` delta segments, one segment after the other.
pub open spec fn changes_of(
    known: MetadataView,
    deltas: Seq<DeltaSegmentView>,
    files: Seq<FileBytes>,
    n: int,
) -> Seq<DeltaMutation<Seq<ScalarView>>>
    decreases n,
{
    if n <= 0 {
        Seq::empty()
    } else {
        changes_of(known, deltas, files, n - 1) + delta::delta_of(
            files[n - 1]->Ok_0@,
            known,
            deltas[n - 1],
        )->Ok_0
    }
}

/// Whether delta segments follow each other from a frontier on, each further than
/// where it starts.
pub open spec fn segments_follow(
    deltas: Seq<DeltaSegmentView>,
    start: StorageDataVersion,
    n: int,
) -> bool {
    forall|k: int|
        0 <= k < n ==> {
            &&& (#[trigger] deltas[k]).before.0 < deltas[k].after.0
            &&& deltas[k].before == frontier_of(deltas, start, k)
        }
}

/// Where the first `n` delta segments end.
pub open spec fn frontier_of(
    deltas: Seq<DeltaSegmentView>,
    start: StorageDataVersion,
    n: int,
) -> StorageDataVersion {
    if n <= 0 {
        start
    } else {
        deltas[n - 1].after
    }
}

/// Whether the file of a delta segment is there, has the size and the checksum that
/// the manifest tells, and can be read.
pub open spec fn delta_reads(
    known: MetadataView,
    expected: DeltaSegmentView,
    file: FileBytes,
) -> bool {
    &&& file is Ok
    &&& 4 <= file->Ok_0@.len() == expected.bytes
    &&& bytes::u32_at(file->Ok_0@, file->Ok_0@.len() - 4) == expected.checksum
    &&& delta::delta_of(file->Ok_0@, known, expected) is Ok
}

proof fn lemma_deltas(
    known: MetadataView,
    deltas: Seq<DeltaSegmentView>,
    files: Seq<FileBytes>,
    paths: Seq<String>,
    start: StorageDataVersion,
    n: int,
)
    requires
        0 <= n <= deltas.len(),
        open::eager_deltas(known, deltas, files, paths, start, n) is Ok,
    ensures
        ({
            let (added, at) = open::eager_deltas(known, deltas, files, paths, start, n)->Ok_0;
            let changes = changes_of(known, deltas, files, n);
            &&& at == frontier_of(deltas, start, n)
            &&& segments_follow(deltas, start, n)
            &&& forall|k: int|
                0 <= k < n ==> delta_reads(known, #[trigger] deltas[k], files[k])
            &&& overlay::steps(
                overlay::no_overlay(),
                changes,
                "invalid delta mutation image",
                changes.len() as int,
            ) == Ok::<OverlayView<Seq<ScalarView>>, ColumnarError>(added)
        }),
    decreases n,
{
    if n > 0 {
        lemma_deltas(known, deltas, files, paths, start, n - 1);
        let before = changes_of(known, deltas, files, n - 1);
        let last = delta::delta_of(files[n - 1]->Ok_0@, known, deltas[n - 1])->Ok_0;
        project_laws::law_steps_go_on(
            overlay::no_overlay(),
            before,
            last,
            "invalid delta mutation image",
            last.len() as int,
        );
    }
}

/// Opening a projection reads its base segment, and takes an empty overlay through
/// the row changes of its delta segments, one segment after the other in the order
/// of the manifest. The segments follow each other from the base to the place in the
/// change stream that the manifest tells, and as many versions are live and replaced
/// then as it tells.
pub proof fn law_opening_takes_deltas_in_order(
    known: ManifestView,
    base: FileBytes,
    deltas: Seq<FileBytes>,
    paths: Seq<String>,
)
    ensures
        open::eager_opened(known, base, deltas, paths) matches Ok(view) ==> {
            let read = segment::segment_of(base->Ok_0@, known.metadata);
            &&& base is Ok
            &&& base->Ok_0@.len() == known.metadata.segment_bytes
            &&& bytes::u32_at(base->Ok_0@, base->Ok_0@.len() - 4) == known.segment_checksum
            &&& read is Ok
            &&& read->Ok_0.0 == known.segment_id
            &&& view.groups == read->Ok_0.1
            &&& view.metadata == known.metadata
            &&& view.segment_id == known.segment_id
            &&& view.segment_file == known.segment_file
            &&& view.lazy is None
            &&& match known.metadata.incremental {
                None => view.added == overlay::no_overlay::<Seq<ScalarView>>(),
                Some(incremental) => {
                    let list = incremental.delta_segments;
                    let n = list.len() as int;
                    let changes = changes_of(known.metadata, list, deltas, n);
                    &&& segments_follow(list, incremental.base_frontier, n)
                    &&& frontier_of(list, incremental.base_frontier, n)
                        == incremental.applied_frontier
                    &&& forall|k: int|
                        0 <= k < n ==> delta_reads(known.metadata, #[trigger] list[k], deltas[k])
                    &&& overlay::steps(
                        overlay::no_overlay(),
                        changes,
                        "invalid delta mutation image",
                        changes.len() as int,
                    ) == Ok::<OverlayView<Seq<ScalarView>>, ColumnarError>(view.added)
                    &&& view.added.live_keys.len() == incremental.delta_live_row_count
                    &&& view.added.suppressed.len() == incremental.suppressed_version_count
                },
            }
        },
{
    if open::eager_opened(known, base, deltas, paths) is Ok {
        if let Some(incremental) = known.metadata.incremental {
            let list = incremental.delta_segments;
            lemma_deltas(
                known.metadata,
                list,
                deltas,
                paths,
                incremental.base_frontier,
                list.len() as int,
            );
        }
    }
}

// ---------------------------------------------------------------------------
// Indexed projections
// ---------------------------------------------------------------------------
/// The row changes of the first `n` delta segments, with the places of their rows,
/// one segment after the other.
pub open spec fn places_of(
    known: MetadataView,
    deltas: Seq<DeltaSegmentView>,
    parts: Seq<FileParts>,
    paths: Seq<String>,
    n: int,
) -> Seq<DeltaMutation<DeltaRowRef>>
    decreases n,
{
    if n <= 0 {
        Seq::empty()
    } else {
        places_of(known, deltas, parts, paths, n - 1) + overlay::all_located(
            open::lazy_delta_opened(known, deltas[n - 1], parts[n - 1], paths[n])->Ok_0.1,
            (n - 1) as u32,
        )
    }
}

/// Whether the directory of a delta segment is the one that was read.
pub open spec fn directory_kept(
    known: MetadataView,
    deltas: Seq<DeltaSegmentView>,
    parts: Seq<FileParts>,
    paths: Seq<String>,
    groups: Seq<Seq<LazyGroupView>>,
    k: int,
) -> bool {
    open::lazy_delta_opened(known, deltas[k], parts[k], paths[k + 1]) matches Ok((read, _, _))
        && groups[k] == read
}

#[verifier::rlimit(60)]
proof fn lemma_lazy_frontier(
    known: MetadataView,
    deltas: Seq<DeltaSegmentView>,
    parts: Seq<FileParts>,
    paths: Seq<String>,
    start: DeltasOpened,
    n: int,
)
    requires
        0 <= n <= deltas.len(),
        start.groups.len() == 0,
        open::lazy_deltas(known, deltas, parts, paths, start, n) is Ok,
    ensures
        ({
            let all = open::lazy_deltas(known, deltas, parts, paths, start, n)->Ok_0;
            &&& all.frontier == frontier_of(deltas, start.frontier, n)
            &&& segments_follow(deltas, start.frontier, n)
            &&& all.groups.len() == n
            &&& forall|k: int|
                0 <= k < n ==> #[trigger] directory_kept(
                    known,
                    deltas,
                    parts,
                    paths,
                    all.groups,
                    k,
                )
        }),
    decreases n,
{
    if n > 0 {
        lemma_lazy_frontier(known, deltas, parts, paths, start, n - 1);
        let before = open::lazy_deltas(known, deltas, parts, paths, start, n - 1)->Ok_0;
        let all = open::lazy_deltas(known, deltas, parts, paths, start, n)->Ok_0;
        assert forall|k: int| 0 <= k < n implies #[trigger] directory_kept(
            known,
            deltas,
            parts,
            paths,
            all.groups,
            k,
        ) by {
            if k < n - 1 {
                assert(directory_kept(known, deltas, parts, paths, before.groups, k));
            }
        }
    }
}

#[verifier::rlimit(60)]
proof fn lemma_lazy_steps(
    known: MetadataView,
    deltas: Seq<DeltaSegmentView>,
    parts: Seq<FileParts>,
    paths: Seq<String>,
    start: DeltasOpened,
    n: int,
)
    requires
        0 <= n <= deltas.len(),
        start.added == overlay::no_overlay::<DeltaRowRef>(),
        open::lazy_deltas(known, deltas, parts, paths, start, n) is Ok,
    ensures
        ({
            let all = open::lazy_deltas(known, deltas, parts, paths, start, n)->Ok_0;
            let changes = places_of(known, deltas, parts, paths, n);
            overlay::steps(
                overlay::no_overlay(),
                changes,
                "invalid lazy delta mutation image",
                changes.len() as int,
            ) == Ok::<OverlayView<DeltaRowRef>, ColumnarError>(all.added)
        }),
    decreases n,
{
    if n > 0 {
        lemma_lazy_steps(known, deltas, parts, paths, start, n - 1);
        let before = places_of(known, deltas, parts, paths, n - 1);
        let list = open::lazy_delta_opened(known, deltas[n - 1], parts[n - 1], paths[n])->Ok_0.1;
        let last = overlay::all_located(list, (n - 1) as u32);
        project_laws::law_steps_go_on(
            overlay::no_overlay(),
            before,
            last,
            "invalid lazy delta mutation image",
            last.len() as int,
        );
    }
}

/// Opening an indexed projection takes an empty overlay through the row changes of
/// its delta segments, with the places of their rows, one segment after the other in
/// the order of the manifest, and keeps the directory of each.
pub proof fn law_indexed_opening_takes_deltas_in_order(
    known: MetadataView,
    parts: Seq<FileParts>,
    paths: Seq<String>,
    resident: u64,
)
    ensures
        open::lazy_overlay(known, parts, paths, resident) matches Ok(all) ==> match known.incremental {
            None => all.added == overlay::no_overlay::<DeltaRowRef>() && all.groups.len() == 0,
            Some(incremental) => {
                let list = incremental.delta_segments;
                let n = list.len() as int;
                let changes = places_of(known, list, parts, paths, n);
                &&& segments_follow(list, incremental.base_frontier, n)
                &&& frontier_of(list, incremental.base_frontier, n) == incremental.applied_frontier
                &&& all.groups.len() == n
                &&& forall|k: int|
                    0 <= k < n ==> #[trigger] directory_kept(
                        known,
                        list,
                        parts,
                        paths,
                        all.groups,
                        k,
                    )
                &&& overlay::steps(
                    overlay::no_overlay(),
                    changes,
                    "invalid lazy delta mutation image",
                    changes.len() as int,
                ) == Ok::<OverlayView<DeltaRowRef>, ColumnarError>(all.added)
                &&& all.added.live_keys.len() == incremental.delta_live_row_count
                &&& all.added.suppressed.len() == incremental.suppressed_version_count
            },
        },
{
    if open::lazy_overlay(known, parts, paths, resident) is Ok {
        if let Some(incremental) = known.incremental {
            let list = incremental.delta_segments;
            let start = open::no_deltas(incremental.base_frontier, resident);
            lemma_lazy_frontier(known, list, parts, paths, start, list.len() as int);
            lemma_lazy_steps(known, list, parts, paths, start, list.len() as int);
        }
    }
}

} // verus!
