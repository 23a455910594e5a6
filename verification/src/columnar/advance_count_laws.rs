//! What advancing a projection tells of the changes that it took.
use super::advance;
use super::descriptor;
use super::group::TableDef;
use super::open::FileBytes;
use super::overlay::{self, DeltaMutation};
use super::project::{self, RowBatchView};
use super::project_laws;
use super::projection::ProjectionView;
use crate::ids::SchemaFingerprint;
use vstd::prelude::*;

verus! {

/// How many of the first `n` row changes bring a row.
pub open spec fn bringing<R>(mutations: Seq<DeltaMutation<R>>, n: int) -> int
    decreases n,
{
    if n <= 0 {
        0
    } else {
        bringing(mutations, n - 1) + if mutations[n - 1].after is Some {
            1int
        } else {
            0
        }
    }
}

/// The rows that are counted as brought are those of changes that bring one.
pub proof fn lemma_brought<R>(mutations: Seq<DeltaMutation<R>>, n: int)
    requires
        0 <= n <= mutations.len(),
    ensures
        descriptor::brought(mutations, n) == bringing(mutations, n),
        0 <= bringing(mutations, n) <= n,
    decreases n,
{
    if n > 0 {
        lemma_brought(mutations, n - 1);
    }
}

/// Advancing counts every change of the batches, and those that bring a row. It adds
/// the bytes of the new delta segment, and tells how many versions are live and how
/// many were replaced once the changes were taken. What else the metadata tell, and
/// where the stream stood, stays.
pub proof fn law_advance_counts_changes(
    known: ProjectionView,
    table: TableDef,
    batches: Seq<RowBatchView>,
    current: FileBytes,
)
    requires
        advance::advance_spec(known, table, batches, current) is Ok,
        project_laws::changes_before(batches, batches.len() as int) <= u64::MAX,
        known.lazy is None,
    ensures
        ({
            let view = advance::advance_spec(known, table, batches, current)->Ok_0;
            let before = known.metadata.incremental->0;
            let after = view.metadata.incremental->0;
            let last = after.delta_segments.last();
            let mutations = project::projection_of(table.columns@, known.metadata, batches)->Ok_0;
            let n = project_laws::changes_before(batches, batches.len() as int);
            let moved = overlay::steps(
                known.added,
                mutations,
                "invalid delta mutation image",
                n,
            );
            &&& project::projection_of(table.columns@, known.metadata, batches) is Ok
            &&& mutations.len() == n
            &&& moved is Ok
            &&& last.mutation_count == n
            &&& last.after_row_count == bringing(mutations, n)
            &&& view.delta.len() <= u64::MAX ==> last.bytes == view.delta.len()
            &&& after.delta_mutation_count == before.delta_mutation_count + n
            &&& after.delta_bytes == before.delta_bytes + last.bytes
            &&& moved->Ok_0.live_keys.len() <= u64::MAX ==> after.delta_live_row_count
                == moved->Ok_0.live_keys.len()
            &&& moved->Ok_0.suppressed.len() <= u64::MAX ==> after.suppressed_version_count
                == moved->Ok_0.suppressed.len()
            &&& after.stream_generation == before.stream_generation
            &&& view.metadata.segment_count == 1 + before.delta_segments.len() + 1
            &&& view.metadata.id == known.metadata.id
            &&& view.metadata.table_id == known.metadata.table_id
            &&& view.metadata.source_storage_id == known.metadata.source_storage_id
            &&& view.metadata.source_token == known.metadata.source_token
            &&& view.metadata.schema_fingerprint == known.metadata.schema_fingerprint
            &&& view.metadata.row_group_count == known.metadata.row_group_count
        }),
{
    let mutations = project::projection_of(table.columns@, known.metadata, batches)->Ok_0;
    project_laws::law_row_changes_come_in_order(table.columns@, known.metadata, batches);
    lemma_brought(mutations, mutations.len() as int);
}

/// A projection can be advanced only where it follows a change stream, there are
/// batches, and the table is the same as it was.
pub proof fn law_when_a_projection_can_be_advanced(
    known: ProjectionView,
    table: TableDef,
    batches: Seq<RowBatchView>,
)
    ensures
        advance::advance_error(known.metadata, table, batches) is None <==> {
            &&& known.metadata.incremental is Some
            &&& batches.len() > 0
            &&& table.id == known.metadata.table_id
            &&& table.fingerprint == Ok::<SchemaFingerprint, String>(
                known.metadata.schema_fingerprint,
            )
        },
{
}

} // verus!
