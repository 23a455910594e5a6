//! Row groups and segments are read back as they were written.
use super::chunk;
use super::chunk_laws;
use super::error::ColumnarError;
use super::group::{self, GroupView};
use super::metadata::{
    MetadataView, SegmentIdentity, INCREMENTAL_FORMAT_VERSION, MAX_ROW_GROUPS,
    SNAPSHOT_FORMAT_VERSION,
};
use super::reader;
use super::segment;
use super::select;
use super::statistics::{self, StatisticsView};
use super::validity;
use super::vector::{self, ColumnarColumnSpec, VectorView};
use super::version;
use crate::bytes;
use crate::change_stream::types::StorageVersionKey;
use crate::ids::{ColumnarSegmentId, StorageId};
use crate::value::ScalarView;
use vstd::prelude::*;
use vstd::utf8;

verus! {

broadcast use crate::bytes::group_le_len;

// ---------------------------------------------------------------------------
// Groups of rows
// ---------------------------------------------------------------------------
/// Whether column ids are distinct.
pub open spec fn distinct(columns: Seq<ColumnarColumnSpec>) -> bool {
    forall|i: int, j: int|
        0 <= i < j < columns.len() ==> (#[trigger] columns[i]).column_id != (
        #[trigger] columns[j]).column_id
}

/// Whether each column of a group has its id and its statistics, and can be
/// written and read.
pub open spec fn columns_kept(columns: Seq<ColumnarColumnSpec>, known: GroupView) -> bool {
    &&& distinct(columns)
    &&& known.columns.len() == columns.len()
    &&& known.statistics.len() == columns.len()
    &&& forall|i: int|
        0 <= i < columns.len() ==> {
            &&& (#[trigger] known.columns[i]).0 == columns[i].column_id
            &&& vector::vector_len(known.columns[i].1) == known.rows
        }
    &&& forall|i: int|
        0 <= i < columns.len() ==> {
            &&& (#[trigger] known.statistics[i]).0 == columns[i].column_id
            &&& chunk_laws::chunk_kept(columns[i], known.columns[i].1, known.statistics[i].1)
        }
}

/// The statistics of a kept group are found in their place.
pub proof fn lemma_statistics_found(columns: Seq<ColumnarColumnSpec>, known: GroupView, i: int)
    requires
        columns_kept(columns, known),
        0 <= i < columns.len(),
    ensures
        segment::statistics_for(known.statistics, columns[i].column_id) == Some(
            known.statistics[i].1,
        ),
{
    let ids = group::statistics_ids(known.statistics);
    group::lemma_place(ids, columns[i].column_id, 0);
    assert(ids[i] == columns[i].column_id);
    let place = group::place_of(ids, columns[i].column_id)->0;
    assert(ids[place] == columns[place].column_id);
}

proof fn lemma_missing(values: Seq<ScalarView>, validity: Seq<u8>, n: int)
    requires
        0 <= n <= values.len(),
        forall|j: int|
            0 <= j < n ==> #[trigger] validity::bit(validity, j) == !(values[j] is Null),
    ensures
        statistics::missing(values, n) == validity::nulls(validity, n),
    decreases n,
{
    if n > 0 {
        lemma_missing(values, validity, n - 1);
        assert(validity::bit(validity, n - 1) == !(values[n - 1] is Null));
    }
}

proof fn lemma_bounds_are_values(values: Seq<ScalarView>, n: int)
    requires
        0 <= n <= values.len(),
    ensures
        statistics::least(values, n) is Some <==> statistics::greatest(values, n) is Some,
        statistics::least(values, n) matches Some(low) ==> exists|i: int|
            0 <= i < n && values[i] == low && !(#[trigger] values[i] is Null),
        statistics::greatest(values, n) matches Some(high) ==> exists|i: int|
            0 <= i < n && values[i] == high && !(#[trigger] values[i] is Null),
    decreases n,
{
    if n > 0 {
        lemma_bounds_are_values(values, n - 1);
        if !(values[n - 1] is Null) {
            assert(values[n - 1] == values[n - 1]);
        }
    }
}

proof fn lemma_text_within(values: Seq<ScalarView>, n: int, i: int)
    requires
        0 <= i < n,
    ensures
        vector::text_of(values[i]).len() <= vector::joined(values, n).len(),
    decreases n,
{
    if i < n - 1 {
        lemma_text_within(values, n - 1, i);
    }
}

proof fn lemma_fits(column: ColumnarColumnSpec, values: Seq<ScalarView>, n: int, i: int)
    requires
        vector::vector_error(column, values, n) is None,
        0 <= i < n,
    ensures
        vector::fits(column, values[i]),
        column.physical_type is Text ==> vector::joined(values, n).len() <= u32::MAX,
    decreases n,
{
    if i < n - 1 {
        lemma_fits(column, values, n - 1, i);
    }
}

/// A column's vector and statistics go together.
pub proof fn lemma_column_kept(column: ColumnarColumnSpec, values: Seq<ScalarView>)
    requires
        vector::vector_error(column, values, values.len() as int) is None,
        vector::texts_valid(values),
        values.len() <= u32::MAX,
        chunk::data_le(vector::vector_of(column.physical_type, values)).len()
            <= chunk::MAX_TEXT_BYTES,
        chunk::data_le(vector::vector_of(column.physical_type, values)).len() <= usize::MAX,
    ensures
        chunk_laws::chunk_kept(
            column,
            vector::vector_of(column.physical_type, values),
            statistics::statistics_of(
                values,
                select::encoded_size(vector::vector_of(column.physical_type, values)),
            ),
        ),
        vector::vector_len(vector::vector_of(column.physical_type, values)) == values.len(),
{
    let made = vector::vector_of(column.physical_type, values);
    let n = values.len() as int;
    let known = statistics::statistics_of(values, select::encoded_size(made));
    let bits = vector::validity_of(made);
    vector::law_vector_keeps_values(column, values);
    validity::lemma_bitmap(vector::present(values));
    assert forall|j: int| 0 <= j < n implies #[trigger] validity::bit(bits, j) == !(
    values[j] is Null) by {
        assert(vector::present(values)[j] == !(values[j] is Null));
    }
    lemma_missing(values, bits, n);
    validity::lemma_nulls_bound(bits, n);
    assert(known.null_count == validity::nulls(bits, n));
    lemma_bounds_are_values(values, n);
    if let Some(low) = known.minimum {
        let i = choose|i: int| 0 <= i < n && values[i] == low && !(#[trigger] values[i] is Null);
        lemma_fits(column, values, n, i);
        lemma_text_within(values, n, i);
        assert(utf8::valid_utf8(vector::text_of(values[i])));
    }
    if let Some(high) = known.maximum {
        let i = choose|i: int| 0 <= i < n && values[i] == high && !(#[trigger] values[i] is Null);
        lemma_fits(column, values, n, i);
        lemma_text_within(values, n, i);
        assert(utf8::valid_utf8(vector::text_of(values[i])));
    }
    assert(bits.len() <= u32::MAX);
}

/// Whether the columns of some rows are small enough to be read back.
pub open spec fn table_fits(
    columns: Seq<ColumnarColumnSpec>,
    table: Seq<Seq<ScalarView>>,
) -> bool {
    forall|i: int|
        0 <= i < columns.len() ==> {
            let data = chunk::data_le(#[trigger] group::column_vector(columns, table, i));
            data.len() <= chunk::MAX_TEXT_BYTES && data.len() <= usize::MAX
        }
}

/// Whether the texts in some rows are UTF-8.
pub open spec fn table_valid(
    columns: Seq<ColumnarColumnSpec>,
    table: Seq<Seq<ScalarView>>,
) -> bool {
    forall|i: int|
        0 <= i < columns.len() ==> vector::texts_valid(#[trigger] vector::column_values(table, i))
}

/// The group of some rows can be written and read.
pub proof fn lemma_group_kept(
    columns: Seq<ColumnarColumnSpec>,
    table: Seq<Seq<ScalarView>>,
    versions: Option<Seq<StorageVersionKey>>,
)
    requires
        distinct(columns),
        group::group_error(columns, table) is None,
        table_valid(columns, table),
        table_fits(columns, table),
    ensures
        columns_kept(columns, group::group_of(columns, table, versions)),
{
    let known = group::group_of(columns, table, versions);
    assert forall|i: int| 0 <= i < columns.len() implies {
        &&& (#[trigger] known.columns[i]).0 == columns[i].column_id
        &&& vector::vector_len(known.columns[i].1) == known.rows
    } by {
        group::lemma_column_made(columns, table, i);
        let made = group::column_vector(columns, table, i);
        assert(vector::texts_valid(vector::column_values(table, i)));
        lemma_column_kept(columns[i], vector::column_values(table, i));
    }
    assert forall|i: int| 0 <= i < columns.len() implies {
        &&& (#[trigger] known.statistics[i]).0 == columns[i].column_id
        &&& chunk_laws::chunk_kept(columns[i], known.columns[i].1, known.statistics[i].1)
    } by {
        group::lemma_column_made(columns, table, i);
        let made = group::column_vector(columns, table, i);
        assert(vector::texts_valid(vector::column_values(table, i)));
        lemma_column_kept(columns[i], vector::column_values(table, i));
    }
}

/// The columns of a group of some rows hold the rows' values.
pub proof fn law_group_holds_rows(
    columns: Seq<ColumnarColumnSpec>,
    table: Seq<Seq<ScalarView>>,
    versions: Option<Seq<StorageVersionKey>>,
    position: int,
    row: int,
)
    requires
        group::group_error(columns, table) is None,
        table_valid(columns, table),
        0 <= position < columns.len(),
        0 <= row < table.len(),
    ensures
        vector::value_of(group::group_of(columns, table, versions).columns[position].1, row) == Ok::<
            ScalarView,
            ColumnarError,
        >(table[row][position]),
{
    group::lemma_column_made(columns, table, position);
    let values = vector::column_values(table, position);
    let made = group::column_vector(columns, table, position);
    assert(vector::texts_valid(vector::column_values(table, position)));
    vector::law_vector_keeps_values(columns[position], values);
    vector::lemma_well_formed_values(made);
    assert(vector::value_of(made, row) is Ok);
    assert(vector::values_of(made)[row] == values[row]);
}

// ---------------------------------------------------------------------------
// Chunks
// ---------------------------------------------------------------------------
/// The vectors and statistics of a group, column by column.
pub open spec fn chunks_of(known: GroupView) -> Seq<(VectorView, StatisticsView)> {
    Seq::new(known.columns.len(), |i: int| (known.columns[i].1, known.statistics[i].1))
}

/// The written chunks of a group are read back.
pub proof fn law_chunks_round_trip(
    s: Seq<u8>,
    at: int,
    columns: Seq<ColumnarColumnSpec>,
    known: GroupView,
    n: int,
)
    requires
        0 <= n <= columns.len(),
        reader::holds(s, at, segment::group_chunks_le(columns, known, n)),
        s.len() <= usize::MAX,
        columns_kept(columns, known),
    ensures
        segment::chunks_read(s, at, columns, known.rows, n) == Ok::<
            (Seq<(VectorView, StatisticsView)>, int),
            ColumnarError,
        >(
            (
                chunks_of(known).take(n),
                at + segment::group_chunks_le(columns, known, n).len(),
            ),
        ),
    decreases n,
{
    if n > 0 {
        let before = segment::group_chunks_le(columns, known, n - 1);
        let i = n - 1;
        lemma_statistics_found(columns, known, i);
        reader::lemma_holds(s, at, before, segment::group_chunk_le(columns, known, i));
        law_chunks_round_trip(s, at, columns, known, i);
        assert(known.columns[i].0 == columns[i].column_id);
        assert(known.statistics[i].0 == columns[i].column_id);
        chunk_laws::law_chunk_round_trip(
            s,
            at + before.len(),
            columns[i],
            known.columns[i].1,
            known.statistics[i].1,
        );
        assert(chunks_of(known).take(i).push(chunks_of(known)[i]) =~= chunks_of(known).take(n));
    } else {
        assert(chunks_of(known).take(0) =~= Seq::empty());
    }
}

proof fn lemma_group_from(columns: Seq<ColumnarColumnSpec>, known: GroupView)
    requires
        columns_kept(columns, known),
    ensures
        segment::group_from(columns, known.rows, known.source_versions, chunks_of(known)) == known,
{
    let made = segment::group_from(columns, known.rows, known.source_versions, chunks_of(known));
    assert forall|i: int| 0 <= i < columns.len() implies made.columns[i] == known.columns[i]
        && made.statistics[i] == known.statistics[i] by {
        assert(known.columns[i].0 == columns[i].column_id);
        assert(known.statistics[i].0 == columns[i].column_id);
    }
    assert(made.columns =~= known.columns);
    assert(made.statistics =~= known.statistics);
}

// ---------------------------------------------------------------------------
// Segments
// ---------------------------------------------------------------------------
/// Whether the row versions of a group are as its format asks.
pub open spec fn versions_kept(
    known: GroupView,
    version: u16,
    storage_id: StorageId,
    kind: version::SnapshotKind,
) -> bool {
    if version == INCREMENTAL_FORMAT_VERSION {
        &&& known.source_versions is Some
        &&& known.source_versions->0.len() == known.rows
        &&& forall|i: int|
            0 <= i < known.rows ==> version::key_error(
                #[trigger] known.source_versions->0[i],
                storage_id,
                kind,
            ) is None
    } else {
        known.source_versions is None
    }
}

/// The rows of the first `n` groups.
pub open spec fn rows_of(groups: Seq<GroupView>, n: int) -> int
    decreases n,
{
    if n <= 0 {
        0
    } else {
        rows_of(groups, n - 1) + groups[n - 1].rows
    }
}

/// Whether groups can be written in a format and read back.
pub open spec fn groups_kept(
    columns: Seq<ColumnarColumnSpec>,
    groups: Seq<GroupView>,
    version: u16,
    storage_id: StorageId,
    kind: version::SnapshotKind,
) -> bool {
    forall|i: int|
        0 <= i < groups.len() ==> {
            &&& (#[trigger] groups[i]).rows > 0
            &&& columns_kept(columns, groups[i])
            &&& versions_kept(groups[i], version, storage_id, kind)
        }
}

proof fn lemma_rows_grow(groups: Seq<GroupView>, n: int, m: int)
    requires
        0 <= n <= m <= groups.len(),
    ensures
        0 <= rows_of(groups, n) <= rows_of(groups, m),
    decreases m,
{
    if n < m {
        lemma_rows_grow(groups, n, m - 1);
    } else if n > 0 {
        lemma_rows_grow(groups, n - 1, n - 1);
    }
}

proof fn lemma_group_round_trip(
    s: Seq<u8>,
    at: int,
    known: MetadataView,
    row_group: GroupView,
    version: u16,
    before: int,
)
    requires
        reader::holds(s, at, segment::group_le(known.columns, row_group, version)),
        s.len() <= usize::MAX,
        row_group.rows > 0,
        columns_kept(known.columns, row_group),
        versions_kept(row_group, version, known.source_storage_id, known.source_token.kind),
        before + row_group.rows <= u64::MAX,
    ensures
        segment::group_read(s, at, known, version, before) == Ok::<
            (GroupView, int),
            ColumnarError,
        >((row_group, at + segment::group_le(known.columns, row_group, version).len())),
{
    let columns = known.columns;
    let n = columns.len() as int;
    let p1 = bytes::u32_le(row_group.rows);
    let keys = segment::versions_le(row_group, version);
    let p2 = p1 + keys;
    let chunks = segment::group_chunks_le(columns, row_group, n);
    reader::lemma_holds(s, at, p2, chunks);
    reader::lemma_holds(s, at, p1, keys);
    reader::lemma_u32_read(s, at, row_group.rows);
    if version == INCREMENTAL_FORMAT_VERSION {
        let list = row_group.source_versions->0;
        version::law_keys_round_trip(
            s,
            at + 4,
            list,
            known.source_storage_id,
            known.source_token.kind,
            list.len() as int,
        );
        version::lemma_keys_len(list, list.len() as int);
        assert(list.take(list.len() as int) =~= list);
    }
    law_chunks_round_trip(s, at + p2.len(), columns, row_group, n);
    assert(chunks_of(row_group).take(n) =~= chunks_of(row_group));
    lemma_group_from(columns, row_group);
}

proof fn lemma_groups_round_trip(
    s: Seq<u8>,
    at: int,
    known: MetadataView,
    groups: Seq<GroupView>,
    version: u16,
    n: int,
)
    requires
        0 <= n <= groups.len(),
        reader::holds(s, at, segment::groups_le(known.columns, groups, version, n)),
        s.len() <= usize::MAX,
        groups_kept(
            known.columns,
            groups,
            version,
            known.source_storage_id,
            known.source_token.kind,
        ),
        rows_of(groups, groups.len() as int) <= u64::MAX,
    ensures
        segment::groups_read(s, at, known, version, n) == Ok::<
            ((Seq<GroupView>, int), int),
            ColumnarError,
        >(
            (
                (groups.take(n), rows_of(groups, n)),
                at + segment::groups_le(known.columns, groups, version, n).len(),
            ),
        ),
    decreases n,
{
    if n > 0 {
        let before = segment::groups_le(known.columns, groups, version, n - 1);
        reader::lemma_holds(
            s,
            at,
            before,
            segment::group_le(known.columns, groups[n - 1], version),
        );
        lemma_groups_round_trip(s, at, known, groups, version, n - 1);
        lemma_rows_grow(groups, n, groups.len() as int);
        assert(groups[n - 1].rows > 0);
        lemma_group_round_trip(
            s,
            at + before.len(),
            known,
            groups[n - 1],
            version,
            rows_of(groups, n - 1),
        );
        assert(groups.take(n - 1).push(groups[n - 1]) =~= groups.take(n));
    } else {
        assert(groups.take(0) =~= Seq::empty());
    }
}

/// The identity of a projection's base segment.
pub open spec fn identity_of(known: MetadataView, segment_id: ColumnarSegmentId) -> SegmentIdentity {
    SegmentIdentity {
        projection_id: known.id,
        generation: known.generation,
        segment_id,
        table_id: known.table_id,
        storage_id: known.source_storage_id,
        fingerprint: known.schema_fingerprint,
    }
}

proof fn lemma_header(
    s: Seq<u8>,
    known: MetadataView,
    segment_id: ColumnarSegmentId,
    version: u16,
    groups: nat,
)
    requires
        reader::holds(
            s,
            0,
            segment::header_le(identity_of(known, segment_id), known.columns.len(), groups, version),
        ),
        s.len() <= usize::MAX,
        version == if known.incremental is Some {
            INCREMENTAL_FORMAT_VERSION
        } else {
            SNAPSHOT_FORMAT_VERSION
        },
        known.columns.len() <= u32::MAX,
        groups == known.row_group_count,
        groups <= MAX_ROW_GROUPS,
    ensures
        segment::header_le(
            identity_of(known, segment_id),
            known.columns.len(),
            groups,
            version,
        ).len() == 88,
        segment::format_read(s, 0, known) == Ok::<(u16, int), ColumnarError>((version, 8)),
        segment::identity_read(s, 8, known) == Ok::<(ColumnarSegmentId, int), ColumnarError>(
            (segment_id, 80),
        ),
        segment::group_count_read(s, 80, known) == Ok::<(u32, int), ColumnarError>(
            (groups as u32, 88),
        ),
{
    let columns = known.columns.len() as u32;
    let p1 = segment::segment_magic();
    let p2 = p1 + bytes::u16_le(version);
    let p3 = p2 + bytes::u16_le(0);
    let p4 = p3 + bytes::u64_le(known.id.0);
    let p5 = p4 + bytes::u64_le(known.generation.0);
    let p6 = p5 + bytes::u64_le(segment_id.0);
    let p7 = p6 + bytes::u64_le(known.table_id.0);
    let p8 = p7 + bytes::u64_le(known.source_storage_id.0);
    let p9 = p8 + known.schema_fingerprint.bytes@;
    let p10 = p9 + bytes::u32_le(columns);
    reader::lemma_holds(s, 0, p10, bytes::u32_le(groups as u32));
    reader::lemma_holds(s, 0, p9, bytes::u32_le(columns));
    reader::lemma_holds(s, 0, p8, known.schema_fingerprint.bytes@);
    reader::lemma_holds(s, 0, p7, bytes::u64_le(known.source_storage_id.0));
    reader::lemma_holds(s, 0, p6, bytes::u64_le(known.table_id.0));
    reader::lemma_holds(s, 0, p5, bytes::u64_le(segment_id.0));
    reader::lemma_holds(s, 0, p4, bytes::u64_le(known.generation.0));
    reader::lemma_holds(s, 0, p3, bytes::u64_le(known.id.0));
    reader::lemma_holds(s, 0, p2, bytes::u16_le(0));
    reader::lemma_holds(s, 0, p1, bytes::u16_le(version));
    reader::lemma_u16_read(s, 4, version);
    reader::lemma_u16_read(s, 6, 0);
    reader::lemma_u64_read(s, 8, known.id.0);
    reader::lemma_u64_read(s, 16, known.generation.0);
    reader::lemma_u64_read(s, 24, segment_id.0);
    reader::lemma_u64_read(s, 32, known.table_id.0);
    reader::lemma_u64_read(s, 40, known.source_storage_id.0);
    reader::lemma_fingerprint_read(s, 48, known.schema_fingerprint);
    reader::lemma_u32_read(s, 80, columns);
    reader::lemma_u32_read(s, 84, groups as u32);
}

/// A written segment of a projection is read back.
pub proof fn law_segment_round_trip(
    known: MetadataView,
    segment_id: ColumnarSegmentId,
    groups: Seq<GroupView>,
    version: u16,
)
    requires
        version == if known.incremental is Some {
            INCREMENTAL_FORMAT_VERSION
        } else {
            SNAPSHOT_FORMAT_VERSION
        },
        known.columns.len() <= u32::MAX,
        groups.len() == known.row_group_count,
        groups.len() <= MAX_ROW_GROUPS,
        rows_of(groups, groups.len() as int) == known.row_count,
        groups_kept(
            known.columns,
            groups,
            version,
            known.source_storage_id,
            known.source_token.kind,
        ),
        segment::segment_payload(
            identity_of(known, segment_id),
            known.columns,
            groups,
            version,
        ).len() <= usize::MAX,
    ensures
        segment::segment_of(
            reader::checked(
                segment::segment_payload(
                    identity_of(known, segment_id),
                    known.columns,
                    groups,
                    version,
                ),
            ),
            known,
        ) == Ok::<(ColumnarSegmentId, Seq<GroupView>), ColumnarError>((segment_id, groups)),
{
    let identity = identity_of(known, segment_id);
    let n = groups.len() as int;
    let s = segment::segment_payload(identity, known.columns, groups, version);
    reader::lemma_checked(s);
    let head = segment::header_le(identity, known.columns.len(), groups.len(), version);
    let body = segment::groups_le(known.columns, groups, version, n);
    assert(s.subrange(0, s.len() as int) =~= s);
    reader::lemma_holds(s, 0, head, body);
    lemma_header(s, known, segment_id, version, groups.len());
    lemma_groups_round_trip(s, 88, known, groups, version, n);
    assert(groups.take(n) =~= groups);
}

} // verus!
