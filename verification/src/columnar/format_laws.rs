//! How the files of a projection look, byte by byte.
use super::block::{self, BlockRef};
use super::chunk;
use super::delta;
use super::error::ColumnarError;
use super::lazy_segment;
use super::manifest;
use super::metadata::{MetadataView, SegmentIdentity};
use super::reader;
use super::scalar;
use super::segment;
use super::validity;
use super::vector::{ColumnarColumnSpec, VectorView};
use super::version::{self, SnapshotKind};
use crate::bytes;
use crate::change_stream::types::StorageVersionKey;
use crate::checksum;
use crate::value::{PhysicalType, Scalar, ScalarView};
use vstd::prelude::*;

verus! {

broadcast use crate::bytes::group_le_len;

/// A file ends with the check value of what comes before it.
pub proof fn law_checked_bytes(payload: Seq<u8>)
    ensures
        reader::checked(payload).len() == payload.len() + 4,
        reader::checked(payload).take(payload.len() as int) == payload,
        reader::checked(payload).skip(payload.len() as int) == bytes::u32_le(
            checksum::crc32c_of(payload),
        ),
{
    let n = payload.len() as int;
    assert(reader::checked(payload).take(n) =~= payload);
    assert(reader::checked(payload).skip(n) =~= bytes::u32_le(checksum::crc32c_of(payload)));
}

/// A row has a value where its bit is set: eight rows to a byte, the first of them at
/// the lowest bit.
pub proof fn law_validity_bits(validity: Seq<u8>, row: int)
    requires
        0 <= row < 8 * validity.len(),
    ensures
        ({
            let byte = validity[row / 8];
            let place = row % 8;
            &&& place == 0 ==> (validity::bit(validity, row) <==> byte % 2 == 1)
            &&& place == 1 ==> (validity::bit(validity, row) <==> byte / 2 % 2 == 1)
            &&& place == 2 ==> (validity::bit(validity, row) <==> byte / 4 % 2 == 1)
            &&& place == 3 ==> (validity::bit(validity, row) <==> byte / 8 % 2 == 1)
            &&& place == 4 ==> (validity::bit(validity, row) <==> byte / 16 % 2 == 1)
            &&& place == 5 ==> (validity::bit(validity, row) <==> byte / 32 % 2 == 1)
            &&& place == 6 ==> (validity::bit(validity, row) <==> byte / 64 % 2 == 1)
            &&& place == 7 ==> (validity::bit(validity, row) <==> byte / 128 % 2 == 1)
        }),
{
    let byte = validity[row / 8];
    let place = (row % 8) as u8;
    assert({
        &&& place == 0 ==> (byte & (1u8 << place) != 0 <==> byte % 2 == 1)
        &&& place == 1 ==> (byte & (1u8 << place) != 0 <==> byte / 2 % 2 == 1)
        &&& place == 2 ==> (byte & (1u8 << place) != 0 <==> byte / 4 % 2 == 1)
        &&& place == 3 ==> (byte & (1u8 << place) != 0 <==> byte / 8 % 2 == 1)
        &&& place == 4 ==> (byte & (1u8 << place) != 0 <==> byte / 16 % 2 == 1)
        &&& place == 5 ==> (byte & (1u8 << place) != 0 <==> byte / 32 % 2 == 1)
        &&& place == 6 ==> (byte & (1u8 << place) != 0 <==> byte / 64 % 2 == 1)
        &&& place == 7 ==> (byte & (1u8 << place) != 0 <==> byte / 128 % 2 == 1)
    }) by (bit_vector);
}

/// A written bitmap has a byte for every eight rows begun, and says of each row
/// whether it has a value.
pub proof fn law_written_validity(flags: Seq<bool>, row: int)
    ensures
        8 * validity::bitmap(flags).len() - 8 < flags.len() <= 8 * validity::bitmap(flags).len(),
        0 <= row < flags.len() ==> validity::bit(validity::bitmap(flags), row) == flags[row],
{
    validity::lemma_bitmap(flags);
}

/// A single value: a byte that says whether there is one, then a byte for a truth
/// value, eight for a number, or a text behind its length.
pub proof fn law_value_bytes(value: Option<ScalarView>)
    ensures
        scalar::optional_le(value) == match value {
            None => seq![0u8],
            Some(Scalar::Null) => seq![1u8],
            Some(Scalar::Bool(flag)) => seq![
                1u8,
                if flag {
                    1u8
                } else {
                    0u8
                },
            ],
            Some(Scalar::Int64(number)) => seq![1u8] + bytes::u64_le(number as u64),
            Some(Scalar::UInt64(number)) => seq![1u8] + bytes::u64_le(number),
            Some(Scalar::Text(text)) => seq![1u8] + (bytes::u32_le(text.len() as u32) + text),
        },
{
    match value {
        Some(Scalar::Null) => {
            assert(scalar::optional_le(value) =~= seq![1u8]);
        },
        Some(Scalar::Bool(flag)) => {
            assert(scalar::optional_le(value) =~= seq![
                1u8,
                if flag {
                    1u8
                } else {
                    0u8
                },
            ]);
        },
        _ => {},
    }
}

/// A column takes eight bytes: its identity, the number of its type, whether it may
/// lack values, and two zeros. Only the four numbers are types.
pub proof fn law_column_bytes(column: ColumnarColumnSpec, tag: u8)
    ensures
        ({
            let entry = manifest::column_le(column);
            &&& entry.len() == 8
            &&& entry.take(4) == bytes::u32_le(column.column_id.0)
            &&& entry[4] == match column.physical_type {
                PhysicalType::Bool => 1u8,
                PhysicalType::Int64 => 2u8,
                PhysicalType::UInt64 => 3u8,
                PhysicalType::Text => 4u8,
            }
            &&& entry[5] == if column.nullable {
                1u8
            } else {
                0u8
            }
            &&& entry.skip(6) == bytes::u16_le(0)
            &&& (scalar::tagged(tag) is Ok <==> 1 <= tag <= 4)
            &&& (scalar::tagged(tag) == Ok::<_, ColumnarError>(column.physical_type)
                <==> tag == entry[4])
        }),
{
    let entry = manifest::column_le(column);
    assert(entry.take(4) =~= bytes::u32_le(column.column_id.0));
    assert(entry.skip(6) =~= bytes::u16_le(0));
}

/// A row version takes twenty-four bytes: its kind, seven zeros, and its place.
pub proof fn law_version_bytes(key: StorageVersionKey)
    ensures
        ({
            let entry = version::key_le(key);
            &&& entry.len() == 24
            &&& entry[0] == if key is Heap {
                1u8
            } else {
                2u8
            }
            &&& forall|i: int| 1 <= i < 8 ==> entry[i] == 0
            &&& match key {
                StorageVersionKey::Heap { row_id, .. } => {
                    &&& entry.subrange(8, 16) == bytes::u64_le(row_id.page.0)
                    &&& entry.subrange(16, 18) == bytes::u16_le(row_id.slot)
                    &&& entry.subrange(18, 22) == bytes::u32_le(row_id.generation)
                    &&& entry.subrange(22, 24) == bytes::u16_le(0)
                },
                StorageVersionKey::Lsm { row_id, version, .. } => {
                    &&& entry.subrange(8, 16) == bytes::u64_le(row_id.0)
                    &&& entry.subrange(16, 24) == bytes::u64_le(version.0)
                },
            }
        }),
{
    let entry = version::key_le(key);
    match key {
        StorageVersionKey::Heap { row_id, .. } => {
            assert(entry.subrange(8, 16) =~= bytes::u64_le(row_id.page.0));
            assert(entry.subrange(16, 18) =~= bytes::u16_le(row_id.slot));
            assert(entry.subrange(18, 22) =~= bytes::u32_le(row_id.generation));
            assert(entry.subrange(22, 24) =~= bytes::u16_le(0));
        },
        StorageVersionKey::Lsm { row_id, version, .. } => {
            assert(entry.subrange(8, 16) =~= bytes::u64_le(row_id.0));
            assert(entry.subrange(16, 24) =~= bytes::u64_le(version.0));
        },
    }
}

/// A reference to a block takes twenty-four bytes: where it starts, how long it is, its
/// check value, and four zeros.
pub proof fn law_block_bytes(known: BlockRef)
    ensures
        ({
            let entry = block::block_le(known);
            &&& entry.len() == 24
            &&& entry.subrange(0, 8) == bytes::u64_le(known.offset)
            &&& entry.subrange(8, 16) == bytes::u64_le(known.length)
            &&& entry.subrange(16, 20) == bytes::u32_le(known.checksum)
            &&& entry.subrange(20, 24) == bytes::u32_le(0)
        }),
{
    let entry = block::block_le(known);
    assert(entry.subrange(0, 8) =~= bytes::u64_le(known.offset));
    assert(entry.subrange(8, 16) =~= bytes::u64_le(known.length));
    assert(entry.subrange(16, 20) =~= bytes::u32_le(known.checksum));
    assert(entry.subrange(20, 24) =~= bytes::u32_le(0));
}

proof fn lemma_numbers_at(values: Seq<u64>, n: int, i: int)
    requires
        0 <= i < n,
    ensures
        chunk::numbers_le(values, n).len() == 8 * n,
        chunk::numbers_le(values, n).subrange(8 * i, 8 * i + 8) == bytes::u64_le(values[i]),
    decreases n,
{
    let m = n - 1;
    if i < m {
        lemma_numbers_at(values, m, i);
        assert(chunk::numbers_le(values, n).subrange(8 * i, 8 * i + 8) =~= chunk::numbers_le(
            values,
            m,
        ).subrange(8 * i, 8 * i + 8));
    } else {
        if m > 0 {
            lemma_numbers_at(values, m, 0);
        }
        assert(chunk::numbers_le(values, n).subrange(8 * i, 8 * i + 8) =~= bytes::u64_le(
            values[i],
        ));
    }
}

proof fn lemma_offsets_at(values: Seq<u32>, n: int, i: int)
    requires
        0 <= i < n,
    ensures
        chunk::offsets_le(values, n).len() == 4 * n,
        chunk::offsets_le(values, n).subrange(4 * i, 4 * i + 4) == bytes::u32_le(values[i]),
    decreases n,
{
    let m = n - 1;
    if i < m {
        lemma_offsets_at(values, m, i);
        assert(chunk::offsets_le(values, n).subrange(4 * i, 4 * i + 4) =~= chunk::offsets_le(
            values,
            m,
        ).subrange(4 * i, 4 * i + 4));
    } else {
        if m > 0 {
            lemma_offsets_at(values, m, 0);
        }
        assert(chunk::offsets_le(values, n).subrange(4 * i, 4 * i + 4) =~= bytes::u32_le(
            values[i],
        ));
    }
}

/// The values of a column come in row order: a byte for each truth value, eight for
/// each number; of texts the offsets, four bytes each, and then all the text.
pub proof fn law_column_values_bytes(vector: VectorView, i: int)
    ensures
        ({
            let data = chunk::data_le(vector);
            match vector {
                VectorView::Bool { values, .. } => {
                    &&& data.len() == values.len()
                    &&& 0 <= i < values.len() ==> data[i] == if values[i] {
                        1u8
                    } else {
                        0u8
                    }
                },
                VectorView::Int64 { values, .. } => 0 <= i < values.len() ==> {
                    &&& data.len() == 8 * values.len()
                    &&& data.subrange(8 * i, 8 * i + 8) == bytes::u64_le(values[i] as u64)
                },
                VectorView::UInt64 { values, .. } => 0 <= i < values.len() ==> {
                    &&& data.len() == 8 * values.len()
                    &&& data.subrange(8 * i, 8 * i + 8) == bytes::u64_le(values[i])
                },
                VectorView::Text { offsets, bytes, .. } => 0 <= i < offsets.len() ==> {
                    &&& data.len() == 4 * offsets.len() + bytes.len()
                    &&& data.subrange(4 * i, 4 * i + 4) == bytes::u32_le(offsets[i])
                    &&& data.skip(4 * offsets.len() as int) == bytes
                },
            }
        }),
{
    let data = chunk::data_le(vector);
    match vector {
        VectorView::Bool { .. } => {},
        VectorView::Int64 { values, .. } => {
            if 0 <= i < values.len() {
                lemma_numbers_at(chunk::unsigned(values), values.len() as int, i);
            }
        },
        VectorView::UInt64 { values, .. } => {
            if 0 <= i < values.len() {
                lemma_numbers_at(values, values.len() as int, i);
            }
        },
        VectorView::Text { offsets, bytes, .. } => {
            if 0 <= i < offsets.len() {
                let n = offsets.len() as int;
                lemma_offsets_at(offsets, n, i);
                assert(data.subrange(4 * i, 4 * i + 4) =~= chunk::offsets_le(offsets, n).subrange(
                    4 * i,
                    4 * i + 4,
                ));
                assert(data.skip(4 * n) =~= bytes);
            }
        },
    }
}

/// A manifest starts with the letters NBCM, its version, two zeros, and whose it is.
pub proof fn law_manifest_head_bytes(version: u16, known: MetadataView)
    requires
        known.schema_fingerprint.bytes@.len() == 32,
    ensures
        ({
            let head = manifest::identity_le(version, known) + manifest::counts_le(known);
            &&& head.len() == 128
            &&& head.take(4) == seq![78u8, 66u8, 67u8, 77u8]
            &&& head.subrange(4, 6) == bytes::u16_le(version)
            &&& head.subrange(6, 8) == bytes::u16_le(0)
            &&& head.subrange(8, 16) == bytes::u64_le(known.id.0)
            &&& head.subrange(16, 24) == bytes::u64_le(known.generation.0)
            &&& head.subrange(24, 32) == bytes::u64_le(known.table_id.0)
            &&& head.subrange(32, 40) == bytes::u64_le(known.source_storage_id.0)
            &&& head.subrange(40, 72) == known.schema_fingerprint.bytes@
            &&& head[72] == match known.source_token.kind {
                SnapshotKind::Heap => 1u8,
                SnapshotKind::Lsm => 2u8,
            }
            &&& forall|i: int| 73 <= i < 80 ==> head[i] == 0
            &&& head.subrange(80, 88) == bytes::u64_le(known.source_token.epoch)
            &&& head.subrange(88, 96) == bytes::u64_le(known.source_token.sequence)
            &&& head.subrange(96, 104) == bytes::u64_le(known.row_count)
            &&& head.subrange(104, 112) == bytes::u64_le(known.row_group_count)
            &&& head.subrange(112, 120) == bytes::u64_le(known.segment_count)
            &&& head.subrange(120, 128) == bytes::u64_le(known.segment_bytes)
        }),
{
    let head = manifest::identity_le(version, known) + manifest::counts_le(known);
    assert(head.take(4) =~= seq![78u8, 66u8, 67u8, 77u8]);
    assert(head.subrange(4, 6) =~= bytes::u16_le(version));
    assert(head.subrange(6, 8) =~= bytes::u16_le(0));
    assert(head.subrange(8, 16) =~= bytes::u64_le(known.id.0));
    assert(head.subrange(16, 24) =~= bytes::u64_le(known.generation.0));
    assert(head.subrange(24, 32) =~= bytes::u64_le(known.table_id.0));
    assert(head.subrange(32, 40) =~= bytes::u64_le(known.source_storage_id.0));
    assert(head.subrange(40, 72) =~= known.schema_fingerprint.bytes@);
    assert(head.subrange(80, 88) =~= bytes::u64_le(known.source_token.epoch));
    assert(head.subrange(88, 96) =~= bytes::u64_le(known.source_token.sequence));
    assert(head.subrange(96, 104) =~= bytes::u64_le(known.row_count));
    assert(head.subrange(104, 112) =~= bytes::u64_le(known.row_group_count));
    assert(head.subrange(112, 120) =~= bytes::u64_le(known.segment_count));
    assert(head.subrange(120, 128) =~= bytes::u64_le(known.segment_bytes));
}

/// A base segment starts with the letters NBCS, its version, two zeros, whose it is, and
/// how many columns and groups it has.
pub proof fn law_segment_head_bytes(
    identity: SegmentIdentity,
    columns: nat,
    groups: nat,
    version: u16,
)
    requires
        identity.fingerprint.bytes@.len() == 32,
    ensures
        ({
            let head = segment::header_le(identity, columns, groups, version);
            &&& head.len() == 88
            &&& head.take(4) == seq![78u8, 66u8, 67u8, 83u8]
            &&& head.subrange(4, 6) == bytes::u16_le(version)
            &&& head.subrange(6, 8) == bytes::u16_le(0)
            &&& head.subrange(8, 16) == bytes::u64_le(identity.projection_id.0)
            &&& head.subrange(16, 24) == bytes::u64_le(identity.generation.0)
            &&& head.subrange(24, 32) == bytes::u64_le(identity.segment_id.0)
            &&& head.subrange(32, 40) == bytes::u64_le(identity.table_id.0)
            &&& head.subrange(40, 48) == bytes::u64_le(identity.storage_id.0)
            &&& head.subrange(48, 80) == identity.fingerprint.bytes@
            &&& head.subrange(80, 84) == bytes::u32_le(columns as u32)
            &&& head.subrange(84, 88) == bytes::u32_le(groups as u32)
        }),
{
    let head = segment::header_le(identity, columns, groups, version);
    assert(head.take(4) =~= seq![78u8, 66u8, 67u8, 83u8]);
    assert(head.subrange(4, 6) =~= bytes::u16_le(version));
    assert(head.subrange(6, 8) =~= bytes::u16_le(0));
    assert(head.subrange(8, 16) =~= bytes::u64_le(identity.projection_id.0));
    assert(head.subrange(16, 24) =~= bytes::u64_le(identity.generation.0));
    assert(head.subrange(24, 32) =~= bytes::u64_le(identity.segment_id.0));
    assert(head.subrange(32, 40) =~= bytes::u64_le(identity.table_id.0));
    assert(head.subrange(40, 48) =~= bytes::u64_le(identity.storage_id.0));
    assert(head.subrange(48, 80) =~= identity.fingerprint.bytes@);
    assert(head.subrange(80, 84) =~= bytes::u32_le(columns as u32));
    assert(head.subrange(84, 88) =~= bytes::u32_le(groups as u32));
}

/// An indexed segment starts with the letters NBCS, the number three, whether it has row
/// versions, whose it is, the kind of its storage, its counts, and where its footer is.
pub proof fn law_indexed_head_bytes(
    identity: SegmentIdentity,
    kind: SnapshotKind,
    incremental: bool,
    columns: nat,
    groups: nat,
    rows: u64,
    footer: BlockRef,
)
    requires
        identity.fingerprint.bytes@.len() == 32,
    ensures
        ({
            let head = lazy_segment::header_payload(
                identity,
                kind,
                incremental,
                columns,
                groups,
                rows,
                footer,
            );
            &&& head.len() == 128
            &&& head.take(4) == seq![78u8, 66u8, 67u8, 83u8]
            &&& head.subrange(4, 6) == bytes::u16_le(3)
            &&& head.subrange(6, 8) == bytes::u16_le(
                if incremental {
                    1
                } else {
                    0
                },
            )
            &&& head.subrange(8, 16) == bytes::u64_le(identity.projection_id.0)
            &&& head.subrange(16, 24) == bytes::u64_le(identity.generation.0)
            &&& head.subrange(24, 32) == bytes::u64_le(identity.segment_id.0)
            &&& head.subrange(32, 40) == bytes::u64_le(identity.table_id.0)
            &&& head.subrange(40, 48) == bytes::u64_le(identity.storage_id.0)
            &&& head.subrange(48, 80) == identity.fingerprint.bytes@
            &&& head[80] == match kind {
                SnapshotKind::Heap => 1u8,
                SnapshotKind::Lsm => 2u8,
            }
            &&& forall|i: int| 81 <= i < 88 ==> head[i] == 0
            &&& head.subrange(88, 92) == bytes::u32_le(columns as u32)
            &&& head.subrange(92, 96) == bytes::u32_le(groups as u32)
            &&& head.subrange(96, 104) == bytes::u64_le(rows)
            &&& head.subrange(104, 112) == bytes::u64_le(footer.offset)
            &&& head.subrange(112, 120) == bytes::u64_le(footer.length)
            &&& head.subrange(120, 124) == bytes::u32_le(footer.checksum)
            &&& head.subrange(124, 128) == bytes::u32_le(0)
        }),
{
    let head = lazy_segment::header_payload(
        identity,
        kind,
        incremental,
        columns,
        groups,
        rows,
        footer,
    );
    assert(head.take(4) =~= seq![78u8, 66u8, 67u8, 83u8]);
    assert(head.subrange(4, 6) =~= bytes::u16_le(3));
    assert(head.subrange(6, 8) =~= bytes::u16_le(
        if incremental {
            1
        } else {
            0
        },
    ));
    assert(head.subrange(8, 16) =~= bytes::u64_le(identity.projection_id.0));
    assert(head.subrange(16, 24) =~= bytes::u64_le(identity.generation.0));
    assert(head.subrange(24, 32) =~= bytes::u64_le(identity.segment_id.0));
    assert(head.subrange(32, 40) =~= bytes::u64_le(identity.table_id.0));
    assert(head.subrange(40, 48) =~= bytes::u64_le(identity.storage_id.0));
    assert(head.subrange(48, 80) =~= identity.fingerprint.bytes@);
    assert(head.subrange(88, 92) =~= bytes::u32_le(columns as u32));
    assert(head.subrange(92, 96) =~= bytes::u32_le(groups as u32));
    assert(head.subrange(96, 104) =~= bytes::u64_le(rows));
    assert(head.subrange(104, 112) =~= bytes::u64_le(footer.offset));
    assert(head.subrange(112, 120) =~= bytes::u64_le(footer.length));
    assert(head.subrange(120, 124) =~= bytes::u32_le(footer.checksum));
    assert(head.subrange(124, 128) =~= bytes::u32_le(0));
}

/// A delta segment starts with the letters NBCD, its version, two zeros, whose it is,
/// and the kind of its storage.
pub proof fn law_delta_head_bytes(known: MetadataView, version: u16)
    requires
        known.schema_fingerprint.bytes@.len() == 32,
    ensures
        ({
            let head = delta::context_le(known, version);
            &&& head.len() == 80
            &&& head.take(4) == seq![78u8, 66u8, 67u8, 68u8]
            &&& head.subrange(4, 6) == bytes::u16_le(version)
            &&& head.subrange(6, 8) == bytes::u16_le(0)
            &&& head.subrange(8, 16) == bytes::u64_le(known.id.0)
            &&& head.subrange(16, 24) == bytes::u64_le(known.generation.0)
            &&& head.subrange(24, 32) == bytes::u64_le(known.table_id.0)
            &&& head.subrange(32, 40) == bytes::u64_le(known.source_storage_id.0)
            &&& head.subrange(40, 72) == known.schema_fingerprint.bytes@
            &&& head[72] == match known.source_token.kind {
                SnapshotKind::Heap => 1u8,
                SnapshotKind::Lsm => 2u8,
            }
            &&& forall|i: int| 73 <= i < 80 ==> head[i] == 0
        }),
{
    let head = delta::context_le(known, version);
    assert(head.take(4) =~= seq![78u8, 66u8, 67u8, 68u8]);
    assert(head.subrange(4, 6) =~= bytes::u16_le(version));
    assert(head.subrange(6, 8) =~= bytes::u16_le(0));
    assert(head.subrange(8, 16) =~= bytes::u64_le(known.id.0));
    assert(head.subrange(16, 24) =~= bytes::u64_le(known.generation.0));
    assert(head.subrange(24, 32) =~= bytes::u64_le(known.table_id.0));
    assert(head.subrange(32, 40) =~= bytes::u64_le(known.source_storage_id.0));
    assert(head.subrange(40, 72) =~= known.schema_fingerprint.bytes@);
}

} // verus!
