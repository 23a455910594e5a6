//! Blocks of indexed segments: what was fetched is checked before it is used.
use super::block::{BlockRef, LazyChunkView, LazyColumnChunk};
use super::chunk;
use super::chunk_laws;
use super::error::ColumnarError;
use super::reader::{self, Reader};
use super::scan::{self, ColumnarScanStatistics};
use super::statistics;
use super::vector::{self, ColumnarVector, VectorView};
use super::version::{self, SnapshotKind};
use crate::change_stream::types::StorageVersionKey;
use crate::checksum;
use crate::ids::StorageId;
use vstd::prelude::*;

verus! {

/// The bytes of a block, or why they could not be fetched.
pub type Fetched = Result<Vec<u8>, String>;

/// A block that is to be fetched. The base segment is file 0, and the delta
/// segments follow in their order.
#[derive(Debug, Clone, Copy, PartialEq, Eq, Structural)]
pub struct BlockRequest {
    pub file: usize,
    pub block: BlockRef,
}

/// What a block holds.
#[derive(Debug, Clone, Copy, PartialEq, Eq, Structural)]
pub enum PayloadKind {
    BaseData,
    BaseVersion,
    DeltaData,
}

/// The bytes of a block whose check value is the expected one.
pub open spec fn block_bytes(fetched: Fetched, want: BlockRef, path: String) -> Result<
    Seq<u8>,
    ColumnarError,
> {
    match fetched {
        Err(message) => Err(ColumnarError::Io(message)),
        Ok(bytes) => if checksum::crc32c_of(bytes@) != want.checksum {
            Err(ColumnarError::ChecksumMismatch { path })
        } else {
            Ok(bytes@)
        },
    }
}

/// Statistics after a block was read.
#[verifier::opaque]
pub open spec fn block_counted(
    statistics: ColumnarScanStatistics,
    length: u64,
    kind: PayloadKind,
) -> ColumnarScanStatistics {
    let base_data = kind == PayloadKind::BaseData;
    let base_version = kind == PayloadKind::BaseVersion;
    let delta_data = kind == PayloadKind::DeltaData;
    ColumnarScanStatistics {
        physical_block_reads: scan::grown(statistics.physical_block_reads, 1),
        physical_bytes_read: scan::grown(statistics.physical_bytes_read, length as int),
        blocks_verified: scan::grown(statistics.blocks_verified, 1),
        base_data_bytes_read: scan::grown(
            statistics.base_data_bytes_read,
            if base_data {
                length as int
            } else {
                0
            },
        ),
        base_version_key_bytes_read: scan::grown(
            statistics.base_version_key_bytes_read,
            if base_version {
                length as int
            } else {
                0
            },
        ),
        delta_data_bytes_read: scan::grown(
            statistics.delta_data_bytes_read,
            if delta_data {
                length as int
            } else {
                0
            },
        ),
        delta_bytes_read: scan::grown(
            statistics.delta_bytes_read,
            if delta_data {
                length as int
            } else {
                0
            },
        ),
        ..statistics
    }
}

/// Checks the bytes of a block and counts it.
pub fn read_checked_block<'a>(
    fetched: &'a Fetched,
    want: BlockRef,
    kind: PayloadKind,
    path: &String,
    statistics: &mut ColumnarScanStatistics,
) -> (read: Result<&'a Vec<u8>, ColumnarError>)
    ensures
        match block_bytes(*fetched, want, *path) {
            Ok(bytes) => {
                &&& read is Ok
                &&& read->Ok_0@ == bytes
                &&& *final(statistics) == block_counted(*old(statistics), want.length, kind)
            },
            Err(error) => read == Err::<&'a Vec<u8>, ColumnarError>(error),
        },
{
    reveal(block_counted);
    let bytes: &'a Vec<u8> = match fetched {
        Ok(bytes) => bytes,
        Err(message) => {
            return Err(ColumnarError::Io(message.clone()));
        },
    };
    if checksum::crc32c(bytes.as_slice()) != want.checksum {
        return Err(ColumnarError::ChecksumMismatch { path: path.clone() });
    }
    statistics.physical_block_reads = statistics.physical_block_reads.saturating_add(1);
    statistics.physical_bytes_read = statistics.physical_bytes_read.saturating_add(want.length);
    statistics.blocks_verified = statistics.blocks_verified.saturating_add(1);
    match kind {
        PayloadKind::BaseData => {
            statistics.base_data_bytes_read = statistics.base_data_bytes_read.saturating_add(
                want.length,
            );
        },
        PayloadKind::BaseVersion => {
            statistics.base_version_key_bytes_read =
            statistics.base_version_key_bytes_read.saturating_add(want.length);
        },
        PayloadKind::DeltaData => {
            statistics.delta_data_bytes_read = statistics.delta_data_bytes_read.saturating_add(
                want.length,
            );
            statistics.delta_bytes_read = statistics.delta_bytes_read.saturating_add(want.length);
        },
    }
    Ok(bytes)
}

// ---------------------------------------------------------------------------
// Columns
// ---------------------------------------------------------------------------
/// What a block of a column is read for.
pub open spec fn data_kind(delta: bool) -> PayloadKind {
    if delta {
        PayloadKind::DeltaData
    } else {
        PayloadKind::BaseData
    }
}

/// The column in a block.
pub open spec fn column_read(fetched: Fetched, want: LazyChunkView, rows: u32, path: String) -> Result<
    VectorView,
    ColumnarError,
> {
    match block_bytes(fetched, want.block, path) {
        Err(error) => Err(error),
        Ok(bytes) => match chunk::chunk_read(bytes, 0, want.spec, rows) {
            Err(error) => Err(error),
            Ok(((found, found_statistics), next)) => match reader::end_error(bytes, next) {
                Some(error) => Err(error),
                None => if found_statistics != want.statistics {
                    Err(ColumnarError::Corrupt("column payload disagrees with indexed metadata"))
                } else {
                    Ok(found)
                },
            },
        },
    }
}

/// Statistics after a column was read from a block.
#[verifier::opaque]
pub open spec fn column_counted(statistics: ColumnarScanStatistics, length: u64, delta: bool)
    -> ColumnarScanStatistics {
    let counted = block_counted(statistics, length, data_kind(delta));
    ColumnarScanStatistics {
        column_chunks_read: scan::grown(counted.column_chunks_read, 1),
        decoded_column_chunks: scan::grown(counted.decoded_column_chunks, 1),
        ..counted
    }
}

/// A column that is read has the rows that it must have.
pub proof fn lemma_column_read(fetched: Fetched, want: LazyChunkView, rows: u32, path: String)
    ensures
        column_read(fetched, want, rows, path) matches Ok(found) ==> {
            &&& vector::well_formed(found)
            &&& vector::vector_len(found) == rows
        },
{
    if let Ok(bytes) = block_bytes(fetched, want.block, path) {
        chunk_laws::law_read_chunk_is_well_formed(bytes, 0, want.spec, rows);
    }
}

/// Reads the column in a block.
pub fn read_column_block(
    fetched: &Fetched,
    want: &LazyColumnChunk,
    rows: u32,
    delta: bool,
    path: &String,
    statistics: &mut ColumnarScanStatistics,
) -> (read: Result<ColumnarVector, ColumnarError>)
    ensures
        match column_read(*fetched, want@, rows, *path) {
            Ok(found) => {
                &&& read is Ok
                &&& read->Ok_0@ == found
                &&& vector::well_formed(found)
                &&& vector::vector_len(found) == rows
                &&& *final(statistics) == column_counted(
                    *old(statistics),
                    want.block.length,
                    delta,
                )
            },
            Err(error) => read == Err::<ColumnarVector, ColumnarError>(error),
        },
{
    proof {
        lemma_column_read(*fetched, want@, rows, *path);
    }
    reveal(column_counted);
    let kind: PayloadKind = if delta {
        PayloadKind::DeltaData
    } else {
        PayloadKind::BaseData
    };
    let bytes: &Vec<u8> = read_checked_block(fetched, want.block, kind, path, statistics)?;
    let mut reader: Reader<'_> = Reader::new(bytes.as_slice());
    let (found, found_statistics) = chunk::decode_column_chunk(&mut reader, &want.spec, rows)?;
    reader.finish()?;
    if !statistics::same_statistics(&found_statistics, &want.statistics) {
        return Err(ColumnarError::Corrupt("column payload disagrees with indexed metadata"));
    }
    statistics.column_chunks_read = statistics.column_chunks_read.saturating_add(1);
    statistics.decoded_column_chunks = statistics.decoded_column_chunks.saturating_add(1);
    Ok(found)
}

// ---------------------------------------------------------------------------
// Row versions
// ---------------------------------------------------------------------------
/// The row versions in a block.
pub open spec fn versions_read(
    fetched: Fetched,
    want: BlockRef,
    rows: u32,
    storage_id: StorageId,
    kind: SnapshotKind,
    path: String,
) -> Result<Seq<StorageVersionKey>, ColumnarError> {
    match block_bytes(fetched, want, path) {
        Err(error) => Err(error),
        Ok(bytes) => match version::keys_read(bytes, 0, storage_id, kind, rows as int) {
            Err(error) => Err(error),
            Ok((keys, next)) => match reader::end_error(bytes, next) {
                Some(error) => Err(error),
                None => Ok(keys),
            },
        },
    }
}

/// Statistics after row versions were read from a block.
#[verifier::opaque]
pub open spec fn versions_counted(statistics: ColumnarScanStatistics, length: u64)
    -> ColumnarScanStatistics {
    let counted = block_counted(statistics, length, PayloadKind::BaseVersion);
    ColumnarScanStatistics {
        decoded_version_blocks: scan::grown(counted.decoded_version_blocks, 1),
        version_key_chunks_read: scan::grown(counted.version_key_chunks_read, 1),
        ..counted
    }
}

/// Reads the row versions in a block.
pub fn read_version_block(
    fetched: &Fetched,
    want: BlockRef,
    rows: u32,
    storage_id: StorageId,
    kind: SnapshotKind,
    path: &String,
    statistics: &mut ColumnarScanStatistics,
) -> (read: Result<Vec<StorageVersionKey>, ColumnarError>)
    ensures
        match versions_read(*fetched, want, rows, storage_id, kind, *path) {
            Ok(keys) => {
                &&& read is Ok
                &&& read->Ok_0@ == keys
                &&& keys.len() == rows
                &&& *final(statistics) == versions_counted(*old(statistics), want.length)
            },
            Err(error) => read == Err::<Vec<StorageVersionKey>, ColumnarError>(error),
        },
{
    reveal(versions_counted);
    let bytes: &Vec<u8> = read_checked_block(
        fetched,
        want,
        PayloadKind::BaseVersion,
        path,
        statistics,
    )?;
    proof {
        version::lemma_keys_read_len(bytes@, 0, storage_id, kind, rows as int);
    }
    let mut reader: Reader<'_> = Reader::new(bytes.as_slice());
    let keys: Vec<StorageVersionKey> = version::decode_version_keys(
        &mut reader,
        storage_id,
        kind,
        rows,
    )?;
    reader.finish()?;
    statistics.decoded_version_blocks = statistics.decoded_version_blocks.saturating_add(1);
    statistics.version_key_chunks_read = statistics.version_key_chunks_read.saturating_add(1);
    Ok(keys)
}

} // verus!
