//! The bytes of a change log: its header, prepared batches and finalize
//! markers.
use super::error::ChangeStreamError;
use super::types::ChangeStorageKind;
use crate::bytes;
use crate::checksum;
use crate::ids;
use crate::ids::{ChangeStreamGeneration, SchemaFingerprint, StorageDataVersion, StorageId, TableId};
use vstd::prelude::*;

verus! {

broadcast use crate::bytes::group_le_len;

pub const CHANGE_LOG_FORMAT_VERSION: u16 = 2;

pub const CHANGE_LOG_MAX_RECORD_BYTES: u32 = 67_108_864;

pub const CHANGE_LOG_MAX_MUTATIONS: u32 = 1_000_000;

pub const CHANGE_LOG_MAX_ROW_BYTES: u32 = 16_777_216;

pub const V1_HEADER_SIZE: usize = 80;

pub const V2_HEADER_SIZE: usize = 104;

pub const PREPARED_TAG: u8 = 1;

pub const FINALIZE_TAG: u8 = 2;

pub const HEAP_TAG: u8 = 1;

pub const LSM_TAG: u8 = 2;

pub const INSERT_TAG: u8 = 1;

pub const UPDATE_TAG: u8 = 2;

pub const DELETE_TAG: u8 = 3;

/// Bytes of a prepared batch in front of its mutations.
pub const RECORD_FIXED: usize = 104;

/// The first four bytes of a change log: `NBCL`.
pub open spec fn magic() -> Seq<u8> {
    seq![78u8, 66u8, 67u8, 76u8]
}

/// The head of a change log.
#[derive(Debug, Clone, Copy)]
pub struct Header {
    pub version: u16,
    pub active: bool,
    pub kind: ChangeStorageKind,
    pub storage_id: StorageId,
    pub table_id: TableId,
    pub fingerprint: SchemaFingerprint,
    pub generation: ChangeStreamGeneration,
    pub origin: StorageDataVersion,
    pub earliest: StorageDataVersion,
    /// Durable high-water at the last rewrite. Appended committed records may
    /// advance beyond this checkpoint without rewriting the header.
    pub current: StorageDataVersion,
    /// Durable sequence floor at the last rewrite. Appended records may
    /// advance the in-memory value beyond it.
    pub next_sequence: u64,
}

/// The byte of a storage kind.
pub open spec fn kind_tag(kind: ChangeStorageKind) -> u8 {
    match kind {
        ChangeStorageKind::Heap => HEAP_TAG,
        ChangeStorageKind::Lsm => LSM_TAG,
    }
}

/// The storage kind of a byte.
pub open spec fn kind_of(tag: u8) -> Result<ChangeStorageKind, ChangeStreamError> {
    if tag == HEAP_TAG {
        Ok(ChangeStorageKind::Heap)
    } else if tag == LSM_TAG {
        Ok(ChangeStorageKind::Lsm)
    } else {
        Err(ChangeStreamError::InvalidHeader("unknown storage kind"))
    }
}

impl ChangeStorageKind {
    /// The byte of the kind.
    pub fn tag(self) -> (tag: u8)
        ensures
            tag == kind_tag(self),
    {
        match self {
            ChangeStorageKind::Heap => HEAP_TAG,
            ChangeStorageKind::Lsm => LSM_TAG,
        }
    }

    /// The kind of a byte.
    pub fn decode(tag: u8) -> (kind: Result<ChangeStorageKind, ChangeStreamError>)
        ensures
            kind == kind_of(tag),
    {
        if tag == HEAP_TAG {
            Ok(ChangeStorageKind::Heap)
        } else if tag == LSM_TAG {
            Ok(ChangeStorageKind::Lsm)
        } else {
            Err(ChangeStreamError::InvalidHeader("unknown storage kind"))
        }
    }
}

/// The byte of a flag.
pub open spec fn flag(set: bool) -> u8 {
    if set {
        1
    } else {
        0
    }
}

/// The part of a header that both format versions have.
pub open spec fn header_common(header: Header) -> Seq<u8> {
    magic() + bytes::u16_le(header.version) + seq![flag(header.active), kind_tag(header.kind)]
        + bytes::u64_le(header.storage_id.0) + bytes::u64_le(header.table_id.0)
        + header.fingerprint.bytes@ + bytes::u64_le(header.generation.0) + bytes::u64_le(
        header.origin.0,
    )
}

/// A header without its check value.
pub open spec fn header_body(header: Header) -> Seq<u8> {
    if header.version == 1 {
        header_common(header) + bytes::zeros(4)
    } else {
        header_common(header) + bytes::u64_le(header.earliest.0) + bytes::u64_le(header.current.0)
            + bytes::u64_le(header.next_sequence) + bytes::zeros(4)
    }
}

/// The bytes of a header.
pub open spec fn header_bytes(header: Header) -> Seq<u8> {
    header_body(header) + bytes::u32_le(checksum::crc32c_of(header_body(header)))
}

/// The bytes of a header whose version is one of the two formats.
pub fn encode_header(header: &Header) -> (output: Vec<u8>)
    requires
        header.version == 1 || header.version == CHANGE_LOG_FORMAT_VERSION,
    ensures
        output@ == header_bytes(*header),
{
    let mut output: Vec<u8> = Vec::new();
    output.push(78);
    output.push(66);
    output.push(67);
    output.push(76);
    bytes::push_u16(&mut output, header.version);
    output.push(if header.active { 1 } else { 0 });
    output.push(header.kind.tag());
    assert(output@ =~= magic() + bytes::u16_le(header.version) + seq![
        flag(header.active),
        kind_tag(header.kind),
    ]);
    bytes::push_u64(&mut output, header.storage_id.0);
    bytes::push_u64(&mut output, header.table_id.0);
    bytes::push_bytes(&mut output, header.fingerprint.bytes.as_slice());
    bytes::push_u64(&mut output, header.generation.0);
    bytes::push_u64(&mut output, header.origin.0);
    assert(output@ == header_common(*header));
    if header.version != 1 {
        bytes::push_u64(&mut output, header.earliest.0);
        bytes::push_u64(&mut output, header.current.0);
        bytes::push_u64(&mut output, header.next_sequence);
    }
    bytes::push_zeros(&mut output, 4);
    assert(output@ == header_body(*header));
    let check: u32 = checksum::crc32c(output.as_slice());
    bytes::push_u32(&mut output, check);
    output
}

/// The length that a header of this format version has.
pub open spec fn header_size(version: u16) -> int {
    if version == 1 {
        V1_HEADER_SIZE as int
    } else {
        V2_HEADER_SIZE as int
    }
}

/// A header has the length of its format version.
pub proof fn lemma_header_length(header: Header)
    ensures
        header_bytes(header).len() == header_size(header.version),
{
}

/// The header in `s`, where `check` is the check value of all but its last
/// four bytes; or why there is none.
pub open spec fn header_of(s: Seq<u8>, check: u32) -> Result<Header, ChangeStreamError> {
    let version = bytes::u16_at(s, 4);
    let end = header_size(version) - 4;
    let storage_id = StorageId(bytes::u64_at(s, 8));
    let table_id = TableId(bytes::u64_at(s, 16));
    let generation = ChangeStreamGeneration(bytes::u64_at(s, 56));
    let origin = StorageDataVersion(bytes::u64_at(s, 64));
    let earliest = if version == 1 { origin } else { StorageDataVersion(bytes::u64_at(s, 72)) };
    let current = if version == 1 { origin } else { StorageDataVersion(bytes::u64_at(s, 80)) };
    let next_sequence = if version == 1 { 1 } else { bytes::u64_at(s, 88) };
    if s.len() < 6 {
        Err(ChangeStreamError::Truncated { offset: s.len() as u64 })
    } else if s.subrange(0, 4) != magic() {
        Err(ChangeStreamError::InvalidMagic)
    } else if version != 1 && version != CHANGE_LOG_FORMAT_VERSION {
        Err(ChangeStreamError::UnsupportedVersion(version))
    } else if s.len() != header_size(version) {
        Err(ChangeStreamError::Truncated { offset: s.len() as u64 })
    } else if s[6] > 1 || s.subrange(end - 4, end) != bytes::zeros(4) {
        Err(ChangeStreamError::InvalidHeader("invalid flags or reserved bytes"))
    } else if check != bytes::u32_at(s, end) {
        Err(ChangeStreamError::ChecksumMismatch { offset: 0 })
    } else if storage_id.0 == 0 || table_id.0 == 0 || generation.0 == 0 {
        Err(ChangeStreamError::InvalidHeader("zero identity"))
    } else if origin.0 > earliest.0 || earliest.0 > current.0 {
        Err(
            ChangeStreamError::InvalidHeader(
                "origin, earliest, and current frontiers are out of order",
            ),
        )
    } else if next_sequence == 0 {
        Err(ChangeStreamError::InvalidHeader("zero next sequence"))
    } else {
        match kind_of(s[7]) {
            Err(error) => Err(error),
            Ok(kind) => Ok(
                Header {
                    version,
                    active: s[6] == 1,
                    kind,
                    storage_id,
                    table_id,
                    fingerprint: ids::fingerprint_of(s.subrange(24, 56)),
                    generation,
                    origin,
                    earliest,
                    current,
                    next_sequence,
                },
            ),
        }
    }
}

/// The check value that covers all but the last four bytes of `s`.
pub open spec fn header_check(s: Seq<u8>) -> u32 {
    if s.len() >= 4 {
        checksum::crc32c_of(s.subrange(0, s.len() - 4))
    } else {
        0
    }
}

/// Reads a header, given the check value of all but its last four bytes.
pub fn decode_header_with(input: &[u8], check: u32) -> (header: Result<Header, ChangeStreamError>)
    ensures
        header == header_of(input@, check),
{
    if input.len() < 6 {
        return Err(ChangeStreamError::Truncated { offset: input.len() as u64 });
    }
    let magic_matches: bool = input[0] == 78 && input[1] == 66 && input[2] == 67 && input[3] == 76;
    proof {
        if magic_matches {
            assert(input@.subrange(0, 4) =~= magic());
        } else {
            assert(input@.subrange(0, 4)[0] == input@[0]);
            assert(input@.subrange(0, 4)[1] == input@[1]);
            assert(input@.subrange(0, 4)[2] == input@[2]);
            assert(input@.subrange(0, 4)[3] == input@[3]);
        }
    }
    if !magic_matches {
        return Err(ChangeStreamError::InvalidMagic);
    }
    let version: u16 = bytes::u16_from(input, 4);
    if version != 1 && version != CHANGE_LOG_FORMAT_VERSION {
        return Err(ChangeStreamError::UnsupportedVersion(version));
    }
    let expected: usize = if version == 1 { V1_HEADER_SIZE } else { V2_HEADER_SIZE };
    if input.len() != expected {
        return Err(ChangeStreamError::Truncated { offset: input.len() as u64 });
    }
    if input[6] > 1 || !bytes::all_zero(input, expected - 8, 4) {
        return Err(ChangeStreamError::InvalidHeader("invalid flags or reserved bytes"));
    }
    if check != bytes::u32_from(input, expected - 4) {
        return Err(ChangeStreamError::ChecksumMismatch { offset: 0 });
    }
    let storage_id = StorageId(bytes::u64_from(input, 8));
    let table_id = TableId(bytes::u64_from(input, 16));
    let generation = ChangeStreamGeneration(bytes::u64_from(input, 56));
    if storage_id.0 == 0 || table_id.0 == 0 || generation.0 == 0 {
        return Err(ChangeStreamError::InvalidHeader("zero identity"));
    }
    let origin = StorageDataVersion(bytes::u64_from(input, 64));
    let (earliest, current, next_sequence): (StorageDataVersion, StorageDataVersion, u64) =
        if version == 1 {
        (origin, origin, 1)
    } else {
        (
            StorageDataVersion(bytes::u64_from(input, 72)),
            StorageDataVersion(bytes::u64_from(input, 80)),
            bytes::u64_from(input, 88),
        )
    };
    if origin.0 > earliest.0 || earliest.0 > current.0 {
        return Err(
            ChangeStreamError::InvalidHeader(
                "origin, earliest, and current frontiers are out of order",
            ),
        );
    }
    if next_sequence == 0 {
        return Err(ChangeStreamError::InvalidHeader("zero next sequence"));
    }
    let kind = ChangeStorageKind::decode(input[7])?;
    let fingerprint = SchemaFingerprint::read(input, 24);
    proof {
        ids::lemma_fingerprint_of(fingerprint);
    }
    Ok(
        Header {
            version,
            active: input[6] == 1,
            kind,
            storage_id,
            table_id,
            fingerprint,
            generation,
            origin,
            earliest,
            current,
            next_sequence,
        },
    )
}

/// Reads a header.
pub fn decode_header(input: &[u8]) -> (header: Result<Header, ChangeStreamError>)
    ensures
        header == header_of(input@, header_check(input@)),
{
    let check: u32 = if input.len() >= 4 {
        checksum::crc32c(&input[0..input.len() - 4])
    } else {
        0
    };
    decode_header_with(input, check)
}

/// A header that the format can hold: its identities are set, its frontiers
/// are in order, and the first format has no frontiers of its own.
pub open spec fn header_valid(header: Header) -> bool {
    &&& header.version == 1 || header.version == CHANGE_LOG_FORMAT_VERSION
    &&& header.storage_id.0 != 0
    &&& header.table_id.0 != 0
    &&& header.generation.0 != 0
    &&& header.origin.0 <= header.earliest.0 <= header.current.0
    &&& header.next_sequence != 0
    &&& header.version == 1 ==> header.earliest == header.origin && header.current == header.origin
        && header.next_sequence == 1
}

/// Reading back a written header gives that header.
pub proof fn law_header_round_trip(header: Header)
    requires
        header_valid(header),
    ensures
        header_of(header_bytes(header), header_check(header_bytes(header))) == Ok::<
            Header,
            ChangeStreamError,
        >(header),
{
    let s = header_bytes(header);
    let body = header_body(header);
    let end = header_size(header.version) - 4;
    lemma_header_pieces(header, s);
    assert(s.subrange(0, s.len() - 4) =~= body);
    assert(s.subrange(end, end + 4) =~= bytes::u32_le(checksum::crc32c_of(body)));
    bytes::lemma_u32_at(s, end, checksum::crc32c_of(body));
    ids::lemma_fingerprint_of(header.fingerprint);
}

/// Where the parts of a header stand.
pub proof fn lemma_header_pieces(header: Header, s: Seq<u8>)
    requires
        header_valid(header),
        s == header_bytes(header),
    ensures
        s.len() == header_size(header.version),
        header_body(header).len() == header_size(header.version) - 4,
        s.subrange(0, 4) == magic(),
        bytes::u16_at(s, 4) == header.version,
        s[6] == flag(header.active),
        s[7] == kind_tag(header.kind),
        bytes::u64_at(s, 8) == header.storage_id.0,
        bytes::u64_at(s, 16) == header.table_id.0,
        s.subrange(24, 56) == header.fingerprint.bytes@,
        bytes::u64_at(s, 56) == header.generation.0,
        bytes::u64_at(s, 64) == header.origin.0,
        header.version != 1 ==> bytes::u64_at(s, 72) == header.earliest.0,
        header.version != 1 ==> bytes::u64_at(s, 80) == header.current.0,
        header.version != 1 ==> bytes::u64_at(s, 88) == header.next_sequence,
        s.subrange(header_size(header.version) - 8, header_size(header.version) - 4)
            == bytes::zeros(4),
{
    let tags = seq![flag(header.active), kind_tag(header.kind)];
    let p1 = magic();
    let p2 = p1 + bytes::u16_le(header.version);
    let p3 = p2 + tags;
    let p4 = p3 + bytes::u64_le(header.storage_id.0);
    let p5 = p4 + bytes::u64_le(header.table_id.0);
    let p6 = p5 + header.fingerprint.bytes@;
    let p7 = p6 + bytes::u64_le(header.generation.0);
    let p8 = p7 + bytes::u64_le(header.origin.0);
    let p9 = p8 + bytes::u64_le(header.earliest.0);
    let p10 = p9 + bytes::u64_le(header.current.0);
    let p11 = p10 + bytes::u64_le(header.next_sequence);
    let check = bytes::u32_le(checksum::crc32c_of(header_body(header)));
    assert(p8 == header_common(header));
    assert(s.subrange(0, s.len() as int) =~= s);
    bytes::lemma_split(s, header_body(header), check);
    if header.version == 1 {
        bytes::lemma_split(s, p8, bytes::zeros(4));
    } else {
        bytes::lemma_split(s, p11, bytes::zeros(4));
        bytes::lemma_split(s, p10, bytes::u64_le(header.next_sequence));
        bytes::lemma_u64_at(s, 88, header.next_sequence);
        bytes::lemma_split(s, p9, bytes::u64_le(header.current.0));
        bytes::lemma_u64_at(s, 80, header.current.0);
        bytes::lemma_split(s, p8, bytes::u64_le(header.earliest.0));
        bytes::lemma_u64_at(s, 72, header.earliest.0);
    }
    bytes::lemma_split(s, p7, bytes::u64_le(header.origin.0));
    bytes::lemma_u64_at(s, 64, header.origin.0);
    bytes::lemma_split(s, p6, bytes::u64_le(header.generation.0));
    bytes::lemma_u64_at(s, 56, header.generation.0);
    bytes::lemma_split(s, p5, header.fingerprint.bytes@);
    bytes::lemma_split(s, p4, bytes::u64_le(header.table_id.0));
    bytes::lemma_u64_at(s, 16, header.table_id.0);
    bytes::lemma_split(s, p3, bytes::u64_le(header.storage_id.0));
    bytes::lemma_u64_at(s, 8, header.storage_id.0);
    bytes::lemma_split(s, p2, tags);
    assert(s.subrange(6, 8)[0] == s[6] && s.subrange(6, 8)[1] == s[7]);
    bytes::lemma_split(s, p1, bytes::u16_le(header.version));
    bytes::lemma_u16_at(s, 4, header.version);
}

} // verus!
