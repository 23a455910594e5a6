//! Reading columnar files: a position in a byte string that moves on with each
//! value, and what is read there.
use super::error::ColumnarError;
use crate::bytes;
use crate::checksum;
use crate::ids::{self, SchemaFingerprint};
use crate::value;
use vstd::prelude::*;
use vstd::utf8;

verus! {

broadcast use crate::bytes::group_le_len;

/// What a read gives: a value and the position behind it.
pub type Parsed<T> = Result<(T, int), ColumnarError>;

/// `n` bytes at `at`.
pub open spec fn taken(s: Seq<u8>, at: int, n: int) -> Parsed<Seq<u8>> {
    if at + n > usize::MAX {
        Err(ColumnarError::Corrupt("decode offset overflow"))
    } else if at + n > s.len() {
        Err(ColumnarError::InvalidFormat("file is truncated"))
    } else {
        Ok((s.subrange(at, at + n), at + n))
    }
}

/// One byte at `at`.
pub open spec fn u8_read(s: Seq<u8>, at: int) -> Parsed<u8> {
    match taken(s, at, 1) {
        Ok((_, next)) => Ok((s[at], next)),
        Err(error) => Err(error),
    }
}

/// A little-endian integer at `at`.
pub open spec fn u16_read(s: Seq<u8>, at: int) -> Parsed<u16> {
    match taken(s, at, 2) {
        Ok((_, next)) => Ok((bytes::u16_at(s, at), next)),
        Err(error) => Err(error),
    }
}

/// A little-endian integer at `at`.
pub open spec fn u32_read(s: Seq<u8>, at: int) -> Parsed<u32> {
    match taken(s, at, 4) {
        Ok((_, next)) => Ok((bytes::u32_at(s, at), next)),
        Err(error) => Err(error),
    }
}

/// A little-endian integer at `at`.
pub open spec fn u64_read(s: Seq<u8>, at: int) -> Parsed<u64> {
    match taken(s, at, 8) {
        Ok((_, next)) => Ok((bytes::u64_at(s, at), next)),
        Err(error) => Err(error),
    }
}

/// A schema digest at `at`.
pub open spec fn fingerprint_read(s: Seq<u8>, at: int) -> Parsed<SchemaFingerprint> {
    match taken(s, at, 32) {
        Ok((digest, next)) => Ok((ids::fingerprint_of(digest), next)),
        Err(error) => Err(error),
    }
}

/// The UTF-8 bytes of a text at `at`, behind their number.
pub open spec fn string_read(s: Seq<u8>, at: int) -> Parsed<Seq<u8>> {
    match u32_read(s, at) {
        Ok((length, from)) => match taken(s, from, length as int) {
            Ok((text, next)) => if utf8::valid_utf8(text) {
                Ok((text, next))
            } else {
                Err(ColumnarError::Corrupt("string is not UTF-8"))
            },
            Err(error) => Err(error),
        },
        Err(error) => Err(error),
    }
}

/// A file's magic bytes at `at`.
pub open spec fn magic_read(s: Seq<u8>, at: int, magic: Seq<u8>) -> Parsed<()> {
    match taken(s, at, magic.len() as int) {
        Ok((found, next)) => if found == magic {
            Ok(((), next))
        } else {
            Err(ColumnarError::InvalidFormat("invalid magic"))
        },
        Err(error) => Err(error),
    }
}

/// `n` reserved zero bytes at `at`.
pub open spec fn reserved_read(s: Seq<u8>, at: int, n: int, message: &'static str) -> Parsed<()> {
    match taken(s, at, n) {
        Ok((found, next)) => if found == bytes::zeros(n as nat) {
            Ok(((), next))
        } else {
            Err(ColumnarError::Corrupt(message))
        },
        Err(error) => Err(error),
    }
}

/// Whether the `n` bytes at `at` are zero.
pub open spec fn zero_read(s: Seq<u8>, at: int, n: int) -> Parsed<bool> {
    match taken(s, at, n) {
        Ok((found, next)) => Ok((found == bytes::zeros(n as nat), next)),
        Err(error) => Err(error),
    }
}

/// The end of a byte string at `at`.
pub open spec fn end_error(s: Seq<u8>, at: int) -> Option<ColumnarError> {
    if at != s.len() {
        Some(ColumnarError::Corrupt("trailing bytes"))
    } else {
        None
    }
}

/// Whether a read gave what it should and stands where it should.
pub open spec fn reads<T>(read: Result<T, ColumnarError>, offset: int, expected: Parsed<T>) -> bool {
    match expected {
        Ok((value, next)) => read == Ok::<T, ColumnarError>(value) && offset == next,
        Err(error) => read == Err::<T, ColumnarError>(error),
    }
}

/// A position in a byte string.
pub struct Reader<'a> {
    pub bytes: &'a [u8],
    pub offset: usize,
}

impl<'a> Reader<'a> {
    /// Whether the position is inside the byte string.
    pub open spec fn wf(&self) -> bool {
        self.offset <= self.bytes@.len()
    }

    /// The start of a byte string.
    pub fn new(bytes: &'a [u8]) -> (reader: Self)
        ensures
            reader.wf(),
            reader.bytes == bytes,
            reader.offset == 0,
    {
        Reader { bytes, offset: 0 }
    }

    /// The next `length` bytes.
    pub fn take(&mut self, length: usize) -> (read: Result<&'a [u8], ColumnarError>)
        requires
            old(self).wf(),
        ensures
            final(self).wf(),
            final(self).bytes == old(self).bytes,
            match taken(old(self).bytes@, old(self).offset as int, length as int) {
                Ok((found, next)) => read is Ok && read->Ok_0@ == found && final(self).offset
                    == next,
                Err(error) => read == Err::<&'a [u8], ColumnarError>(error),
            },
    {
        if length > usize::MAX - self.offset {
            return Err(ColumnarError::Corrupt("decode offset overflow"));
        }
        let end: usize = self.offset + length;
        if end > self.bytes.len() {
            return Err(ColumnarError::InvalidFormat("file is truncated"));
        }
        let whole: &'a [u8] = self.bytes;
        let found: &'a [u8] = &whole[self.offset..end];
        self.offset = end;
        Ok(found)
    }

    /// Reads a file's magic bytes.
    pub fn expect(&mut self, expected: &[u8]) -> (read: Result<(), ColumnarError>)
        requires
            old(self).wf(),
        ensures
            final(self).wf(),
            final(self).bytes == old(self).bytes,
            reads(
                read,
                final(self).offset as int,
                magic_read(old(self).bytes@, old(self).offset as int, expected@),
            ),
    {
        let found: &[u8] = self.take(expected.len())?;
        if !bytes::same_bytes(found, expected) {
            return Err(ColumnarError::InvalidFormat("invalid magic"));
        }
        Ok(())
    }

    /// Reads `n` reserved zero bytes.
    pub fn reserved(&mut self, n: usize, message: &'static str) -> (read: Result<(), ColumnarError>)
        requires
            old(self).wf(),
        ensures
            final(self).wf(),
            final(self).bytes == old(self).bytes,
            reads(
                read,
                final(self).offset as int,
                reserved_read(old(self).bytes@, old(self).offset as int, n as int, message),
            ),
    {
        let found: &[u8] = self.take(n)?;
        assert(found@.subrange(0, n as int) =~= found@);
        if !bytes::all_zero(found, 0, n) {
            return Err(ColumnarError::Corrupt(message));
        }
        Ok(())
    }

    /// Whether the next `n` bytes are zero.
    pub fn zeros(&mut self, n: usize) -> (read: Result<bool, ColumnarError>)
        requires
            old(self).wf(),
        ensures
            final(self).wf(),
            final(self).bytes == old(self).bytes,
            reads(
                read,
                final(self).offset as int,
                zero_read(old(self).bytes@, old(self).offset as int, n as int),
            ),
    {
        let found: &[u8] = self.take(n)?;
        assert(found@.subrange(0, n as int) =~= found@);
        Ok(bytes::all_zero(found, 0, n))
    }

    /// Reads one byte.
    pub fn u8(&mut self) -> (read: Result<u8, ColumnarError>)
        requires
            old(self).wf(),
        ensures
            final(self).wf(),
            final(self).bytes == old(self).bytes,
            reads(
                read,
                final(self).offset as int,
                u8_read(old(self).bytes@, old(self).offset as int),
            ),
    {
        let found: &[u8] = self.take(1)?;
        Ok(found[0])
    }

    /// Reads a little-endian integer.
    pub fn u16(&mut self) -> (read: Result<u16, ColumnarError>)
        requires
            old(self).wf(),
        ensures
            final(self).wf(),
            final(self).bytes == old(self).bytes,
            reads(
                read,
                final(self).offset as int,
                u16_read(old(self).bytes@, old(self).offset as int),
            ),
    {
        let at: usize = self.offset;
        self.take(2)?;
        Ok(bytes::u16_from(self.bytes, at))
    }

    /// Reads a little-endian integer.
    pub fn u32(&mut self) -> (read: Result<u32, ColumnarError>)
        requires
            old(self).wf(),
        ensures
            final(self).wf(),
            final(self).bytes == old(self).bytes,
            reads(
                read,
                final(self).offset as int,
                u32_read(old(self).bytes@, old(self).offset as int),
            ),
    {
        let at: usize = self.offset;
        self.take(4)?;
        Ok(bytes::u32_from(self.bytes, at))
    }

    /// Reads a little-endian integer.
    pub fn u64(&mut self) -> (read: Result<u64, ColumnarError>)
        requires
            old(self).wf(),
        ensures
            final(self).wf(),
            final(self).bytes == old(self).bytes,
            reads(
                read,
                final(self).offset as int,
                u64_read(old(self).bytes@, old(self).offset as int),
            ),
    {
        let at: usize = self.offset;
        self.take(8)?;
        Ok(bytes::u64_from(self.bytes, at))
    }

    /// Reads a schema digest.
    pub fn fingerprint(&mut self) -> (read: Result<SchemaFingerprint, ColumnarError>)
        requires
            old(self).wf(),
        ensures
            final(self).wf(),
            final(self).bytes == old(self).bytes,
            reads(
                read,
                final(self).offset as int,
                fingerprint_read(old(self).bytes@, old(self).offset as int),
            ),
    {
        let at: usize = self.offset;
        self.take(32)?;
        let fingerprint = SchemaFingerprint::read(self.bytes, at);
        proof {
            ids::lemma_fingerprint_of(fingerprint);
        }
        Ok(fingerprint)
    }

    /// Reads a text behind its length.
    pub fn string(&mut self) -> (read: Result<String, ColumnarError>)
        requires
            old(self).wf(),
        ensures
            final(self).wf(),
            final(self).bytes == old(self).bytes,
            match string_read(old(self).bytes@, old(self).offset as int) {
                Ok((text, next)) => {
                    &&& read is Ok
                    &&& utf8::encode_utf8(read->Ok_0@) == text
                    &&& final(self).offset == next
                },
                Err(error) => read == Err::<String, ColumnarError>(error),
            },
    {
        let length: u32 = self.u32()?;
        let found: &[u8] = self.take(length as usize)?;
        match value::text_from_utf8(found) {
            Some(text) => Ok(text),
            None => Err(ColumnarError::Corrupt("string is not UTF-8")),
        }
    }

    /// Requires that nothing is left.
    pub fn finish(self) -> (end: Result<(), ColumnarError>)
        ensures
            match end_error(self.bytes@, self.offset as int) {
                Some(error) => end == Err::<(), ColumnarError>(error),
                None => end is Ok,
            },
    {
        if self.offset != self.bytes.len() {
            return Err(ColumnarError::Corrupt("trailing bytes"));
        }
        Ok(())
    }
}

// ---------------------------------------------------------------------------
// Writing and reading back
// ---------------------------------------------------------------------------
/// Whether `s` holds `part` at `at`.
pub open spec fn holds(s: Seq<u8>, at: int, part: Seq<u8>) -> bool {
    &&& 0 <= at
    &&& at + part.len() <= s.len()
    &&& s.subrange(at, at + part.len()) == part
}

/// What holds two parts in a row holds each of them.
pub proof fn lemma_holds(s: Seq<u8>, at: int, front: Seq<u8>, back: Seq<u8>)
    requires
        holds(s, at, front + back),
    ensures
        holds(s, at, front),
        holds(s, at + front.len(), back),
{
    bytes::lemma_split_at(s, at, front, back);
}

/// What is written is held, whatever stands before and behind it.
pub proof fn lemma_holds_inside(before: Seq<u8>, part: Seq<u8>, behind: Seq<u8>)
    ensures
        holds(before + part + behind, before.len() as int, part),
{
    let at = before.len() as int;
    assert((before + part + behind).subrange(at, at + part.len()) =~= part);
}

/// A written byte is read.
pub proof fn lemma_u8_read(s: Seq<u8>, at: int, x: u8)
    requires
        holds(s, at, seq![x]),
        s.len() <= usize::MAX,
    ensures
        u8_read(s, at) == Ok::<(u8, int), ColumnarError>((x, at + 1)),
{
    assert(s.subrange(at, at + 1)[0] == x);
}

/// A written integer is read.
pub proof fn lemma_u16_read(s: Seq<u8>, at: int, x: u16)
    requires
        holds(s, at, bytes::u16_le(x)),
        s.len() <= usize::MAX,
    ensures
        u16_read(s, at) == Ok::<(u16, int), ColumnarError>((x, at + 2)),
{
    bytes::lemma_u16_at(s, at, x);
}

/// A written integer is read.
pub proof fn lemma_u32_read(s: Seq<u8>, at: int, x: u32)
    requires
        holds(s, at, bytes::u32_le(x)),
        s.len() <= usize::MAX,
    ensures
        u32_read(s, at) == Ok::<(u32, int), ColumnarError>((x, at + 4)),
{
    bytes::lemma_u32_at(s, at, x);
}

/// A written integer is read.
pub proof fn lemma_u64_read(s: Seq<u8>, at: int, x: u64)
    requires
        holds(s, at, bytes::u64_le(x)),
        s.len() <= usize::MAX,
    ensures
        u64_read(s, at) == Ok::<(u64, int), ColumnarError>((x, at + 8)),
{
    bytes::lemma_u64_at(s, at, x);
}

/// A written digest is read.
pub proof fn lemma_fingerprint_read(s: Seq<u8>, at: int, fingerprint: SchemaFingerprint)
    requires
        holds(s, at, fingerprint.bytes@),
        s.len() <= usize::MAX,
    ensures
        fingerprint_read(s, at) == Ok::<(SchemaFingerprint, int), ColumnarError>(
            (fingerprint, at + 32),
        ),
{
    ids::lemma_fingerprint_of(fingerprint);
}

/// How a text is written: behind the number of its bytes.
pub open spec fn string_le(text: Seq<u8>) -> Seq<u8> {
    bytes::u32_le(text.len() as u32) + text
}

/// A written text is read.
pub proof fn lemma_string_read(s: Seq<u8>, at: int, text: Seq<u8>)
    requires
        holds(s, at, string_le(text)),
        s.len() <= usize::MAX,
        text.len() <= u32::MAX,
        utf8::valid_utf8(text),
    ensures
        string_read(s, at) == Ok::<(Seq<u8>, int), ColumnarError>((text, at + 4 + text.len())),
{
    lemma_holds(s, at, bytes::u32_le(text.len() as u32), text);
    lemma_u32_read(s, at, text.len() as u32);
}

/// Writes a text behind the number of its bytes.
pub fn push_string(output: &mut Vec<u8>, value: &str) -> (written: Result<(), ColumnarError>)
    ensures
        match written {
            Ok(_) => utf8::encode_utf8(value@).len() <= u32::MAX && final(output)@ == old(output)@
                + string_le(utf8::encode_utf8(value@)),
            Err(error) => utf8::encode_utf8(value@).len() > u32::MAX && error
                == ColumnarError::InvalidInput("string too long"),
        },
{
    let text: &[u8] = value.as_bytes();
    if text.len() > u32::MAX as usize {
        return Err(ColumnarError::InvalidInput("string too long"));
    }
    bytes::push_u32(output, text.len() as u32);
    bytes::push_bytes(output, text);
    assert(output@ =~= old(output)@ + string_le(utf8::encode_utf8(value@)));
    Ok(())
}

// ---------------------------------------------------------------------------
// Checksums
// ---------------------------------------------------------------------------
/// A byte string with its check value behind it.
pub open spec fn checked(payload: Seq<u8>) -> Seq<u8> {
    payload + bytes::u32_le(checksum::crc32c_of(payload))
}

/// The bytes before a file's check value.
pub open spec fn payload_of(s: Seq<u8>) -> Seq<u8> {
    s.subrange(0, s.len() - 4)
}

/// Why a file's check value is refused, if it is.
pub open spec fn checksum_error(s: Seq<u8>) -> Option<ColumnarError> {
    if s.len() < 4 {
        Some(ColumnarError::InvalidFormat("file is missing checksum"))
    } else if checksum::crc32c_of(payload_of(s)) != bytes::u32_at(s, s.len() - 4) {
        Some(ColumnarError::Corrupt("file checksum mismatch"))
    } else {
        None
    }
}

/// Appends the check value of what was written.
pub fn append_checksum(output: &mut Vec<u8>)
    ensures
        final(output)@ == checked(old(output)@),
{
    let check: u32 = checksum::crc32c(output.as_slice());
    bytes::push_u32(output, check);
}

/// The check value at the end of a file.
pub fn stored_checksum(bytes: &[u8]) -> (stored: Result<u32, ColumnarError>)
    ensures
        stored == if bytes@.len() < 4 {
            Err::<u32, ColumnarError>(ColumnarError::InvalidFormat("file is missing checksum"))
        } else {
            Ok::<u32, ColumnarError>(bytes::u32_at(bytes@, bytes@.len() - 4))
        },
{
    if bytes.len() < 4 {
        return Err(ColumnarError::InvalidFormat("file is missing checksum"));
    }
    Ok(bytes::u32_from(bytes, bytes.len() - 4))
}

/// Checks a file against the check value at its end, and gives the bytes
/// before it.
pub fn validate_checksum(bytes: &[u8]) -> (valid: Result<&[u8], ColumnarError>)
    ensures
        match checksum_error(bytes@) {
            Some(error) => valid == Err::<&[u8], ColumnarError>(error),
            None => valid is Ok && valid->Ok_0@ == payload_of(bytes@),
        },
{
    let stored: u32 = stored_checksum(bytes)?;
    let payload: &[u8] = &bytes[0..bytes.len() - 4];
    if checksum::crc32c(payload) != stored {
        return Err(ColumnarError::Corrupt("file checksum mismatch"));
    }
    Ok(payload)
}

/// A file with its own check value is accepted.
pub proof fn lemma_checked(payload: Seq<u8>)
    ensures
        checksum_error(checked(payload)) is None,
        payload_of(checked(payload)) == payload,
{
    let s = checked(payload);
    let check = checksum::crc32c_of(payload);
    assert(payload_of(s) =~= payload);
    assert(s.subrange(s.len() - 4, s.len() - 4 + 4) =~= bytes::u32_le(check));
    bytes::lemma_u32_at(s, s.len() - 4, check);
}

} // verus!
