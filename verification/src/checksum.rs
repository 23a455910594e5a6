use vstd::prelude::*;

verus! {

/// The CRC-32C (Castagnoli) check value of a byte string.
pub uninterp spec fn crc32c_of(data: Seq<u8>) -> u32;

/// Calls `crc32c::crc32c`. Its result is a function of the bytes alone; the
/// polynomial arithmetic behind it is not restated here, nor that it gives
/// strings which differ in few bits different values.
#[verifier::external_body]
pub(crate) fn crc32c(data: &[u8]) -> (check: u32)
    ensures
        check == crc32c_of(data@),
{
    crc32c::crc32c(data)
}

} // verus!
