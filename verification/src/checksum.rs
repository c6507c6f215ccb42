//! CRC-32C checksums.

use vstd::prelude::*;

verus! {

/// The CRC-32C of bytes, starting from a previous checksum.
pub uninterp spec fn crc32c_of(crc: u32, data: Seq<u8>) -> u32;

/// `crc32c::crc32c_append` goes on from a previous checksum. The result has a name.
#[verifier::external_body]
pub(crate) fn checksum_append(crc: u32, data: &[u8]) -> (r: u32)
    ensures
        r == crc32c_of(crc, data@),
{
    crc32c::crc32c_append(crc, data)
}

/// `crc32c::crc32c` is the checksum that starts from zero.
#[verifier::external_body]
pub(crate) fn checksum(data: &[u8]) -> (r: u32)
    ensures
        r == crc32c_of(0, data@),
{
    crc32c::crc32c(data)
}

} // verus!
