//! The integrity checksum of a record.

use vstd::prelude::*;

verus! {

/// The CRC-32 (IEEE) of a byte string, as `crc32fast::hash` computes it.
pub uninterp spec fn crc32(bytes: Seq<u8>) -> u32;

/// Calls `crc32fast::hash`. The contract names its result: the checksum is a
/// function of the bytes alone; nothing else about its value is assumed.
#[verifier::external_body]
pub(crate) fn crc32_of(data: &[u8]) -> (sum: u32)
    ensures
        sum == crc32(data@),
{
    crc32fast::hash(data)
}

} // verus!
