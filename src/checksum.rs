//! The integrity check appended to a payload before framing: a CRC-32 in
//! the `CKSUM` parameter set (polynomial `0x04C11DB7`, initial value zero,
//! no reflection, final XOR `0xFFFFFFFF`).

use vstd::prelude::*;

verus! {

/// The checksum of `data`.
pub uninterp spec fn cksum(data: Seq<u8>) -> u32;

/// Relies on `crc::Crc::<u32>::checksum` with `crc::CRC_32_CKSUM`: the
/// result depends on the bytes alone.
#[verifier::external_body]
pub(crate) fn crc32_cksum(data: &[u8]) -> (r: u32)
    ensures
        r == cksum(data@),
{
    crc::Crc::<u32>::new(&crc::CRC_32_CKSUM).checksum(data)
}

} // verus!
