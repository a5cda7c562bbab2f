//! The CRC-32 that guards every stored block and frame.
use vstd::prelude::*;

verus! {

/// The CRC-32 (IEEE) checksum of a byte sequence, as `crc32fast::hash` computes it.
pub uninterp spec fn crc32_of(bytes: Seq<u8>) -> u32;

/// `crc32fast::hash`: the checksum depends on the bytes alone.
#[verifier::external_body]
pub(crate) fn crc32(data: &[u8]) -> (sum: u32)
    ensures
        sum == crc32_of(data@),
{
    crc32fast::hash(data)
}

/// Whether `sum` goes on from `before`: with bytes that have the checksum `before`
/// in front of `data`, the checksum of all is `sum`.
pub open spec fn continues(before: u32, data: Seq<u8>, sum: u32) -> bool {
    forall|front: Seq<u8>|
        crc32_of(front) == before ==> #[trigger] crc32_of(front + data) == sum
}

/// `crc32fast::Hasher`, started with `new_with_initial` at a checksum reached
/// before: `update` with more data and `finalize` give the checksum of all bytes.
#[verifier::external_body]
pub(crate) fn crc32_continue(before: u32, data: &[u8]) -> (sum: u32)
    ensures
        continues(before, data@, sum),
{
    let mut hasher = crc32fast::Hasher::new_with_initial(before);
    hasher.update(data);
    hasher.finalize()
}

} // verus!
