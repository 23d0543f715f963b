//! CRC-32C, computed by the `crc32c` crate.
use vstd::prelude::*;

verus! {

/// The CRC-32C that `crc32c::crc32c_append` gives for `data` after a prefix
/// whose CRC-32C was `crc`.
pub uninterp spec fn crc32c_after(crc: u32, data: Seq<u8>) -> u32;

/// The CRC-32C of a byte string: its checksum after the empty prefix.
pub open spec fn crc32c_of(data: Seq<u8>) -> u32 {
    crc32c_after(0, data)
}

/// Whether no change of a single byte of `data` leaves the checksum `crc`.
pub open spec fn byte_change_shows(data: Seq<u8>, crc: u32) -> bool {
    forall|i: int, b: u8| 0 <= i < data.len() && b != data[i] ==> crc32c_of(#[trigger] data.update(i, b)) != crc
}

/// `crc32c::crc32c`, which its documentation gives as `crc32c_append` from a
/// checksum of zero. It takes the bytes in one by one, each into a sum that it
/// and the sum before determine and are determined by (the table of a
/// polynomial of degree 32 that is odd), so that a change of one byte changes
/// the checksum.
#[verifier::external_body]
pub(crate) fn crc32c(data: &[u8]) -> (crc: u32)
    ensures
        crc == crc32c_after(0, data@),
        byte_change_shows(data@, crc),
{
    crc32c::crc32c(data)
}

/// `crc32c::crc32c_append`: the checksum is a function of the previous one and
/// of the data, and it extends a checksum over the bytes before to one over
/// those bytes and `data` together.
#[verifier::external_body]
pub(crate) fn crc32c_append(previous: u32, data: &[u8]) -> (crc: u32)
    ensures
        crc == crc32c_after(previous, data@),
        forall|start: u32, before: Seq<u8>| previous == #[trigger] crc32c_after(start, before) ==> crc == crc32c_after(
            start,
            before + data@,
        ),
{
    crc32c::crc32c_append(previous, data)
}

} // verus!
