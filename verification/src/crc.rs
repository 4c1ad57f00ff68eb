//! Checksums of physical record fragments.

use vstd::prelude::*;
use crate::le;

verus! {

/// Added to a rotated checksum, so that a stored checksum is not itself the
/// checksum of data that embeds checksums.
pub const MASK_DELTA: u32 = 0xa282_ead8;

/// What `crc32c::crc32c_append` returns for a previous checksum and the bytes
/// that follow it.
pub uninterp spec fn crc32c_append_result(crc: u32, data: Seq<u8>) -> u32;

/// Calls `crc32c::crc32c_append`, which continues the checksum `crc` over
/// `data`. Its result is a function of the two arguments.
#[verifier::external_body]
fn crc32c_append(crc: u32, data: &[u8]) -> (result: u32)
    ensures
        result == crc32c_append_result(crc, data@),
{
    crc32c::crc32c_append(crc, data)
}

/// Calls `crc32c::crc32c`, which is `crc32c::crc32c_append` started from zero.
#[verifier::external_body]
fn crc32c_whole(data: &[u8]) -> (result: u32)
    ensures
        result == crc32c_append_result(0, data@),
{
    crc32c::crc32c(data)
}

/// The checksum of a whole byte string.
pub open spec fn checksum_of(data: Seq<u8>) -> u32 {
    crc32c_append_result(0, data)
}

/// `value` with its bits rotated right by fifteen places.
pub open spec fn rotated(value: u32) -> u32 {
    (value >> 15) | (value << 17)
}

/// A checksum as it is stored: rotated, then moved by a constant.
pub open spec fn masked(checksum: u32) -> u32 {
    ((rotated(checksum) + MASK_DELTA) % 0x1_0000_0000) as u32
}

/// The stored checksum of a fragment: it covers the record type, the segment
/// number and the payload, in that order.
pub open spec fn physical_checksum_of(record_type: u8, segment_number: u32, payload: Seq<u8>) -> u32 {
    masked(
        crc32c_append_result(
            crc32c_append_result(crc32c_append_result(0, seq![record_type]), le::u32_bytes(segment_number)),
            payload,
        ),
    )
}

/// The checksum of a whole byte string.
pub fn checksum(data: &[u8]) -> (result: u32)
    ensures
        result == checksum_of(data@),
{
    crc32c_whole(data)
}

/// The form in which a checksum is stored.
pub fn mask(checksum: u32) -> (result: u32)
    ensures
        result == masked(checksum),
{
    let turned: u32 = (checksum >> 15) | (checksum << 17);
    turned.wrapping_add(MASK_DELTA)
}

/// The stored checksum of one physical fragment.
pub fn physical_checksum(record_type: u8, segment_number: u32, payload: &[u8]) -> (result: u32)
    ensures
        result == physical_checksum_of(record_type, segment_number, payload@),
{
    let kind: [u8; 1] = [record_type];
    assert(kind@ =~= seq![record_type]);
    let mut number: Vec<u8> = Vec::new();
    le::put_u32(&mut number, segment_number);
    assert(number@ =~= le::u32_bytes(segment_number));
    let crc: u32 = crc32c_whole(&kind);
    let crc: u32 = crc32c_append(crc, &number);
    let crc: u32 = crc32c_append(crc, payload);
    mask(crc)
}

/// A stored checksum is the checksum with its low fifteen bits moved to the top,
/// plus a constant, in 32 bits. Different checksums are stored differently.
pub proof fn stored_checksums_differ(left: u32, right: u32)
    ensures
        rotated(left) == left / 0x8000 + (left % 0x8000) * 0x2_0000,
        masked(left) == (left / 0x8000 + (left % 0x8000) * 0x2_0000 + 0xa282_ead8) % 0x1_0000_0000,
        masked(left) == masked(right) ==> left == right,
{
    rotation_is_a_sum(left);
    rotation_is_a_sum(right);
    if masked(left) == masked(right) {
        assert(rotated(left) == rotated(right));
        sums_differ(left, right);
    }
}

proof fn sums_differ(left: u32, right: u32)
    requires
        left / 0x8000 + (left % 0x8000) * 0x2_0000 == right / 0x8000 + (right % 0x8000) * 0x2_0000,
    ensures
        left == right,
{
    assert(left == right) by (bit_vector)
        requires
            left / 0x8000 + (left % 0x8000) * 0x2_0000 == right / 0x8000 + (right % 0x8000) * 0x2_0000,
    ;
}

proof fn rotation_is_a_sum(value: u32)
    ensures
        rotated(value) == value / 0x8000 + (value % 0x8000) * 0x2_0000,
{
    assert((value >> 15) | (value << 17) == value / 0x8000 + (value % 0x8000) * 0x2_0000) by (bit_vector);
}

} // verus!
