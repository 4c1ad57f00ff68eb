//! Little-endian integers.

use vstd::prelude::*;

verus! {

/// The two bytes of `value`, least significant first.
pub open spec fn u16_bytes(value: u16) -> Seq<u8> {
    seq![(value % 256) as u8, (value / 256) as u8]
}

/// The integer whose two little-endian bytes are `bytes`.
pub open spec fn u16_value(bytes: Seq<u8>) -> u16 {
    (bytes[0] + 256 * bytes[1]) as u16
}

/// The four bytes of `value`, least significant first.
#[verifier::opaque]
pub open spec fn u32_bytes(value: u32) -> Seq<u8> {
    u16_bytes((value % 0x1_0000) as u16) + u16_bytes((value / 0x1_0000) as u16)
}

/// The integer whose four little-endian bytes are `bytes`.
#[verifier::opaque]
pub open spec fn u32_value(bytes: Seq<u8>) -> u32 {
    (u16_value(bytes.subrange(0, 2)) + 0x1_0000 * u16_value(bytes.subrange(2, 4))) as u32
}

/// The eight bytes of `value`, least significant first.
#[verifier::opaque]
pub open spec fn u64_bytes(value: u64) -> Seq<u8> {
    u32_bytes((value % 0x1_0000_0000) as u32) + u32_bytes((value / 0x1_0000_0000) as u32)
}

/// The integer whose eight little-endian bytes are `bytes`.
#[verifier::opaque]
pub open spec fn u64_value(bytes: Seq<u8>) -> u64 {
    (u32_value(bytes.subrange(0, 4)) + 0x1_0000_0000 * u32_value(bytes.subrange(4, 8))) as u64
}

/// Decoding the encoding of an integer gives the integer back, at each width.
pub proof fn u16_round_trip(value: u16)
    ensures
        u16_bytes(value).len() == 2,
        u16_value(u16_bytes(value)) == value,
{
}

/// Decoding the encoding of an integer gives the integer back, at each width.
pub proof fn u32_round_trip(value: u32)
    ensures
        u32_bytes(value).len() == 4,
        u32_value(u32_bytes(value)) == value,
{
    reveal(u32_bytes);
    reveal(u32_value);
    let low = (value % 0x1_0000) as u16;
    let high = (value / 0x1_0000) as u16;
    u16_round_trip(low);
    u16_round_trip(high);
    assert(u32_bytes(value).subrange(0, 2) =~= u16_bytes(low));
    assert(u32_bytes(value).subrange(2, 4) =~= u16_bytes(high));
}

/// Decoding the encoding of an integer gives the integer back, at each width.
pub proof fn u64_round_trip(value: u64)
    ensures
        u64_bytes(value).len() == 8,
        u64_value(u64_bytes(value)) == value,
{
    reveal(u64_bytes);
    reveal(u64_value);
    let low = (value % 0x1_0000_0000) as u32;
    let high = (value / 0x1_0000_0000) as u32;
    u32_round_trip(low);
    u32_round_trip(high);
    assert(u64_bytes(value).subrange(0, 4) =~= u32_bytes(low));
    assert(u64_bytes(value).subrange(4, 8) =~= u32_bytes(high));
}

/// Encodings have the widths of their integers.
pub broadcast proof fn u32_width(value: u32)
    ensures
        (#[trigger] u32_bytes(value)).len() == 4,
{
    u32_round_trip(value);
}

/// Encodings have the widths of their integers.
pub broadcast proof fn u64_width(value: u64)
    ensures
        (#[trigger] u64_bytes(value)).len() == 8,
{
    u64_round_trip(value);
}

/// Appends the little-endian bytes of `value` to `output`.
pub fn put_u16(output: &mut Vec<u8>, value: u16)
    ensures
        final(output)@ == old(output)@ + u16_bytes(value),
{
    output.push((value % 256) as u8);
    output.push((value / 256) as u8);
    assert(output@ =~= old(output)@ + u16_bytes(value));
}

/// Appends the little-endian bytes of `value` to `output`.
pub fn put_u32(output: &mut Vec<u8>, value: u32)
    ensures
        final(output)@ == old(output)@ + u32_bytes(value),
{
    put_u16(output, (value % 0x1_0000) as u16);
    put_u16(output, (value / 0x1_0000) as u16);
    proof {
        reveal(u32_bytes);
    }
    assert(output@ =~= old(output)@ + u32_bytes(value));
}

/// Appends the little-endian bytes of `value` to `output`.
pub fn put_u64(output: &mut Vec<u8>, value: u64)
    ensures
        final(output)@ == old(output)@ + u64_bytes(value),
{
    put_u32(output, (value % 0x1_0000_0000) as u32);
    put_u32(output, (value / 0x1_0000_0000) as u32);
    proof {
        reveal(u64_bytes);
    }
    assert(output@ =~= old(output)@ + u64_bytes(value));
}

/// Reads the little-endian integer that starts at `at`.
pub fn get_u16(bytes: &[u8], at: usize) -> (value: u16)
    requires
        at + 2 <= bytes@.len(),
    ensures
        value == u16_value(bytes@.subrange(at as int, at + 2)),
{
    (bytes[at] as u16) + 256 * (bytes[at + 1] as u16)
}

/// Reads the little-endian integer that starts at `at`.
pub fn get_u32(bytes: &[u8], at: usize) -> (value: u32)
    requires
        at + 4 <= bytes@.len(),
    ensures
        value == u32_value(bytes@.subrange(at as int, at + 4)),
{
    let low: u16 = get_u16(bytes, at);
    assert(bytes.len() <= usize::MAX);
    let high: u16 = get_u16(bytes, at + 2);
    proof {
        reveal(u32_value);
        let field = bytes@.subrange(at as int, at + 4);
        assert(field.subrange(0, 2) =~= bytes@.subrange(at as int, at + 2));
        assert(field.subrange(2, 4) =~= bytes@.subrange(at + 2, at + 4));
    }
    (low as u32) + 0x1_0000 * (high as u32)
}

/// Reads the little-endian integer that starts at `at`.
pub fn get_u64(bytes: &[u8], at: usize) -> (value: u64)
    requires
        at + 8 <= bytes@.len(),
    ensures
        value == u64_value(bytes@.subrange(at as int, at + 8)),
{
    let low: u32 = get_u32(bytes, at);
    assert(bytes.len() <= usize::MAX);
    let high: u32 = get_u32(bytes, at + 4);
    proof {
        reveal(u64_value);
        let field = bytes@.subrange(at as int, at + 8);
        assert(field.subrange(0, 4) =~= bytes@.subrange(at as int, at + 4));
        assert(field.subrange(4, 8) =~= bytes@.subrange(at + 4, at + 8));
    }
    (low as u64) + 0x1_0000_0000 * (high as u64)
}

/// Different bytes decode to different integers.
pub proof fn u32_values_differ(left: Seq<u8>, right: Seq<u8>)
    requires
        left.len() == 4,
        right.len() == 4,
        left != right,
    ensures
        u32_value(left) != u32_value(right),
{
    reveal(u32_value);
    if left[0] == right[0] && left[1] == right[1] && left[2] == right[2] && left[3] == right[3] {
        assert(left =~= right);
    }
}

/// The byte at a place of an integer stands for itself times the power of 256
/// with that place as its exponent.
pub proof fn u16_bytes_are_weighed(value: u16)
    ensures
        value == u16_bytes(value)[0] + 0x100 * u16_bytes(value)[1],
{
}

/// The byte at a place of an integer stands for itself times the power of 256
/// with that place as its exponent.
pub proof fn u32_bytes_are_weighed(value: u32)
    ensures
        ({
            let bytes = u32_bytes(value);
            value == bytes[0] + 0x100 * bytes[1] + 0x1_0000 * bytes[2] + 0x100_0000 * bytes[3]
        }),
{
    reveal(u32_bytes);
    let low = (value % 0x1_0000) as u16;
    let high = (value / 0x1_0000) as u16;
    assert(u32_bytes(value)[0] == u16_bytes(low)[0]);
    assert(u32_bytes(value)[1] == u16_bytes(low)[1]);
    assert(u32_bytes(value)[2] == u16_bytes(high)[0]);
    assert(u32_bytes(value)[3] == u16_bytes(high)[1]);
}

/// The byte at a place of an integer stands for itself times the power of 256
/// with that place as its exponent.
pub proof fn u64_bytes_are_weighed(value: u64)
    ensures
        ({
            let bytes = u64_bytes(value);
            value == bytes[0] + 0x100 * bytes[1] + 0x1_0000 * bytes[2] + 0x100_0000 * bytes[3] + 0x1_0000_0000 * (
            bytes[4] + 0x100 * bytes[5] + 0x1_0000 * bytes[6] + 0x100_0000 * bytes[7])
        }),
{
    reveal(u64_bytes);
    let low = (value % 0x1_0000_0000) as u32;
    let high = (value / 0x1_0000_0000) as u32;
    u32_bytes_are_weighed(low);
    u32_bytes_are_weighed(high);
    u32_round_trip(low);
    u32_round_trip(high);
    let bytes = u64_bytes(value);
    assert(bytes[0] == u32_bytes(low)[0] && bytes[1] == u32_bytes(low)[1]);
    assert(bytes[2] == u32_bytes(low)[2] && bytes[3] == u32_bytes(low)[3]);
    assert(bytes[4] == u32_bytes(high)[0] && bytes[5] == u32_bytes(high)[1]);
    assert(bytes[6] == u32_bytes(high)[2] && bytes[7] == u32_bytes(high)[3]);
}

/// Encoding what bytes decode to gives the bytes back.
pub proof fn u16_value_round_trip(bytes: Seq<u8>)
    requires
        bytes.len() == 2,
    ensures
        u16_bytes(u16_value(bytes)) == bytes,
{
    assert(u16_bytes(u16_value(bytes)) =~= bytes);
}

/// Encoding what bytes decode to gives the bytes back.
pub proof fn u32_value_round_trip(bytes: Seq<u8>)
    requires
        bytes.len() == 4,
    ensures
        u32_bytes(u32_value(bytes)) == bytes,
{
    u32_round_trip(u32_value(bytes));
    if u32_bytes(u32_value(bytes)) != bytes {
        u32_values_differ(u32_bytes(u32_value(bytes)), bytes);
    }
}

/// Encoding what bytes decode to gives the bytes back.
pub proof fn u64_value_round_trip(bytes: Seq<u8>)
    requires
        bytes.len() == 8,
    ensures
        u64_bytes(u64_value(bytes)) == bytes,
{
    reveal(u64_bytes);
    reveal(u64_value);
    u32_value_round_trip(bytes.subrange(0, 4));
    u32_value_round_trip(bytes.subrange(4, 8));
    let low = u32_value(bytes.subrange(0, 4));
    let high = u32_value(bytes.subrange(4, 8));
    assert(u64_value(bytes) % 0x1_0000_0000 == low);
    assert(u64_value(bytes) / 0x1_0000_0000 == high);
    assert(bytes =~= bytes.subrange(0, 4) + bytes.subrange(4, 8));
}

} // verus!
