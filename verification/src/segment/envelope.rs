//! Segment header, index and footer.
//!
//! ```text
//! +--------------------------------------------------------------+
//! | 4 KiB file header: magic, version, segment, block, alignment |
//! +--------------------------------------------------------------+
//! | records, each padded with zeros to the record alignment      |
//! +--------------------------------------------------------------+
//! | sealed index: [record file position: u64]... + zero padding  |
//! +--------------------------------------------------------------+
//! | 4 KiB footer: segment, record size/count, index size, CRCs   |
//! +--------------------------------------------------------------+
//! ```

use vstd::prelude::*;
use crate::align;
use crate::bytestr;
use crate::crc;
use crate::framing::BLOCK_SIZE;
use crate::le;
use crate::segment::error;
use crate::segment::error::{SegmentError, SegmentErrorView};
use crate::text;
use crate::vfs::{Vfs, VfsFile};

verus! {

broadcast use {crate::le::u32_width, crate::le::u64_width};

/// The largest record alignment, and the size of the header and the footer.
pub const ALIGNMENT: usize = 4096;

/// Size of the file header.
pub const FILE_HEADER_SIZE: usize = 4096;

/// Size of the footer.
pub const FOOTER_SIZE: usize = 4096;

const FILE_VERSION: u16 = 3;

const FILE_HEADER_FIELDS_SIZE: u16 = 32;

const FOOTER_VERSION: u16 = 1;

const FOOTER_FIELDS_SIZE: u16 = 52;

/// What a segment file starts with: `LYRASEG` and a zero byte.
pub open spec fn file_magic() -> Seq<u8> {
    seq![76u8, 89, 82, 65, 83, 69, 71, 0]
}

/// What a footer starts with: `LYRAIDX` and a zero byte.
pub open spec fn footer_magic() -> Seq<u8> {
    seq![76u8, 89, 82, 65, 73, 68, 88, 0]
}

/// Whether records can be aligned to `alignment`.
pub open spec fn is_alignment(alignment: int) -> bool {
    alignment > 0 && FILE_HEADER_SIZE as int % alignment == 0
}

/// What is reported of an alignment that does not divide the header.
pub open spec fn alignment_error(alignment: nat) -> SegmentErrorView {
    SegmentErrorView::Io(
        "record alignment "@ + text::decimal(alignment) + " must divide the 4096-byte segment envelope"@,
    )
}

pub fn validate_alignment(alignment: usize) -> (result: Result<(), SegmentError>)
    ensures
        match result {
            Ok(()) => is_alignment(alignment as int) && alignment <= 4096,
            Err(error) => !is_alignment(alignment as int) && error@ == alignment_error(alignment as nat),
        },
{
    if alignment != 0 && FILE_HEADER_SIZE % alignment == 0 {
        proof {
            alignment_is_small(alignment as int);
        }
        Ok(())
    } else {
        let mut message: String = String::from_str("record alignment ");
        text::push_decimal(&mut message, alignment as u64);
        message.append(" must divide the 4096-byte segment envelope");
        Err(SegmentError::Io(message))
    }
}

/// An alignment is at most the size of the header.
pub proof fn alignment_is_small(alignment: int)
    requires
        is_alignment(alignment),
    ensures
        alignment <= 4096,
        FILE_HEADER_SIZE as int % alignment == 0,
{
    if alignment > 4096 {
        vstd::arithmetic::div_mod::lemma_small_mod(4096, alignment as nat);
    }
}

/// The fields of a file header that its checksum covers.
pub open spec fn header_fields(segment_number: u64, alignment: u32) -> Seq<u8> {
    file_magic() + le::u16_bytes(3) + le::u16_bytes(32) + le::u64_bytes(segment_number) + le::u32_bytes(32_768)
        + le::u32_bytes(alignment)
}

/// The header of a segment file.
pub open spec fn file_header(segment_number: u64, alignment: u32) -> Seq<u8> {
    let fields = header_fields(segment_number, alignment);
    fields + le::u32_bytes(crc::checksum_of(fields)) + bytestr::zeros(FILE_HEADER_SIZE - 32)
}

/// Encodes the header of a segment file.
pub fn encode_file_header(segment_number: u64, alignment: usize) -> (result: Result<Vec<u8>, SegmentError>)
    ensures
        match result {
            Ok(header) => is_alignment(alignment as int) && header@ == file_header(segment_number, alignment as u32),
            Err(error) => !is_alignment(alignment as int) && error@ == alignment_error(alignment as nat),
        },
{
    match validate_alignment(alignment) {
        Ok(()) => {},
        Err(error) => {
            return Err(error);
        },
    }
    let mut header: Vec<u8> = Vec::new();
    put_file_magic(&mut header);
    le::put_u16(&mut header, FILE_VERSION);
    le::put_u16(&mut header, FILE_HEADER_FIELDS_SIZE);
    le::put_u64(&mut header, segment_number);
    le::put_u32(&mut header, BLOCK_SIZE as u32);
    le::put_u32(&mut header, alignment as u32);
    assert(header@ =~= header_fields(segment_number, alignment as u32));
    let checksum: u32 = crc::checksum(&header);
    le::put_u32(&mut header, checksum);
    proof {
        header_field_places(segment_number, alignment as u32);
    }
    bytestr::put_zeros(&mut header, FILE_HEADER_SIZE - 32);
    Ok(header)
}

fn put_file_magic(output: &mut Vec<u8>)
    ensures
        final(output)@ == old(output)@ + file_magic(),
{
    let magic: [u8; 8] = [76, 89, 82, 65, 83, 69, 71, 0];
    bytestr::put_bytes(output, magic.as_slice());
    assert(magic@ =~= file_magic());
}

fn put_footer_magic(output: &mut Vec<u8>)
    ensures
        final(output)@ == old(output)@ + footer_magic(),
{
    let magic: [u8; 8] = [76, 89, 82, 65, 73, 68, 88, 0];
    bytestr::put_bytes(output, magic.as_slice());
    assert(magic@ =~= footer_magic());
}

/// Where the fields of a header stand.
proof fn header_field_places(segment_number: u64, alignment: u32)
    ensures
        ({
            let fields = header_fields(segment_number, alignment);
            &&& fields.len() == 28
            &&& fields.subrange(0, 8) == file_magic()
            &&& fields.subrange(8, 10) == le::u16_bytes(3)
            &&& fields.subrange(10, 12) == le::u16_bytes(32)
            &&& fields.subrange(12, 20) == le::u64_bytes(segment_number)
            &&& fields.subrange(20, 24) == le::u32_bytes(32_768)
            &&& fields.subrange(24, 28) == le::u32_bytes(alignment)
        }),
{
    let fields = header_fields(segment_number, alignment);
    le::u64_round_trip(segment_number);
    le::u32_round_trip(alignment);
    le::u32_round_trip(32_768);
    le::u16_round_trip(3);
    le::u16_round_trip(32);
    assert(fields.subrange(0, 8) =~= file_magic());
    assert(fields.subrange(8, 10) =~= le::u16_bytes(3));
    assert(fields.subrange(10, 12) =~= le::u16_bytes(32));
    assert(fields.subrange(12, 20) =~= le::u64_bytes(segment_number));
    assert(fields.subrange(20, 24) =~= le::u32_bytes(32_768));
    assert(fields.subrange(24, 28) =~= le::u32_bytes(alignment));
}

/// What a segment file's header says.
#[derive(Debug, Clone, Copy, PartialEq, Eq, Structural)]
pub struct SegmentHeader {
    pub segment_number: u64,
    pub alignment: usize,
}

/// What is wrong with the bytes where a header should stand. Where `fixed`
/// holds, the only alignment is the largest one.
pub open spec fn header_fault(bytes: Seq<u8>, fixed: bool) -> Option<Seq<char>> {
    if bytes.len() < FILE_HEADER_SIZE {
        Some("truncated segment file header"@)
    } else if bytes.subrange(0, 8) != file_magic() {
        Some("invalid segment file magic"@)
    } else if le::u16_value(bytes.subrange(8, 10)) != 3 {
        Some("unsupported segment version "@ + text::decimal(le::u16_value(bytes.subrange(8, 10)) as nat))
    } else if le::u16_value(bytes.subrange(10, 12)) != 32 {
        Some("invalid segment header size"@)
    } else if le::u32_value(bytes.subrange(20, 24)) != BLOCK_SIZE || (if fixed {
        le::u32_value(bytes.subrange(24, 28)) != ALIGNMENT
    } else {
        !is_alignment(le::u32_value(bytes.subrange(24, 28)) as int)
    }) {
        Some("unsupported segment block size or alignment"@)
    } else if crc::checksum_of(bytes.subrange(0, 28)) != le::u32_value(bytes.subrange(28, 32)) {
        Some("segment header checksum mismatch"@)
    } else {
        None
    }
}

/// What the header in the bytes says.
pub open spec fn header_value(bytes: Seq<u8>) -> SegmentHeader {
    SegmentHeader {
        segment_number: le::u64_value(bytes.subrange(12, 20)),
        alignment: le::u32_value(bytes.subrange(24, 28)) as usize,
    }
}

/// Decodes the header of a segment file.
pub fn decode_file_header(path: &str, bytes: &[u8], fixed: bool) -> (result: Result<SegmentHeader, SegmentError>)
    ensures
        match result {
            Ok(header) => header_fault(bytes@, fixed) is None && header == header_value(bytes@) && is_alignment(
                header.alignment as int,
            ),
            Err(error) => header_fault(bytes@, fixed) matches Some(message) && error@ == error::corrupt(path@, message),
        },
{
    if bytes.len() < FILE_HEADER_SIZE {
        return error::corruption(path, "truncated segment file header");
    }
    let mut magic: Vec<u8> = Vec::new();
    put_file_magic(&mut magic);
    assert(magic@ =~= file_magic());
    if !bytestr::same_bytes(&bytes[0..8], &magic) {
        return error::corruption(path, "invalid segment file magic");
    }
    let version: u16 = le::get_u16(bytes, 8);
    if version != FILE_VERSION {
        let mut message: String = String::from_str("unsupported segment version ");
        text::push_decimal(&mut message, version as u64);
        return error::corruption(path, message.as_str());
    }
    if le::get_u16(bytes, 10) != FILE_HEADER_FIELDS_SIZE {
        return error::corruption(path, "invalid segment header size");
    }
    let block_size: u32 = le::get_u32(bytes, 20);
    let alignment: u32 = le::get_u32(bytes, 24);
    let supported: bool = if fixed {
        alignment == ALIGNMENT as u32
    } else {
        validate_alignment(alignment as usize).is_ok()
    };
    if block_size != BLOCK_SIZE as u32 || !supported {
        return error::corruption(path, "unsupported segment block size or alignment");
    }
    if crc::checksum(&bytes[0..28]) != le::get_u32(bytes, 28) {
        return error::corruption(path, "segment header checksum mismatch");
    }
    assert(is_alignment(4096)) by {
        assert(4096int % 4096int == 0);
    }
    Ok(SegmentHeader { segment_number: le::get_u64(bytes, 12), alignment: alignment as usize })
}

/// A header is read back as it was written, whatever follows it.
pub proof fn header_round_trip(segment_number: u64, alignment: usize, rest: Seq<u8>, fixed: bool)
    requires
        is_alignment(alignment as int),
        fixed ==> alignment == ALIGNMENT,
    ensures
        ({
            let bytes = file_header(segment_number, alignment as u32) + rest;
            &&& file_header(segment_number, alignment as u32).len() == FILE_HEADER_SIZE
            &&& header_fault(bytes, fixed) is None
            &&& header_value(bytes) == (SegmentHeader { segment_number, alignment })
        }),
{
    let bytes = file_header(segment_number, alignment as u32) + rest;
    let fields = header_fields(segment_number, alignment as u32);
    let checksum = crc::checksum_of(fields);
    alignment_is_small(alignment as int);
    header_field_places(segment_number, alignment as u32);
    le::u64_round_trip(segment_number);
    le::u32_round_trip(alignment as u32);
    le::u32_round_trip(32_768);
    le::u32_round_trip(checksum);
    le::u16_round_trip(3);
    le::u16_round_trip(32);
    assert(bytes.subrange(0, 28) =~= fields);
    assert(bytes.subrange(28, 32) =~= le::u32_bytes(checksum));
    assert(bytes.subrange(0, 8) =~= fields.subrange(0, 8));
    assert(bytes.subrange(8, 10) =~= fields.subrange(8, 10));
    assert(bytes.subrange(10, 12) =~= fields.subrange(10, 12));
    assert(bytes.subrange(12, 20) =~= fields.subrange(12, 20));
    assert(bytes.subrange(20, 24) =~= fields.subrange(20, 24));
    assert(bytes.subrange(24, 28) =~= fields.subrange(24, 28));
}

/// What the header of a file says, or what is wrong with it.
pub open spec fn file_header_fault(contents: Seq<u8>, fixed: bool) -> Option<Seq<char>> {
    header_fault(
        if contents.len() < FILE_HEADER_SIZE {
            contents
        } else {
            contents.take(FILE_HEADER_SIZE as int)
        },
        fixed,
    )
}

/// Reads the header of a segment file.
pub fn read_file_header<V: Vfs>(vfs: &V, file: &VfsFile, fixed: bool) -> (result: Result<SegmentHeader, SegmentError>)
    requires
        vfs.state().holds(file),
    ensures
        match result {
            Ok(header) => {
                &&& file_header_fault(vfs.state().contents(file), fixed) is None
                &&& header == header_value(vfs.state().contents(file).take(FILE_HEADER_SIZE as int))
                &&& is_alignment(header.alignment as int)
                &&& vfs.state().contents(file).len() >= FILE_HEADER_SIZE
            },
            Err(SegmentError::Io(_)) => !vfs.dependable(),
            Err(error) => file_header_fault(vfs.state().contents(file), fixed) matches Some(message) && error@
                == error::corrupt(file.path@, message),
        },
{
    let size: u64 = match vfs.size(file) {
        Ok(size) => size,
        Err(error) => {
            return Err(SegmentError::io(error));
        },
    };
    if size < FILE_HEADER_SIZE as u64 {
        return error::corruption(file.path.as_str(), "truncated segment file header");
    }
    let header: Vec<u8> = match vfs.read_at(file, 0, FILE_HEADER_SIZE) {
        Ok(header) => header,
        Err(error) => {
            return Err(SegmentError::io(error));
        },
    };
    assert(header@ =~= vfs.state().contents(file).take(FILE_HEADER_SIZE as int));
    decode_file_header(file.path.as_str(), &header, fixed)
}

/// The entries of an index, one after another.
pub open spec fn index_entries(index: Seq<u64>) -> Seq<u8>
    decreases index.len(),
{
    if index.len() == 0 {
        Seq::empty()
    } else {
        index_entries(index.drop_last()) + le::u64_bytes(index.last())
    }
}

/// The entries that bytes hold.
pub open spec fn entry_values(bytes: Seq<u8>, count: nat) -> Seq<u64> {
    Seq::new(count, |i: int| le::u64_value(bytes.subrange(8 * i, 8 * i + 8)))
}

proof fn index_entry_places(index: Seq<u64>)
    ensures
        index_entries(index).len() == 8 * index.len(),
        forall|i: int|
            0 <= i < index.len() ==> #[trigger] index_entries(index).subrange(8 * i, 8 * i + 8) == le::u64_bytes(
                index[i],
            ),
    decreases index.len(),
{
    if index.len() > 0 {
        let shorter = index.drop_last();
        let bytes = index_entries(index);
        index_entry_places(shorter);
        assert forall|i: int| 0 <= i < index.len() implies #[trigger] bytes.subrange(8 * i, 8 * i + 8) == le::u64_bytes(
            index[i],
        ) by {
            if i < shorter.len() {
                assert(bytes.subrange(8 * i, 8 * i + 8) =~= index_entries(shorter).subrange(8 * i, 8 * i + 8));
            } else {
                assert(bytes.subrange(8 * i, 8 * i + 8) =~= le::u64_bytes(index.last()));
            }
        }
    }
}

/// An index is read back as it was written, whatever follows it.
proof fn index_round_trip(index: Seq<u64>, rest: Seq<u8>)
    ensures
        entry_values(index_entries(index) + rest, index.len()) == index,
{
    let bytes = index_entries(index) + rest;
    index_entry_places(index);
    assert forall|i: int| 0 <= i < index.len() implies entry_values(bytes, index.len())[i] == index[i] by {
        assert(bytes.subrange(8 * i, 8 * i + 8) =~= index_entries(index).subrange(8 * i, 8 * i + 8));
        le::u64_round_trip(index[i]);
    }
    assert(entry_values(bytes, index.len()) =~= index);
}

/// The size of an index with its padding.
pub open spec fn index_size(count: nat, alignment: int) -> int {
    align::aligned(8 * count as int, alignment)
}

/// An index with its padding.
pub open spec fn padded_index(index: Seq<u64>, alignment: int) -> Seq<u8> {
    index_entries(index) + bytestr::zeros(index_size(index.len(), alignment) - 8 * index.len())
}

/// What a footer says.
#[derive(Debug, Clone, Copy, PartialEq, Eq, Structural)]
pub struct SegmentFooter {
    pub segment_number: u64,
    pub records_size: u64,
    pub record_count: u64,
    pub index_size: u64,
    pub index_checksum: u32,
}

/// The fields of a footer that its checksum covers.
pub open spec fn footer_fields(footer: SegmentFooter) -> Seq<u8> {
    footer_magic() + le::u16_bytes(1) + le::u16_bytes(52) + le::u64_bytes(footer.segment_number) + le::u64_bytes(
        footer.records_size,
    ) + le::u64_bytes(footer.record_count) + le::u64_bytes(footer.index_size) + le::u32_bytes(footer.index_checksum)
}

/// A footer.
pub open spec fn footer_bytes(footer: SegmentFooter) -> Seq<u8> {
    let fields = footer_fields(footer);
    fields + le::u32_bytes(crc::checksum_of(fields)) + bytestr::zeros(FOOTER_SIZE - 52)
}

/// What the footer of a sealed segment says.
pub open spec fn sealed_footer(segment_number: u64, records_size: u64, index: Seq<u64>, alignment: int) -> SegmentFooter {
    SegmentFooter {
        segment_number,
        records_size,
        record_count: index.len() as u64,
        index_size: index_size(index.len(), alignment) as u64,
        index_checksum: crc::checksum_of(padded_index(index, alignment)),
    }
}

/// What is appended to seal a segment: its index and its footer.
pub open spec fn seal_bytes(segment_number: u64, records_size: u64, index: Seq<u64>, alignment: int) -> Seq<u8> {
    padded_index(index, alignment) + footer_bytes(sealed_footer(segment_number, records_size, index, alignment))
}

/// Why an index cannot be sealed.
pub open spec fn seal_error(count: nat, alignment: usize) -> Option<SegmentErrorView> {
    if !is_alignment(alignment as int) {
        Some(alignment_error(alignment as nat))
    } else if 8 * count > usize::MAX || index_size(count, alignment as int) + FOOTER_SIZE > usize::MAX {
        Some(SegmentErrorView::OffsetExhausted)
    } else {
        None
    }
}

/// Encodes the index and the footer that seal a segment.
pub fn encode_index_footer(segment_number: u64, records_size: u64, index: &[u64], alignment: usize) -> (result: Result<
    Vec<u8>,
    SegmentError,
>)
    requires
        is_alignment(alignment as int) && 8 * index@.len() <= usize::MAX ==> index_size(
            index@.len(),
            alignment as int,
        ) <= usize::MAX,
    ensures
        match result {
            Ok(bytes) => {
                &&& seal_error(index@.len(), alignment) is None
                &&& bytes@ == seal_bytes(segment_number, records_size, index@, alignment as int)
            },
            Err(error) => seal_error(index@.len(), alignment) == Some(error@),
        },
{
    match validate_alignment(alignment) {
        Ok(()) => {},
        Err(error) => {
            return Err(error);
        },
    }
    let entries_size: usize = match index.len().checked_mul(8) {
        Some(entries_size) => entries_size,
        None => {
            return Err(SegmentError::OffsetExhausted);
        },
    };
    let size: usize = align::align_up(entries_size, alignment);
    if size.checked_add(FOOTER_SIZE).is_none() {
        return Err(SegmentError::OffsetExhausted);
    }
    proof {
        index_entry_places(index@);
        align::aligned_bounds(entries_size as int, alignment as int);
    }
    let mut output: Vec<u8> = Vec::new();
    let mut at: usize = 0;
    while at < index.len()
        invariant
            at <= index@.len(),
            output@ == index_entries(index@.take(at as int)),
        decreases index@.len() - at,
    {
        le::put_u64(&mut output, index[at]);
        at += 1;
        assert(index@.take(at as int).drop_last() =~= index@.take(at - 1));
    }
    assert(index@.take(at as int) =~= index@);
    bytestr::put_zeros(&mut output, size - entries_size);
    let ghost padded = output@;
    assert(padded == padded_index(index@, alignment as int));
    let ghost footer = sealed_footer(segment_number, records_size, index@, alignment as int);
    let mut fields: Vec<u8> = Vec::new();
    put_footer_magic(&mut fields);
    le::put_u16(&mut fields, FOOTER_VERSION);
    le::put_u16(&mut fields, FOOTER_FIELDS_SIZE);
    le::put_u64(&mut fields, segment_number);
    le::put_u64(&mut fields, records_size);
    le::put_u64(&mut fields, index.len() as u64);
    le::put_u64(&mut fields, size as u64);
    let index_checksum: u32 = crc::checksum(&output);
    le::put_u32(&mut fields, index_checksum);
    assert(fields@ =~= footer_fields(footer));
    let checksum: u32 = crc::checksum(&fields);
    le::put_u32(&mut fields, checksum);
    proof {
        footer_field_places(footer);
    }
    bytestr::put_zeros(&mut fields, FOOTER_SIZE - 52);
    assert(fields@ =~= footer_bytes(footer));
    bytestr::put_bytes(&mut output, &fields);
    Ok(output)
}

/// Where the fields of a footer stand.
proof fn footer_field_places(footer: SegmentFooter)
    ensures
        ({
            let fields = footer_fields(footer);
            &&& fields.len() == 48
            &&& fields.subrange(0, 8) == footer_magic()
            &&& fields.subrange(8, 10) == le::u16_bytes(1)
            &&& fields.subrange(10, 12) == le::u16_bytes(52)
            &&& fields.subrange(12, 20) == le::u64_bytes(footer.segment_number)
            &&& fields.subrange(20, 28) == le::u64_bytes(footer.records_size)
            &&& fields.subrange(28, 36) == le::u64_bytes(footer.record_count)
            &&& fields.subrange(36, 44) == le::u64_bytes(footer.index_size)
            &&& fields.subrange(44, 48) == le::u32_bytes(footer.index_checksum)
        }),
{
    let fields = footer_fields(footer);
    assert(fields.subrange(0, 8) =~= footer_magic());
    assert(fields.subrange(8, 10) =~= le::u16_bytes(1));
    assert(fields.subrange(10, 12) =~= le::u16_bytes(52));
    assert(fields.subrange(12, 20) =~= le::u64_bytes(footer.segment_number));
    assert(fields.subrange(20, 28) =~= le::u64_bytes(footer.records_size));
    assert(fields.subrange(28, 36) =~= le::u64_bytes(footer.record_count));
    assert(fields.subrange(36, 44) =~= le::u64_bytes(footer.index_size));
    assert(fields.subrange(44, 48) =~= le::u32_bytes(footer.index_checksum));
}

/// What the footer in the bytes says, where one stands there.
pub open spec fn footer_value(bytes: Seq<u8>) -> Option<SegmentFooter> {
    if bytes.len() == FOOTER_SIZE && bytes.subrange(0, 8) == footer_magic() && le::u16_value(bytes.subrange(8, 10)) == 1
        && le::u16_value(bytes.subrange(10, 12)) == 52 && crc::checksum_of(bytes.subrange(0, 48)) == le::u32_value(
        bytes.subrange(48, 52),
    ) && bytestr::is_zero(bytes.skip(52)) {
        Some(
            SegmentFooter {
                segment_number: le::u64_value(bytes.subrange(12, 20)),
                records_size: le::u64_value(bytes.subrange(20, 28)),
                record_count: le::u64_value(bytes.subrange(28, 36)),
                index_size: le::u64_value(bytes.subrange(36, 44)),
                index_checksum: le::u32_value(bytes.subrange(44, 48)),
            },
        )
    } else {
        None
    }
}

/// Decodes a footer, where one stands in the bytes.
pub fn decode_footer(bytes: &[u8]) -> (footer: Option<SegmentFooter>)
    ensures
        footer == footer_value(bytes@),
{
    if bytes.len() != FOOTER_SIZE {
        return None;
    }
    let mut magic: Vec<u8> = Vec::new();
    put_footer_magic(&mut magic);
    assert(magic@ =~= footer_magic());
    if !bytestr::same_bytes(&bytes[0..8], &magic) {
        return None;
    }
    if le::get_u16(bytes, 8) != FOOTER_VERSION || le::get_u16(bytes, 10) != FOOTER_FIELDS_SIZE {
        return None;
    }
    assert(bytes@.subrange(52, bytes@.len() as int) =~= bytes@.skip(52));
    if crc::checksum(&bytes[0..48]) != le::get_u32(bytes, 48) || !bytestr::all_zero(&bytes[52..bytes.len()]) {
        return None;
    }
    Some(
        SegmentFooter {
            segment_number: le::get_u64(bytes, 12),
            records_size: le::get_u64(bytes, 20),
            record_count: le::get_u64(bytes, 28),
            index_size: le::get_u64(bytes, 36),
            index_checksum: le::get_u32(bytes, 44),
        },
    )
}

/// A footer is read back as it was written.
pub proof fn footer_round_trip(footer: SegmentFooter)
    ensures
        footer_bytes(footer).len() == FOOTER_SIZE,
        footer_value(footer_bytes(footer)) == Some(footer),
{
    let bytes = footer_bytes(footer);
    let fields = footer_fields(footer);
    let checksum = crc::checksum_of(fields);
    footer_field_places(footer);
    le::u64_round_trip(footer.segment_number);
    le::u64_round_trip(footer.records_size);
    le::u64_round_trip(footer.record_count);
    le::u64_round_trip(footer.index_size);
    le::u32_round_trip(footer.index_checksum);
    le::u32_round_trip(checksum);
    le::u16_round_trip(1);
    le::u16_round_trip(52);
    assert(bytes.subrange(0, 48) =~= fields);
    assert(bytes.subrange(48, 52) =~= le::u32_bytes(checksum));
    assert(bytes.skip(52) =~= bytestr::zeros(FOOTER_SIZE - 52));
    assert(bytes.subrange(0, 8) =~= fields.subrange(0, 8));
    assert(bytes.subrange(8, 10) =~= fields.subrange(8, 10));
    assert(bytes.subrange(10, 12) =~= fields.subrange(10, 12));
    assert(bytes.subrange(12, 20) =~= fields.subrange(12, 20));
    assert(bytes.subrange(20, 28) =~= fields.subrange(20, 28));
    assert(bytes.subrange(28, 36) =~= fields.subrange(28, 36));
    assert(bytes.subrange(36, 44) =~= fields.subrange(36, 44));
    assert(bytes.subrange(44, 48) =~= fields.subrange(44, 48));
}

/// Whether an index lists records in ascending order, aligned, from the header
/// on and before `records_end`.
pub open spec fn is_index(index: Seq<u64>, records_end: int, alignment: int) -> bool {
    &&& index.len() == 0 ==> records_end == FILE_HEADER_SIZE
    &&& index.len() > 0 ==> index[0] == FILE_HEADER_SIZE
    &&& forall|i: int|
        0 <= i < index.len() ==> FILE_HEADER_SIZE <= #[trigger] index[i] < records_end && index[i] as int % alignment
            == 0
    &&& forall|i: int, j: int| 0 <= i < j < index.len() ==> index[i] < index[j]
}

/// Whether an index is one that a segment can have.
pub fn valid_index(index: &[u64], records_end: u64, alignment: usize) -> (valid: bool)
    requires
        alignment > 0,
    ensures
        valid == is_index(index@, records_end as int, alignment as int),
{
    if index.len() == 0 {
        return records_end == FILE_HEADER_SIZE as u64;
    }
    if index[0] != FILE_HEADER_SIZE as u64 {
        return false;
    }
    let mut at: usize = 0;
    while at < index.len()
        invariant
            alignment > 0,
            at <= index@.len(),
            index@[0] == FILE_HEADER_SIZE,
            forall|i: int|
                0 <= i < at ==> FILE_HEADER_SIZE <= #[trigger] index@[i] < records_end && index@[i] as int
                    % alignment as int == 0,
            forall|i: int, j: int| 0 <= i < j < at ==> index@[i] < index@[j],
        decreases index@.len() - at,
    {
        let value: u64 = index[at];
        assert(value == index@[at as int]);
        if value < FILE_HEADER_SIZE as u64 || value >= records_end || value % (alignment as u64) != 0 {
            return false;
        }
        if at > 0 && index[at - 1] >= value {
            assert(index@[at - 1] >= index@[at as int]);
            return false;
        }
        at += 1;
    }
    true
}

/// The index of a sealed segment.
#[derive(Debug)]
pub struct LoadedIndex {
    pub segment_number: u64,
    pub records_size: u64,
    pub index: Vec<u64>,
}

/// What the end of a file says of an index.
pub enum IndexLookup {
    /// The file is not sealed.
    Missing,
    Found { segment_number: u64, records_size: u64, index: Seq<u64> },
    /// The footer says what cannot be.
    Impossible(Seq<char>),
}

/// What the end of a file says of an index, when records are aligned to
/// `alignment`.
pub open spec fn index_lookup(contents: Seq<u8>, alignment: int) -> IndexLookup {
    let footer_start = contents.len() - FOOTER_SIZE;
    if footer_start < 0 {
        IndexLookup::Missing
    } else {
        match footer_value(contents.skip(footer_start)) {
            None => IndexLookup::Missing,
            Some(footer) => {
                let entries_size = 8 * footer.record_count as int;
                let index_start = footer_start - footer.index_size;
                let index_bytes = contents.subrange(index_start, footer_start);
                let index = entry_values(index_bytes, footer.record_count as nat);
                if entries_size > u64::MAX {
                    IndexLookup::Impossible("segment index size overflows u64"@)
                } else if align::aligned(entries_size, alignment) > u64::MAX {
                    IndexLookup::Impossible("aligned segment index size overflows"@)
                } else if footer.index_size != align::aligned(entries_size, alignment) {
                    IndexLookup::Missing
                } else if index_start < 0 {
                    IndexLookup::Missing
                } else if footer.records_size as int % alignment != 0 {
                    IndexLookup::Missing
                } else if FILE_HEADER_SIZE + footer.records_size > u64::MAX {
                    IndexLookup::Impossible("segment records size overflows u64"@)
                } else if index_start != FILE_HEADER_SIZE + footer.records_size {
                    IndexLookup::Missing
                } else if footer.index_size > usize::MAX {
                    IndexLookup::Impossible("segment index does not fit memory"@)
                } else if crc::checksum_of(index_bytes) != footer.index_checksum {
                    IndexLookup::Missing
                } else if !bytestr::is_zero(index_bytes.skip(entries_size)) {
                    IndexLookup::Missing
                } else if !is_index(index, index_start, alignment) {
                    IndexLookup::Missing
                } else {
                    IndexLookup::Found {
                        segment_number: footer.segment_number,
                        records_size: footer.records_size,
                        index,
                    }
                }
            },
        }
    }
}

/// Loads the index of a sealed segment, where the file has one.
pub fn load_index<V: Vfs>(vfs: &V, file: &VfsFile, alignment: usize) -> (result: Result<
    Option<LoadedIndex>,
    SegmentError,
>)
    requires
        vfs.state().holds(file),
    ensures
        match result {
            Ok(loaded) => {
                &&& is_alignment(alignment as int)
                &&& index_lookup(vfs.state().contents(file), alignment as int) == (match loaded {
                    None => IndexLookup::Missing,
                    Some(loaded) => IndexLookup::Found {
                        segment_number: loaded.segment_number,
                        records_size: loaded.records_size,
                        index: loaded.index@,
                    },
                })
            },
            Err(error) => {
                ||| !is_alignment(alignment as int) && error@ == alignment_error(alignment as nat)
                ||| is_alignment(alignment as int) && error is Io && !vfs.dependable()
                ||| {
                    &&& is_alignment(alignment as int)
                    &&& index_lookup(vfs.state().contents(file), alignment as int) matches IndexLookup::Impossible(
                        message,
                    )
                    &&& error@ == error::corrupt(file.path@, message)
                }
            },
        },
{
    match validate_alignment(alignment) {
        Ok(()) => {},
        Err(error) => {
            return Err(error);
        },
    }
    let ghost contents = vfs.state().contents(file);
    let file_len: u64 = match vfs.size(file) {
        Ok(size) => size,
        Err(error) => {
            return Err(SegmentError::io(error));
        },
    };
    if file_len < FOOTER_SIZE as u64 {
        return Ok(None);
    }
    let footer_start: u64 = file_len - FOOTER_SIZE as u64;
    let footer_bytes: Vec<u8> = match vfs.read_at(file, footer_start, FOOTER_SIZE) {
        Ok(bytes) => bytes,
        Err(error) => {
            return Err(SegmentError::io(error));
        },
    };
    assert(footer_bytes@ =~= contents.skip(footer_start as int));
    let footer: SegmentFooter = match decode_footer(&footer_bytes) {
        Some(footer) => footer,
        None => {
            return Ok(None);
        },
    };
    let entries_size: u64 = match footer.record_count.checked_mul(8) {
        Some(entries_size) => entries_size,
        None => {
            return Err(error::corruption_error(file.path.as_str(), "segment index size overflows u64"));
        },
    };
    let expected_size: u64 = match align::checked_align_up(entries_size, alignment as u64) {
        Some(expected_size) => expected_size,
        None => {
            return Err(error::corruption_error(file.path.as_str(), "aligned segment index size overflows"));
        },
    };
    proof {
        align::aligned_bounds(entries_size as int, alignment as int);
    }
    if footer.index_size != expected_size {
        return Ok(None);
    }
    if footer_start < footer.index_size {
        return Ok(None);
    }
    let index_start: u64 = footer_start - footer.index_size;
    if footer.records_size % (alignment as u64) != 0 {
        return Ok(None);
    }
    let expected_start: u64 = match (FILE_HEADER_SIZE as u64).checked_add(footer.records_size) {
        Some(expected_start) => expected_start,
        None => {
            return Err(error::corruption_error(file.path.as_str(), "segment records size overflows u64"));
        },
    };
    if index_start != expected_start {
        return Ok(None);
    }
    if footer.index_size > usize::MAX as u64 {
        return Err(error::corruption_error(file.path.as_str(), "segment index does not fit memory"));
    }
    let size: usize = footer.index_size as usize;
    let index_bytes: Vec<u8> = match vfs.read_at(file, index_start, size) {
        Ok(bytes) => bytes,
        Err(error) => {
            return Err(SegmentError::io(error));
        },
    };
    assert(index_bytes@ =~= contents.subrange(index_start as int, footer_start as int));
    if crc::checksum(&index_bytes) != footer.index_checksum {
        return Ok(None);
    }
    let entries_end: usize = entries_size as usize;
    assert(index_bytes@.subrange(entries_end as int, index_bytes@.len() as int) =~= index_bytes@.skip(
        entries_end as int,
    ));
    if !bytestr::all_zero(&index_bytes.as_slice()[entries_end..index_bytes.len()]) {
        return Ok(None);
    }
    let count: usize = footer.record_count as usize;
    let mut index: Vec<u64> = Vec::new();
    let mut at: usize = 0;
    while at < count
        invariant
            at <= count,
            8 * count <= index_bytes@.len(),
            index@ == entry_values(index_bytes@, at as nat),
        decreases count - at,
    {
        assert(index_bytes.len() <= usize::MAX);
        index.push(le::get_u64(&index_bytes, at * 8));
        at += 1;
        assert(index@ =~= entry_values(index_bytes@, at as nat));
    }
    if !valid_index(&index, index_start, alignment) {
        return Ok(None);
    }
    Ok(
        Some(
            LoadedIndex { segment_number: footer.segment_number, records_size: footer.records_size, index },
        ),
    )
}

/// What seals a segment is found again when the file is opened, whatever the
/// records before it are.
pub proof fn seal_round_trip(segment_number: u64, before: Seq<u8>, index: Seq<u64>, alignment: usize)
    requires
        is_alignment(alignment as int),
        FILE_HEADER_SIZE <= before.len() <= u64::MAX,
        before.len() as int % alignment as int == 0,
        is_index(index, before.len() as int, alignment as int),
        index_size(index.len(), alignment as int) <= usize::MAX,
    ensures
        index_lookup(
            before + seal_bytes(segment_number, (before.len() - FILE_HEADER_SIZE) as u64, index, alignment as int),
            alignment as int,
        ) == (IndexLookup::Found {
            segment_number,
            records_size: (before.len() - FILE_HEADER_SIZE) as u64,
            index,
        }),
{
    let step = alignment as int;
    let records_size = (before.len() - FILE_HEADER_SIZE) as u64;
    let padded = padded_index(index, step);
    let footer = sealed_footer(segment_number, records_size, index, step);
    let contents = before + seal_bytes(segment_number, records_size, index, step);
    let padding = bytestr::zeros(index_size(index.len(), step) - 8 * index.len());
    align::aligned_bounds(8 * index.len() as int, step);
    index_entry_places(index);
    index_round_trip(index, padding);
    footer_round_trip(footer);
    let footer_start = contents.len() - FOOTER_SIZE;
    assert(contents.skip(footer_start) =~= footer_bytes(footer));
    assert(contents.subrange(before.len() as int, footer_start) =~= padded);
    assert(padded.skip(8 * index.len() as int) =~= padding);
    assert(records_size as int % step == 0) by {
        vstd::arithmetic::div_mod::lemma_sub_mod_noop(before.len() as int, FILE_HEADER_SIZE as int, step);
        vstd::arithmetic::div_mod::lemma_small_mod(0, step as nat);
    }
}

/// A header in which one byte was changed is refused. Where the byte is one of
/// the fields, the changed fields must have another checksum.
pub proof fn changed_header_is_refused(
    segment_number: u64,
    alignment: usize,
    at: int,
    byte: u8,
    fixed: bool,
)
    requires
        is_alignment(alignment as int),
        0 <= at < 32,
        byte != file_header(segment_number, alignment as u32)[at],
        at < 28 ==> crc::checksum_of(header_fields(segment_number, alignment as u32)) != crc::checksum_of(
            header_fields(segment_number, alignment as u32).update(at, byte),
        ),
    ensures
        header_fault(file_header(segment_number, alignment as u32).update(at, byte), fixed) is Some,
{
    let fields = header_fields(segment_number, alignment as u32);
    let checksum = crc::checksum_of(fields);
    let header = file_header(segment_number, alignment as u32);
    let changed = header.update(at, byte);
    header_field_places(segment_number, alignment as u32);
    le::u32_round_trip(checksum);
    assert(header.subrange(28, 32) =~= le::u32_bytes(checksum));
    if at < 28 {
        assert(changed.subrange(0, 28) =~= fields.update(at, byte));
        assert(changed.subrange(28, 32) =~= le::u32_bytes(checksum));
    } else {
        assert(changed.subrange(0, 28) =~= fields);
        assert(changed.subrange(28, 32)[at - 28] != header.subrange(28, 32)[at - 28]);
        le::u32_values_differ(changed.subrange(28, 32), header.subrange(28, 32));
    }
}

/// A sealed segment in which one byte of the index or the footer was changed
/// is taken for one without an index. Where the byte is one that a checksum
/// covers, the changed bytes must have another checksum.
pub proof fn changed_seal_is_missing(
    segment_number: u64,
    before: Seq<u8>,
    index: Seq<u64>,
    alignment: usize,
    at: int,
    byte: u8,
)
    requires
        is_alignment(alignment as int),
        FILE_HEADER_SIZE <= before.len() <= u64::MAX,
        before.len() as int % alignment as int == 0,
        is_index(index, before.len() as int, alignment as int),
        index_size(index.len(), alignment as int) <= usize::MAX,
        ({
            let records_size = (before.len() - FILE_HEADER_SIZE) as u64;
            let padded = padded_index(index, alignment as int);
            let fields = footer_fields(sealed_footer(segment_number, records_size, index, alignment as int));
            let tail = seal_bytes(segment_number, records_size, index, alignment as int);
            &&& 0 <= at < tail.len()
            &&& byte != tail[at]
            &&& at < padded.len() ==> crc::checksum_of(padded) != crc::checksum_of(padded.update(at, byte))
            &&& padded.len() <= at < padded.len() + 48 ==> crc::checksum_of(fields) != crc::checksum_of(
                fields.update(at - padded.len(), byte),
            )
        }),
    ensures
        index_lookup(
            before + seal_bytes(
                segment_number,
                (before.len() - FILE_HEADER_SIZE) as u64,
                index,
                alignment as int,
            ).update(at, byte),
            alignment as int,
        ) is Missing,
{
    let step = alignment as int;
    let records_size = (before.len() - FILE_HEADER_SIZE) as u64;
    let padded = padded_index(index, step);
    let footer = sealed_footer(segment_number, records_size, index, step);
    let fields = footer_fields(footer);
    let tail = seal_bytes(segment_number, records_size, index, step);
    let contents = before + tail.update(at, byte);
    let checksum = crc::checksum_of(fields);
    align::aligned_bounds(8 * index.len() as int, step);
    index_entry_places(index);
    footer_field_places(footer);
    footer_round_trip(footer);
    le::u32_round_trip(checksum);
    let footer_start = contents.len() - FOOTER_SIZE;
    let last = contents.skip(footer_start);
    if at < padded.len() {
        assert(last =~= footer_bytes(footer));
        assert(contents.subrange(before.len() as int, footer_start) =~= padded.update(at, byte));
        assert(records_size as int % step == 0) by {
            vstd::arithmetic::div_mod::lemma_sub_mod_noop(before.len() as int, FILE_HEADER_SIZE as int, step);
            vstd::arithmetic::div_mod::lemma_small_mod(0, step as nat);
        }
    } else {
        let place = at - padded.len();
        let whole = footer_bytes(footer);
        assert(last =~= whole.update(place, byte));
        assert(whole.subrange(48, 52) =~= le::u32_bytes(checksum));
        if place < 48 {
            assert(last.subrange(0, 48) =~= fields.update(place, byte));
            assert(last.subrange(48, 52) =~= le::u32_bytes(checksum));
        } else if place < 52 {
            assert(last.subrange(0, 48) =~= fields);
            assert(last.subrange(48, 52)[place - 48] != whole.subrange(48, 52)[place - 48]);
            le::u32_values_differ(last.subrange(48, 52), whole.subrange(48, 52));
        } else {
            assert(last.skip(52)[place - 52] == byte);
        }
    }
}

/// What stands where in a file header: `LYRASEG` and a zero byte, version three,
/// the size of the fields, the segment number, the block size, the alignment, a
/// checksum of all these, and zeros.
pub proof fn header_is_laid_out(segment_number: u64, alignment: u32)
    ensures
        ({
            let header = file_header(segment_number, alignment);
            &&& header.len() == 4096
            &&& header.subrange(0, 8) == seq![0x4cu8, 0x59, 0x52, 0x41, 0x53, 0x45, 0x47, 0]
            &&& le::u16_value(header.subrange(8, 10)) == 3
            &&& le::u16_value(header.subrange(10, 12)) == 32
            &&& le::u64_value(header.subrange(12, 20)) == segment_number
            &&& le::u32_value(header.subrange(20, 24)) == 32_768
            &&& le::u32_value(header.subrange(24, 28)) == alignment
            &&& le::u32_value(header.subrange(28, 32)) == crc::checksum_of(header.take(28))
            &&& forall|i: int| 32 <= i < 4096 ==> header[i] == 0
        }),
{
    let header = file_header(segment_number, alignment);
    let fields = header_fields(segment_number, alignment);
    header_field_places(segment_number, alignment);
    le::u16_round_trip(3);
    le::u16_round_trip(32);
    le::u64_round_trip(segment_number);
    le::u32_round_trip(32_768);
    le::u32_round_trip(alignment);
    le::u32_round_trip(crc::checksum_of(fields));
    assert(header.take(28) =~= fields);
    assert(header.subrange(0, 8) =~= fields.subrange(0, 8));
    assert(header.subrange(8, 10) =~= fields.subrange(8, 10));
    assert(header.subrange(10, 12) =~= fields.subrange(10, 12));
    assert(header.subrange(12, 20) =~= fields.subrange(12, 20));
    assert(header.subrange(20, 24) =~= fields.subrange(20, 24));
    assert(header.subrange(24, 28) =~= fields.subrange(24, 28));
    assert(header.subrange(28, 32) =~= le::u32_bytes(crc::checksum_of(fields)));
}

/// Only what was written as a header is read as one: its fields and their
/// checksum are those of the header with the number and the alignment that are
/// read.
pub proof fn read_header_was_written(bytes: Seq<u8>, fixed: bool)
    requires
        header_fault(bytes, fixed) is None,
    ensures
        bytes.len() >= 4096,
        bytes.take(32) == file_header(header_value(bytes).segment_number, header_value(bytes).alignment as u32).take(32),
        header_value(bytes).alignment > 0,
        4096int % header_value(bytes).alignment as int == 0,
        fixed ==> header_value(bytes).alignment == 4096,
{
    let header = header_value(bytes);
    let alignment = header.alignment as u32;
    let fields = header_fields(header.segment_number, alignment);
    let written = file_header(header.segment_number, alignment);
    assert(is_alignment(4096)) by {
        assert(4096int % 4096int == 0);
    }
    alignment_is_small(le::u32_value(bytes.subrange(24, 28)) as int);
    header_field_places(header.segment_number, alignment);
    le::u16_value_round_trip(bytes.subrange(8, 10));
    le::u16_value_round_trip(bytes.subrange(10, 12));
    le::u64_value_round_trip(bytes.subrange(12, 20));
    le::u32_value_round_trip(bytes.subrange(20, 24));
    le::u32_value_round_trip(bytes.subrange(24, 28));
    le::u32_value_round_trip(bytes.subrange(28, 32));
    assert(bytes.subrange(0, 28) =~= bytes.subrange(0, 8) + bytes.subrange(8, 10) + bytes.subrange(10, 12)
        + bytes.subrange(12, 20) + bytes.subrange(20, 24) + bytes.subrange(24, 28));
    assert(bytes.subrange(0, 28) == fields);
    le::u32_round_trip(crc::checksum_of(fields));
    assert(bytes.take(32) =~= bytes.subrange(0, 28) + bytes.subrange(28, 32));
    assert(written.take(32) =~= fields + le::u32_bytes(crc::checksum_of(fields)));
}

/// What stands where in a footer: `LYRAIDX` and a zero byte, version one, the
/// size of the fields, the segment number, the sizes of the records, their
/// count, the size of the index, its checksum, a checksum of all these, and
/// zeros.
pub proof fn footer_is_laid_out(footer: SegmentFooter)
    ensures
        ({
            let bytes = footer_bytes(footer);
            &&& bytes.len() == 4096
            &&& bytes.subrange(0, 8) == seq![0x4cu8, 0x59, 0x52, 0x41, 0x49, 0x44, 0x58, 0]
            &&& le::u16_value(bytes.subrange(8, 10)) == 1
            &&& le::u16_value(bytes.subrange(10, 12)) == 52
            &&& le::u64_value(bytes.subrange(12, 20)) == footer.segment_number
            &&& le::u64_value(bytes.subrange(20, 28)) == footer.records_size
            &&& le::u64_value(bytes.subrange(28, 36)) == footer.record_count
            &&& le::u64_value(bytes.subrange(36, 44)) == footer.index_size
            &&& le::u32_value(bytes.subrange(44, 48)) == footer.index_checksum
            &&& le::u32_value(bytes.subrange(48, 52)) == crc::checksum_of(bytes.take(48))
            &&& forall|i: int| 52 <= i < 4096 ==> bytes[i] == 0
        }),
{
    let bytes = footer_bytes(footer);
    let fields = footer_fields(footer);
    footer_round_trip(footer);
    footer_field_places(footer);
    le::u16_round_trip(1);
    le::u16_round_trip(52);
    le::u32_round_trip(crc::checksum_of(fields));
    assert(bytes.take(48) =~= fields);
    assert(bytes.subrange(0, 8) =~= fields.subrange(0, 8));
    assert(bytes.subrange(8, 10) =~= fields.subrange(8, 10));
    assert(bytes.subrange(10, 12) =~= fields.subrange(10, 12));
    assert(bytes.subrange(48, 52) =~= le::u32_bytes(crc::checksum_of(fields)));
}

/// Only what was written as a footer is read as one.
pub proof fn read_footer_was_written(bytes: Seq<u8>)
    ensures
        footer_value(bytes) matches Some(footer) ==> bytes == footer_bytes(footer),
{
    if let Some(footer) = footer_value(bytes) {
        let fields = footer_fields(footer);
        footer_field_places(footer);
        le::u16_value_round_trip(bytes.subrange(8, 10));
        le::u16_value_round_trip(bytes.subrange(10, 12));
        le::u64_value_round_trip(bytes.subrange(12, 20));
        le::u64_value_round_trip(bytes.subrange(20, 28));
        le::u64_value_round_trip(bytes.subrange(28, 36));
        le::u64_value_round_trip(bytes.subrange(36, 44));
        le::u32_value_round_trip(bytes.subrange(44, 48));
        le::u32_value_round_trip(bytes.subrange(48, 52));
        assert(bytes.subrange(0, 48) =~= bytes.subrange(0, 8) + bytes.subrange(8, 10) + bytes.subrange(10, 12)
            + bytes.subrange(12, 20) + bytes.subrange(20, 28) + bytes.subrange(28, 36) + bytes.subrange(36, 44)
            + bytes.subrange(44, 48));
        assert(bytes.subrange(0, 48) == fields);
        assert(bytes.skip(52) =~= bytestr::zeros(FOOTER_SIZE - 52));
        assert(bytes =~= bytes.subrange(0, 48) + bytes.subrange(48, 52) + bytes.skip(52));
    }
}

/// A file has an index only where it was sealed: it ends with what seals the
/// segment with the number, the size of the records and the index that are
/// found.
pub proof fn found_index_was_sealed(contents: Seq<u8>, alignment: int)
    requires
        alignment > 0,
    ensures
        index_lookup(contents, alignment) matches IndexLookup::Found { segment_number, records_size, index } ==> {
            let end = 4096 + records_size;
            &&& end <= contents.len()
            &&& contents.skip(end) == seal_bytes(segment_number, records_size, index, alignment)
            &&& records_size as int % alignment == 0
            &&& is_index(index, end, alignment)
        },
{
    if let IndexLookup::Found { segment_number, records_size, index } = index_lookup(contents, alignment) {
        let footer_start = contents.len() - FOOTER_SIZE;
        let footer = footer_value(contents.skip(footer_start))->0;
        let end = FILE_HEADER_SIZE + records_size;
        let index_bytes = contents.subrange(end, footer_start);
        let size = 8 * index.len() as int;
        read_footer_was_written(contents.skip(footer_start));
        align::aligned_bounds(size, alignment);
        index_entry_places(index);
        assert forall|at: int| 0 <= at < size implies index_bytes[at] == index_entries(index)[at] by {
            let i = at / 8;
            let part = index_bytes.subrange(8 * i, 8 * i + 8);
            le::u64_value_round_trip(part);
            assert(index[i] == le::u64_value(part));
            assert(index_entries(index).subrange(8 * i, 8 * i + 8) == le::u64_bytes(index[i]));
            assert(index_entries(index).subrange(8 * i, 8 * i + 8)[at - 8 * i] == part[at - 8 * i]);
        }
        assert forall|at: int| size <= at < index_bytes.len() implies index_bytes[at] == 0 by {
            assert(index_bytes.skip(size)[at - size] == 0);
        }
        assert(index_bytes =~= padded_index(index, alignment));
        assert(footer == sealed_footer(segment_number, records_size, index, alignment));
        assert(contents.skip(end) =~= index_bytes + contents.skip(footer_start));
    }
}

/// Each record of an index starts behind the header, at a multiple of the
/// alignment, and at least one step behind the record before it.
pub proof fn indexed_records_follow_one_another(index: Seq<u64>, records_end: int, alignment: int, at: int)
    requires
        alignment > 0,
        is_index(index, records_end, alignment),
    ensures
        index.len() == 0 ==> records_end == 4096,
        index.len() > 0 ==> index[0] == 4096,
        0 <= at < index.len() ==> 4096 <= index[at] < records_end && index[at] as int % alignment == 0,
        0 < at < index.len() ==> index[at - 1] + alignment <= index[at],
{
    if 0 < at < index.len() {
        let earlier = index[at - 1] as int;
        let later = index[at] as int;
        assert(earlier % alignment == 0 && later % alignment == 0);
        align::aligned_shift(1, earlier, alignment);
        align::aligned_is_the_next_multiple(earlier + 1, alignment, later);
        step_is_the_first_multiple(alignment);
    }
}

proof fn step_is_the_first_multiple(alignment: int)
    requires
        alignment > 0,
    ensures
        align::aligned(1, alignment) == alignment,
{
    if alignment > 1 {
        vstd::arithmetic::div_mod::lemma_small_mod(1, alignment as nat);
    }
}

} // verus!
