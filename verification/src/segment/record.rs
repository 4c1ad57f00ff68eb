//! Records that are padded to an alignment, and their recovery.

use vstd::prelude::*;
use crate::align;
use crate::bytestr;
use crate::crc;
use crate::framing;
use crate::framing::{Fragment, RecordFault, RecordType, BLOCK_SIZE, HEADER_SIZE};
use crate::le;
use crate::segment::envelope;
use crate::segment::envelope::{SegmentHeader, FILE_HEADER_SIZE};
use crate::segment::error;
use crate::segment::error::{SegmentError, SegmentErrorView};
use crate::vfs::{Vfs, VfsFile};

verus! {

/// The byte that stands for a full record.
pub const FULL: u8 = 5;

/// Size of a fragment's header.
pub const PHYSICAL_HEADER_SIZE: usize = 11;

/// The fragments of a record that starts at `position` of its file. Blocks are
/// counted from the end of the file header.
pub open spec fn fragments(segment_number: u32, position: int, payload: Seq<u8>) -> Seq<u8> {
    framing::record_bytes(FULL, segment_number, position - FILE_HEADER_SIZE, payload, true)
}

/// A record with its padding.
pub open spec fn aligned_record(segment_number: u64, position: int, payload: Seq<u8>, alignment: int) -> Seq<u8> {
    let record = fragments(segment_number as u32, position, payload);
    record + bytestr::zeros(align::aligned(record.len() as int, alignment) - record.len())
}

/// Why a record cannot be encoded.
pub open spec fn encoding_error(segment_number: u64, alignment: usize) -> Option<SegmentErrorView> {
    if !envelope::is_alignment(alignment as int) {
        Some(envelope::alignment_error(alignment as nat))
    } else if segment_number > u32::MAX {
        Some(SegmentErrorView::SegmentNumberTooLarge(segment_number))
    } else {
        None
    }
}

/// Appends the fragments of one record.
pub fn encode_logical_record(output: &mut Vec<u8>, start_position: u64, segment_number: u32, payload: &[u8])
    requires
        start_position >= FILE_HEADER_SIZE,
        start_position + fragments(segment_number, start_position as int, payload@).len() <= u64::MAX,
        old(output)@.len() + fragments(segment_number, start_position as int, payload@).len() <= usize::MAX,
    ensures
        final(output)@ == old(output)@ + fragments(segment_number, start_position as int, payload@),
{
    let prefix: [u8; 0] = [];
    assert(prefix@ + payload@ =~= payload@);
    assert(payload.len() <= usize::MAX);
    framing::put_record(
        output,
        FULL,
        segment_number,
        start_position - FILE_HEADER_SIZE as u64,
        prefix.as_slice(),
        payload,
    );
}

/// Encodes one record that starts at `start_position`, with its padding.
pub fn encode_record(segment_number: u64, start_position: u64, payload: &[u8], alignment: usize) -> (result: Result<
    Vec<u8>,
    SegmentError,
>)
    requires
        start_position >= FILE_HEADER_SIZE,
        encoding_error(segment_number, alignment) is None ==> start_position + aligned_record(
            segment_number,
            start_position as int,
            payload@,
            alignment as int,
        ).len() <= usize::MAX,
    ensures
        match result {
            Ok(bytes) => {
                &&& encoding_error(segment_number, alignment) is None
                &&& bytes@ == aligned_record(segment_number, start_position as int, payload@, alignment as int)
            },
            Err(error) => encoding_error(segment_number, alignment) == Some(error@),
        },
{
    match envelope::validate_alignment(alignment) {
        Ok(()) => {},
        Err(error) => {
            return Err(error);
        },
    }
    if segment_number > u32::MAX as u64 {
        return Err(SegmentError::SegmentNumberTooLarge(segment_number));
    }
    let ghost record = fragments(segment_number as u32, start_position as int, payload@);
    proof {
        align::aligned_bounds(record.len() as int, alignment as int);
    }
    let mut output: Vec<u8> = Vec::new();
    encode_logical_record(&mut output, start_position, segment_number as u32, payload);
    assert(output@ =~= record);
    let length: usize = output.len();
    let aligned: usize = align::align_up(length, alignment);
    bytestr::put_zeros(&mut output, aligned - length);
    Ok(output)
}

/// What stands where a record should start.
pub enum Decoded {
    /// A whole record, and the position after its padding.
    Record { next: int, payload: Seq<u8> },
    /// Zeros.
    Nothing,
    Faulty(RecordFault),
    /// The position after the padding cannot be represented.
    Exhausted,
    /// The file ends before where it is said to end.
    Starved,
}

/// What a record comes to whose fragments end at `position`.
pub open spec fn finished(contents: Seq<u8>, payload: Seq<u8>, position: int, end: int, alignment: int) -> Decoded {
    let next = align::aligned(position, alignment);
    if next > u64::MAX {
        Decoded::Exhausted
    } else if next > end {
        Decoded::Faulty(RecordFault::PaddingCut)
    } else if next > position && next > contents.len() {
        Decoded::Starved
    } else if next > position && !bytestr::is_zero(contents.subrange(position, next)) {
        Decoded::Faulty(RecordFault::DirtyPadding)
    } else {
        Decoded::Record { next, payload }
    }
}

/// The bytes from `position` on.
pub open spec fn tail(contents: Seq<u8>, position: int) -> Seq<u8> {
    if position <= contents.len() {
        contents.skip(position)
    } else {
        Seq::empty()
    }
}

/// What stands at `position` of a file that is said to end at `end`. Where
/// `fragmented` holds, `gathered` are the fragments of the record that were
/// read before.
pub open spec fn decoded(
    segment_number: u32,
    contents: Seq<u8>,
    position: int,
    end: int,
    alignment: int,
    fragmented: bool,
    gathered: Seq<u8>,
) -> Decoded
    decreases end - position,
{
    let room = framing::room(position - FILE_HEADER_SIZE);
    let left = end - position;
    if left <= 0 {
        Decoded::Faulty(RecordFault::Incomplete)
    } else if position < FILE_HEADER_SIZE {
        Decoded::Faulty(RecordFault::BeforeFileHeader)
    } else if room < HEADER_SIZE {
        let size = if left < room { left } else { room };
        if position + size > contents.len() {
            Decoded::Starved
        } else if !bytestr::is_zero(contents.subrange(position, position + size)) {
            Decoded::Faulty(RecordFault::DirtyTrailer)
        } else {
            decoded(segment_number, contents, position + size, end, alignment, fragmented, gathered)
        }
    } else {
        let bytes = tail(contents, position);
        proof {
            framing::fragment_is_inside(FULL, segment_number, bytes, room, left);
        }
        match framing::fragment_at(FULL, segment_number, bytes, room, left) {
            Fragment::Starved => Decoded::Starved,
            Fragment::Faulty(RecordFault::ZeroHeader) => if fragmented {
                Decoded::Faulty(RecordFault::IncompleteFragments)
            } else {
                Decoded::Nothing
            },
            Fragment::Faulty(RecordFault::CrossesBlock) => Decoded::Faulty(RecordFault::BodyCut),
            Fragment::Faulty(fault) => Decoded::Faulty(fault),
            Fragment::Valid(kind, fragment) => {
                let next = position + HEADER_SIZE + fragment.len();
                match kind {
                    RecordType::Full => if fragmented {
                        Decoded::Faulty(RecordFault::FullInside)
                    } else {
                        finished(contents, fragment, next, end, alignment)
                    },
                    RecordType::First => if fragmented {
                        Decoded::Faulty(RecordFault::FirstInside)
                    } else {
                        decoded(segment_number, contents, next, end, alignment, true, gathered + fragment)
                    },
                    RecordType::Middle => if !fragmented {
                        Decoded::Faulty(RecordFault::MiddleAlone)
                    } else {
                        decoded(segment_number, contents, next, end, alignment, true, gathered + fragment)
                    },
                    RecordType::Last => if !fragmented {
                        Decoded::Faulty(RecordFault::LastAlone)
                    } else {
                        finished(contents, gathered + fragment, next, end, alignment)
                    },
                }
            },
        }
    }
}

/// What stands where a record of a segment with the given number should start.
pub open spec fn decoded_record(
    segment_number: u64,
    contents: Seq<u8>,
    position: int,
    end: int,
    alignment: int,
) -> Decoded {
    if segment_number > u32::MAX {
        Decoded::Faulty(RecordFault::SegmentNumberRange)
    } else {
        decoded(segment_number as u32, contents, position, end, alignment, false, Seq::empty())
    }
}

/// A record, and the position after its padding.
#[derive(Debug)]
pub struct DecodedRecord {
    pub payload: Vec<u8>,
    pub next_position: u64,
}

/// Checks the padding of a record whose fragments end at `position`.
fn finish_record<V: Vfs>(
    vfs: &V,
    file: &VfsFile,
    payload: Vec<u8>,
    position: u64,
    file_end: u64,
    alignment: usize,
) -> (result: Result<DecodedRecord, SegmentError>)
    requires
        vfs.state().holds(file),
        0 < alignment <= 4096,
    ensures
        ({
            let outcome = finished(
                vfs.state().contents(file),
                payload@,
                position as int,
                file_end as int,
                alignment as int,
            );
            match result {
                Ok(record) => outcome == (Decoded::Record {
                    next: record.next_position as int,
                    payload: record.payload@,
                }),
                Err(SegmentError::Io(_)) => vfs.dependable() ==> outcome is Starved,
                Err(SegmentError::OffsetExhausted) => outcome is Exhausted,
                Err(error) => outcome matches Decoded::Faulty(fault) && error@ == error::corrupt(
                    file.path@,
                    fault.words(),
                ),
            }
        }),
{
    proof {
        align::aligned_bounds(position as int, alignment as int);
    }
    let next_position: u64 = match align::checked_align_up(position, alignment as u64) {
        Some(next_position) => next_position,
        None => {
            return Err(SegmentError::OffsetExhausted);
        },
    };
    if next_position > file_end {
        return Err(SegmentError::record(file.path.as_str(), RecordFault::PaddingCut));
    }
    let padding_len: usize = (next_position - position) as usize;
    if padding_len != 0 {
        let padding: Vec<u8> = match vfs.read_at(file, position, padding_len) {
            Ok(padding) => padding,
            Err(error) => {
                return Err(SegmentError::io(error));
            },
        };
        if !bytestr::all_zero(&padding) {
            return Err(SegmentError::record(file.path.as_str(), RecordFault::DirtyPadding));
        }
    }
    Ok(DecodedRecord { payload, next_position })
}

/// Reads the fragment at `position`, and says what its type and payload are.
/// Nothing stands there where all bytes of the header are zero.
fn read_fragment<V: Vfs>(
    vfs: &V,
    file: &VfsFile,
    segment_number: u32,
    position: u64,
    block_remaining: usize,
    file_remaining: u64,
) -> (result: Result<Option<(RecordType, Vec<u8>)>, SegmentError>)
    requires
        vfs.state().holds(file),
        position + file_remaining <= u64::MAX,
        block_remaining <= BLOCK_SIZE,
    ensures
        ({
            let fragment = framing::fragment_at(
                FULL,
                segment_number,
                tail(vfs.state().contents(file), position as int),
                block_remaining as int,
                file_remaining as int,
            );
            match result {
                Ok(Some((kind, payload))) => fragment == Fragment::Valid(kind, payload@),
                Ok(None) => fragment == Fragment::Faulty(RecordFault::ZeroHeader),
                Err(SegmentError::Io(_)) => vfs.dependable() ==> fragment is Starved,
                Err(error) => {
                    &&& fragment matches Fragment::Faulty(fault)
                    &&& fault != RecordFault::ZeroHeader
                    &&& error@ == error::corrupt(
                        file.path@,
                        (if fault == RecordFault::CrossesBlock {
                            RecordFault::BodyCut
                        } else {
                            fault
                        }).words(),
                    )
                },
            }
        }),
{
    let ghost bytes = tail(vfs.state().contents(file), position as int);
    proof {
        reveal(framing::fragment_at);
    }
    if file_remaining < HEADER_SIZE as u64 {
        return Err(SegmentError::record(file.path.as_str(), RecordFault::HeaderCut));
    }
    let header: Vec<u8> = match vfs.read_at(file, position, HEADER_SIZE) {
        Ok(header) => header,
        Err(error) => {
            return Err(SegmentError::io(error));
        },
    };
    assert(header@ =~= bytes.take(HEADER_SIZE as int));
    if bytestr::all_zero(&header) {
        return Ok(None);
    }
    let expected_checksum: u32 = le::get_u32(&header, 0);
    let fragment_len: usize = le::get_u16(&header, 4) as usize;
    let kind_byte: u8 = header[6];
    let log_number: u32 = le::get_u32(&header, 7);
    let physical_len: usize = HEADER_SIZE + fragment_len;
    if physical_len > block_remaining || physical_len as u64 > file_remaining {
        return Err(SegmentError::record(file.path.as_str(), RecordFault::BodyCut));
    }
    if log_number != segment_number {
        return Err(SegmentError::record(file.path.as_str(), RecordFault::WrongSegment));
    }
    let kind: RecordType = match RecordType::decode(FULL, kind_byte) {
        Ok(kind) => kind,
        Err(fault) => {
            return Err(SegmentError::record(file.path.as_str(), fault));
        },
    };
    let payload: Vec<u8> = match vfs.read_at(file, position + HEADER_SIZE as u64, fragment_len) {
        Ok(payload) => payload,
        Err(error) => {
            return Err(SegmentError::io(error));
        },
    };
    assert(payload@ =~= bytes.subrange(HEADER_SIZE as int, physical_len as int));
    if crc::physical_checksum(kind_byte, log_number, &payload) != expected_checksum {
        return Err(SegmentError::record(file.path.as_str(), RecordFault::ChecksumMismatch));
    }
    Ok(Some((kind, payload)))
}

/// Decodes the record at `start_position`. Nothing stands there where all
/// bytes of its header are zero.
pub fn decode_record0<V: Vfs>(
    vfs: &V,
    file: &VfsFile,
    segment_number: u64,
    start_position: u64,
    file_end: u64,
    alignment: usize,
) -> (result: Result<Option<DecodedRecord>, SegmentError>)
    requires
        vfs.state().holds(file),
    ensures
        ({
            let contents = vfs.state().contents(file);
            let outcome = decoded_record(
                segment_number,
                contents,
                start_position as int,
                file_end as int,
                alignment as int,
            );
            if !envelope::is_alignment(alignment as int) {
                result matches Err(error) && error@ == envelope::alignment_error(alignment as nat)
            } else {
                match result {
                    Ok(Some(record)) => outcome == (Decoded::Record {
                        next: record.next_position as int,
                        payload: record.payload@,
                    }),
                    Ok(None) => outcome is Nothing,
                    Err(SegmentError::Io(_)) => vfs.dependable() ==> outcome is Starved,
                    Err(SegmentError::OffsetExhausted) => outcome is Exhausted,
                    Err(error) => outcome matches Decoded::Faulty(fault) && error@ == error::corrupt(
                        file.path@,
                        fault.words(),
                    ),
                }
            }
        }),
{
    match envelope::validate_alignment(alignment) {
        Ok(()) => {},
        Err(error) => {
            return Err(error);
        },
    }
    let path: &str = file.path.as_str();
    if segment_number > u32::MAX as u64 {
        return Err(SegmentError::record(path, RecordFault::SegmentNumberRange));
    }
    let number: u32 = segment_number as u32;
    let ghost contents = vfs.state().contents(file);
    let ghost wanted = decoded_record(
        segment_number,
        contents,
        start_position as int,
        file_end as int,
        alignment as int,
    );
    let mut position: u64 = start_position;
    let mut fragments: Vec<u8> = Vec::new();
    let mut fragmented: bool = false;
    loop
        invariant
            vfs.state().holds(file),
            contents == vfs.state().contents(file),
            path@ == file.path@,
            0 < alignment <= 4096,
            envelope::is_alignment(alignment as int),
            segment_number <= u32::MAX,
            number == segment_number,
            wanted == decoded_record(
                segment_number,
                contents,
                start_position as int,
                file_end as int,
                alignment as int,
            ),
            wanted == decoded(
                number,
                contents,
                position as int,
                file_end as int,
                alignment as int,
                fragmented,
                fragments@,
            ),
            !fragmented ==> fragments@.len() == 0,
        decreases file_end - position,
    {
        if position >= file_end {
            return Err(SegmentError::record(path, RecordFault::Incomplete));
        }
        if position < FILE_HEADER_SIZE as u64 {
            return Err(SegmentError::record(path, RecordFault::BeforeFileHeader));
        }
        let block_remaining: usize = BLOCK_SIZE - ((position - FILE_HEADER_SIZE as u64) % (BLOCK_SIZE as u64))
            as usize;
        let file_remaining: u64 = file_end - position;
        if block_remaining < HEADER_SIZE {
            let available: usize = if file_remaining < block_remaining as u64 {
                file_remaining as usize
            } else {
                block_remaining
            };
            let trailer: Vec<u8> = match vfs.read_at(file, position, available) {
                Ok(trailer) => trailer,
                Err(error) => {
                    return Err(SegmentError::io(error));
                },
            };
            if !bytestr::all_zero(&trailer) {
                return Err(SegmentError::record(path, RecordFault::DirtyTrailer));
            }
            position += available as u64;
            continue;
        }
        let (kind, fragment) = match read_fragment(vfs, file, number, position, block_remaining, file_remaining) {
            Ok(Some(fragment)) => fragment,
            Ok(None) => {
                if fragmented {
                    return Err(SegmentError::record(path, RecordFault::IncompleteFragments));
                }
                return Ok(None);
            },
            Err(error) => {
                return Err(error);
            },
        };
        proof {
            framing::fragment_is_inside(
                FULL,
                number,
                tail(contents, position as int),
                block_remaining as int,
                file_remaining as int,
            );
        }
        position += (HEADER_SIZE + fragment.len()) as u64;
        match kind {
            RecordType::Full => {
                if fragmented {
                    return Err(SegmentError::record(path, RecordFault::FullInside));
                }
                return match finish_record(vfs, file, fragment, position, file_end, alignment) {
                    Ok(record) => Ok(Some(record)),
                    Err(error) => Err(error),
                };
            },
            RecordType::First => {
                if fragmented {
                    return Err(SegmentError::record(path, RecordFault::FirstInside));
                }
                fragmented = true;
                bytestr::put_bytes(&mut fragments, &fragment);
            },
            RecordType::Middle => {
                if !fragmented {
                    return Err(SegmentError::record(path, RecordFault::MiddleAlone));
                }
                bytestr::put_bytes(&mut fragments, &fragment);
            },
            RecordType::Last => {
                if !fragmented {
                    return Err(SegmentError::record(path, RecordFault::LastAlone));
                }
                bytestr::put_bytes(&mut fragments, &fragment);
                return match finish_record(vfs, file, fragments, position, file_end, alignment) {
                    Ok(record) => Ok(Some(record)),
                    Err(error) => Err(error),
                };
            },
        }
    }
}

/// What reading one record after another finds: where the records start, where
/// they end, and what stops them before the end of the file, if anything.
pub open spec fn scanned(segment_number: u64, contents: Seq<u8>, position: int, alignment: int) -> (
    Seq<u64>,
    int,
    Option<Decoded>,
)
    decreases contents.len() - position,
{
    if position >= contents.len() {
        (Seq::empty(), position, None)
    } else {
        match decoded_record(segment_number, contents, position, contents.len() as int, alignment) {
            Decoded::Record { next, payload } => if position < next <= contents.len() {
                let (rest, stop, why) = scanned(segment_number, contents, next, alignment);
                (seq![position as u64] + rest, stop, why)
            } else {
                (Seq::empty(), position, None)
            },
            Decoded::Nothing => (Seq::empty(), position, None),
            other => (Seq::empty(), position, Some(other)),
        }
    }
}

/// What is reported of a record that cannot be decoded.
pub open spec fn decoding_error(path: Seq<char>, outcome: Decoded, error: SegmentErrorView) -> bool {
    match outcome {
        Decoded::Faulty(fault) => error == error::corrupt(path, fault.words()),
        Decoded::Exhausted => error is OffsetExhausted,
        Decoded::Starved => error is Io,
        _ => false,
    }
}

/// What a scan of a segment file found.
#[derive(Debug)]
pub struct SegmentScan {
    pub segment_number: u64,
    pub index: Vec<u64>,
    pub valid_len: u64,
}

/// Finds the records of a segment file. Where `tolerate_tail` holds, a record
/// that cannot be read ends the scan instead of failing it.
pub fn scan_file<V: Vfs>(vfs: &V, file: &VfsFile, tolerate_tail: bool) -> (result: Result<SegmentScan, SegmentError>)
    requires
        vfs.state().holds(file),
    ensures
        ({
            let contents = vfs.state().contents(file);
            let header = envelope::header_value(contents.take(FILE_HEADER_SIZE as int));
            let (index, stop, why) = scanned(
                header.segment_number,
                contents,
                FILE_HEADER_SIZE as int,
                header.alignment as int,
            );
            match result {
                Ok(scan) => {
                    &&& envelope::file_header_fault(contents, false) is None
                    &&& scan.segment_number == header.segment_number
                    &&& scan.index@.is_prefix_of(index)
                    &&& FILE_HEADER_SIZE <= scan.valid_len <= contents.len()
                    &&& envelope::is_index(scan.index@, scan.valid_len as int, header.alignment as int)
                    &&& scan.valid_len as int % header.alignment as int == 0
                    &&& vfs.dependable() || !tolerate_tail ==> {
                        &&& scan.index@ == index
                        &&& scan.valid_len == stop
                        &&& why is None || tolerate_tail
                    }
                },
                Err(error) => {
                    ||| envelope::file_header_fault(contents, false) matches Some(message) && error@ == error::corrupt(
                        file.path@,
                        message,
                    )
                    ||| error is Io && !vfs.dependable()
                    ||| {
                        &&& envelope::file_header_fault(contents, false) is None
                        &&& !tolerate_tail
                        &&& why matches Some(outcome)
                        &&& decoding_error(file.path@, outcome, error@)
                    }
                },
            }
        }),
{
    let header: SegmentHeader = match envelope::read_file_header(vfs, file, false) {
        Ok(header) => header,
        Err(error) => {
            return Err(error);
        },
    };
    let file_len: u64 = match vfs.size(file) {
        Ok(size) => size,
        Err(error) => {
            return Err(SegmentError::io(error));
        },
    };
    let ghost contents = vfs.state().contents(file);
    let ghost whole = scanned(
        header.segment_number,
        contents,
        FILE_HEADER_SIZE as int,
        header.alignment as int,
    );
    let mut position: u64 = FILE_HEADER_SIZE as u64;
    let mut index: Vec<u64> = Vec::new();
    assert(Seq::<u64>::empty() + whole.0 =~= whole.0);
    while position < file_len
        invariant
            vfs.state().holds(file),
            contents == vfs.state().contents(file),
            contents.len() == file_len,
            header == envelope::header_value(contents.take(FILE_HEADER_SIZE as int)),
            envelope::file_header_fault(contents, false) is None,
            envelope::is_alignment(header.alignment as int),
            FILE_HEADER_SIZE <= position <= file_len,
            envelope::is_index(index@, position as int, header.alignment as int),
            position as int % header.alignment as int == 0,
            whole == scanned(
                header.segment_number,
                contents,
                FILE_HEADER_SIZE as int,
                header.alignment as int,
            ),
            ({
                let rest = scanned(header.segment_number, contents, position as int, header.alignment as int);
                whole == (index@ + rest.0, rest.1, rest.2)
            }),
        ensures
            vfs.dependable() || !tolerate_tail ==> {
                &&& index@ == whole.0
                &&& position == whole.1
                &&& whole.2 is None || tolerate_tail
            },
        decreases file_len - position,
    {
        let ghost rest = scanned(header.segment_number, contents, position as int, header.alignment as int);
        match decode_record0(vfs, file, header.segment_number, position, file_len, header.alignment) {
            Ok(Some(record)) => {
                proof {
                    record_moves_on(
                        header.segment_number,
                        contents,
                        position as int,
                        file_len as int,
                        header.alignment as int,
                    );
                    let further = scanned(
                        header.segment_number,
                        contents,
                        record.next_position as int,
                        header.alignment as int,
                    );
                    assert(index@ + (seq![position] + further.0) =~= index@.push(position) + further.0);
                }
                index.push(position);
                position = record.next_position;
            },
            Ok(None) => {
                assert(index@ + Seq::<u64>::empty() =~= index@);
                break;
            },
            Err(error) => {
                if tolerate_tail {
                    assert(index@ + Seq::<u64>::empty() =~= index@);
                    break;
                }
                return Err(error);
            },
        }
    }
    assert(index@ + Seq::<u64>::empty() =~= index@);
    Ok(SegmentScan { segment_number: header.segment_number, index, valid_len: position })
}

/// A record ends after it starts and before the end of the file.
proof fn record_moves_on(segment_number: u64, contents: Seq<u8>, position: int, end: int, alignment: int)
    requires
        alignment > 0,
    ensures
        decoded_record(segment_number, contents, position, end, alignment) matches Decoded::Record { next, .. }
            ==> position < next <= end && next % alignment == 0,
{
    if segment_number <= u32::MAX {
        rest_moves_on(segment_number as u32, contents, position, end, alignment, false, Seq::empty());
    }
}

proof fn rest_moves_on(
    segment_number: u32,
    contents: Seq<u8>,
    position: int,
    end: int,
    alignment: int,
    fragmented: bool,
    gathered: Seq<u8>,
)
    requires
        alignment > 0,
    ensures
        decoded(segment_number, contents, position, end, alignment, fragmented, gathered) matches Decoded::Record {
            next,
            ..
        } ==> position < next <= end && next % alignment == 0,
    decreases end - position,
{
    let room = framing::room(position - FILE_HEADER_SIZE);
    let left = end - position;
    if left > 0 && position >= FILE_HEADER_SIZE {
        if room < HEADER_SIZE {
            let size = if left < room { left } else { room };
            rest_moves_on(segment_number, contents, position + size, end, alignment, fragmented, gathered);
        } else {
            let bytes = tail(contents, position);
            framing::fragment_is_inside(FULL, segment_number, bytes, room, left);
            if let Fragment::Valid(kind, fragment) = framing::fragment_at(FULL, segment_number, bytes, room, left) {
                let next = position + HEADER_SIZE + fragment.len();
                align::aligned_bounds(next, alignment);
                rest_moves_on(segment_number, contents, next, end, alignment, true, gathered + fragment);
            }
        }
    }
}

/// Reads the record between two positions that an index gives.
pub fn read_record<V: Vfs>(
    vfs: &V,
    file: &VfsFile,
    segment_number: u64,
    position: u64,
    end: u64,
    alignment: usize,
) -> (result: Result<Vec<u8>, SegmentError>)
    requires
        vfs.state().holds(file),
        envelope::is_alignment(alignment as int),
    ensures
        ({
            let outcome = decoded_record(
                segment_number,
                vfs.state().contents(file),
                position as int,
                end as int,
                alignment as int,
            );
            match result {
                Ok(payload) => outcome == (Decoded::Record { next: end as int, payload: payload@ }),
                Err(error) => {
                    ||| error is Io && !vfs.dependable()
                    ||| decoding_error(file.path@, outcome, error@)
                    ||| outcome is Nothing && error@ == error::corrupt(
                        file.path@,
                        "segment index points to no record"@,
                    )
                    ||| {
                        &&& outcome matches Decoded::Record { next, .. }
                        &&& next != end
                        &&& error@ == error::corrupt(file.path@, "segment index does not bound one record"@)
                    }
                },
            }
        }),
{
    match decode_record0(vfs, file, segment_number, position, end, alignment) {
        Ok(Some(record)) => {
            if record.next_position != end {
                return error::corruption(file.path.as_str(), "segment index does not bound one record");
            }
            Ok(record.payload)
        },
        Ok(None) => error::corruption(file.path.as_str(), "segment index points to no record"),
        Err(error) => Err(error),
    }
}

proof fn rest_of_record_is_read(
    segment_number: u32,
    contents: Seq<u8>,
    position: int,
    payload: Seq<u8>,
    first: bool,
    gathered: Seq<u8>,
    end: int,
    alignment: int,
)
    requires
        alignment > 0,
        first ==> gathered.len() == 0,
        FILE_HEADER_SIZE <= position,
        end <= contents.len(),
        ({
            let record = framing::record_bytes(FULL, segment_number, position - FILE_HEADER_SIZE, payload, first);
            let stop = position + record.len();
            let next = align::aligned(stop, alignment);
            &&& contents.subrange(position, stop) == record
            &&& stop <= next <= end
            &&& next <= u64::MAX
            &&& bytestr::is_zero(contents.subrange(stop, next))
        }),
    ensures
        decoded(segment_number, contents, position, end, alignment, !first, gathered) == (Decoded::Record {
            next: align::aligned(
                position + framing::record_bytes(
                    FULL,
                    segment_number,
                    position - FILE_HEADER_SIZE,
                    payload,
                    first,
                ).len(),
                alignment,
            ),
            payload: gathered + payload,
        }),
    decreases
        payload.len(),
        (if framing::room(position - FILE_HEADER_SIZE) < HEADER_SIZE {
            2int
        } else if framing::room(position - FILE_HEADER_SIZE) == HEADER_SIZE {
            1
        } else {
            0
        }),
{
    let grid = position - FILE_HEADER_SIZE;
    let room = framing::room(grid);
    let record = framing::record_bytes(FULL, segment_number, grid, payload, first);
    let stop = position + record.len();
    framing::record_is_not_empty(FULL, segment_number, grid, payload, first);
    if room < HEADER_SIZE {
        let rest = framing::record_bytes(FULL, segment_number, grid + room, payload, first);
        framing::record_is_not_empty(FULL, segment_number, grid + room, payload, first);
        assert(contents.subrange(position, position + room) =~= record.take(room));
        assert(record.take(room) =~= bytestr::zeros(room));
        assert(contents.subrange(position + room, stop) =~= record.skip(room));
        assert(record.skip(room) =~= rest);
        rest_of_record_is_read(
            segment_number,
            contents,
            position + room,
            payload,
            first,
            gathered,
            end,
            alignment,
        );
    } else {
        let size = framing::portion(payload.len(), room);
        let last = size == payload.len();
        let kind = RecordType::placed(first, last);
        let fragment = framing::fragment_bytes(kind.byte(FULL), segment_number, payload.take(size));
        framing::fragment_size(kind.byte(FULL), segment_number, payload.take(size));
        let bytes = tail(contents, position);
        let after = bytes.skip(HEADER_SIZE + size);
        let next = position + HEADER_SIZE + size;
        assert(bytes.take(HEADER_SIZE + size) =~= contents.subrange(position, stop).take(HEADER_SIZE + size));
        assert(record.take(HEADER_SIZE + size) =~= fragment);
        assert(bytes =~= fragment + after);
        framing::fragment_round_trip(
            FULL,
            kind,
            segment_number,
            payload.take(size),
            after,
            room,
            end - position,
        );
        if last {
            assert(payload.take(size) =~= payload);
            if first {
                assert(gathered + payload =~= payload);
            }
        } else {
            let rest = framing::record_bytes(FULL, segment_number, grid + HEADER_SIZE + size, payload.skip(size), false);
            assert(record.skip(HEADER_SIZE + size) =~= rest);
            assert(contents.subrange(next, stop) =~= contents.subrange(position, stop).skip(HEADER_SIZE + size));
            rest_of_record_is_read(
                segment_number,
                contents,
                next,
                payload.skip(size),
                false,
                gathered + payload.take(size),
                end,
                alignment,
            );
            assert(gathered + payload.take(size) + payload.skip(size) =~= gathered + payload);
        }
    }
}

/// A record is read back as it was written, whatever stands before and after
/// it.
pub proof fn record_round_trip(
    segment_number: u64,
    before: Seq<u8>,
    payload: Seq<u8>,
    after: Seq<u8>,
    alignment: usize,
)
    requires
        segment_number <= u32::MAX,
        envelope::is_alignment(alignment as int),
        FILE_HEADER_SIZE <= before.len(),
        before.len() as int % alignment as int == 0,
        before.len() + aligned_record(segment_number, before.len() as int, payload, alignment as int).len()
            + after.len() <= u64::MAX,
    ensures
        ({
            let record = aligned_record(segment_number, before.len() as int, payload, alignment as int);
            let contents = before + record + after;
            let next = before.len() + record.len();
            forall|end: int|
                next <= end <= contents.len() ==> #[trigger] decoded_record(
                    segment_number,
                    contents,
                    before.len() as int,
                    end,
                    alignment as int,
                ) == (Decoded::Record { next: next as int, payload })
        }),
{
    let position = before.len() as int;
    let step = alignment as int;
    let bare = fragments(segment_number as u32, position, payload);
    let record = aligned_record(segment_number, position, payload, step);
    let contents = before + record + after;
    align::aligned_bounds(bare.len() as int, step);
    align::aligned_shift(bare.len() as int, position, step);
    let stop = position + bare.len();
    let next = align::aligned(stop, step);
    assert(contents.subrange(position, stop) =~= bare);
    assert(contents.subrange(stop, next) =~= bytestr::zeros(next - stop));
    assert forall|end: int| next <= end <= contents.len() implies #[trigger] decoded_record(
        segment_number,
        contents,
        position,
        end,
        step,
    ) == (Decoded::Record { next, payload }) by {
        rest_of_record_is_read(
            segment_number as u32,
            contents,
            position,
            payload,
            true,
            Seq::empty(),
            end,
            step,
        );
        assert(Seq::<u8>::empty() + payload =~= payload);
    }
}

/// Records that follow one another from `position` on.
pub open spec fn stream_bytes(segment_number: u64, position: int, records: Seq<Seq<u8>>, alignment: int) -> Seq<u8>
    decreases records.len(),
{
    if records.len() == 0 {
        Seq::empty()
    } else {
        let record = aligned_record(segment_number, position, records[0], alignment);
        record + stream_bytes(segment_number, position + record.len(), records.skip(1), alignment)
    }
}

/// Where those records start.
pub open spec fn stream_index(segment_number: u64, position: int, records: Seq<Seq<u8>>, alignment: int) -> Seq<u64>
    decreases records.len(),
{
    if records.len() == 0 {
        Seq::empty()
    } else {
        let record = aligned_record(segment_number, position, records[0], alignment);
        seq![position as u64] + stream_index(segment_number, position + record.len(), records.skip(1), alignment)
    }
}

/// A scan finds the records that were appended, in order, and where they end.
pub proof fn stream_is_scanned(segment_number: u64, before: Seq<u8>, records: Seq<Seq<u8>>, alignment: usize)
    requires
        segment_number <= u32::MAX,
        envelope::is_alignment(alignment as int),
        FILE_HEADER_SIZE <= before.len(),
        before.len() as int % alignment as int == 0,
        before.len() + stream_bytes(segment_number, before.len() as int, records, alignment as int).len() <= u64::MAX,
    ensures
        ({
            let start = before.len() as int;
            let contents = before + stream_bytes(segment_number, start, records, alignment as int);
            scanned(segment_number, contents, start, alignment as int) == (
                stream_index(segment_number, start, records, alignment as int),
                contents.len() as int,
                None::<Decoded>,
            )
        }),
    decreases records.len(),
{
    let start = before.len() as int;
    let step = alignment as int;
    let stream = stream_bytes(segment_number, start, records, step);
    let contents = before + stream;
    if records.len() > 0 {
        let record = aligned_record(segment_number, start, records[0], step);
        let rest = stream_bytes(segment_number, start + record.len(), records.skip(1), step);
        let bare = fragments(segment_number as u32, start, records[0]);
        framing::record_is_not_empty(FULL, segment_number as u32, start - FILE_HEADER_SIZE, records[0], true);
        align::aligned_bounds(bare.len() as int, step);
        align::multiples_add(start, record.len() as int, step);
        record_round_trip(segment_number, before, records[0], rest, alignment);
        assert(before + record + rest =~= contents);
        stream_is_scanned(segment_number, before + record, records.skip(1), alignment);
    }
}

/// The positions of records that follow one another, with the end of the last
/// one, are an index.
pub proof fn stream_index_is_index(segment_number: u64, position: int, records: Seq<Seq<u8>>, alignment: usize)
    requires
        segment_number <= u32::MAX,
        envelope::is_alignment(alignment as int),
        FILE_HEADER_SIZE <= position,
        position % alignment as int == 0,
        position + stream_bytes(segment_number, position, records, alignment as int).len() <= u64::MAX,
    ensures
        ({
            let index = stream_index(segment_number, position, records, alignment as int);
            let end = position + stream_bytes(segment_number, position, records, alignment as int).len();
            &&& index.len() == records.len()
            &&& index.len() == 0 ==> end == position
            &&& index.len() > 0 ==> index[0] == position
            &&& end % alignment as int == 0
            &&& forall|i: int|
                0 <= i < index.len() ==> position <= #[trigger] index[i] < end && index[i] as int % alignment as int
                    == 0
            &&& forall|i: int, j: int| 0 <= i < j < index.len() ==> index[i] < index[j]
        }),
    decreases records.len(),
{
    if records.len() > 0 {
        let step = alignment as int;
        let record = aligned_record(segment_number, position, records[0], step);
        let bare = fragments(segment_number as u32, position, records[0]);
        framing::record_is_not_empty(FULL, segment_number as u32, position - FILE_HEADER_SIZE, records[0], true);
        align::aligned_bounds(bare.len() as int, step);
        align::multiples_add(position, record.len() as int, step);
        stream_index_is_index(segment_number, position + record.len(), records.skip(1), alignment);
        let index = stream_index(segment_number, position, records, step);
        let rest = stream_index(segment_number, position + record.len(), records.skip(1), step);
        assert forall|i: int, j: int| 0 <= i < j < index.len() implies index[i] < index[j] by {
            assert(index[j] == rest[j - 1]);
            if i > 0 {
                assert(index[i] == rest[i - 1]);
            }
        }
        assert forall|i: int| 0 <= i < index.len() implies position <= #[trigger] index[i] < position + stream_bytes(
            segment_number,
            position,
            records,
            step,
        ).len() && index[i] as int % step == 0 by {
            if i > 0 {
                assert(index[i] == rest[i - 1]);
            }
        }
    }
}

/// Each record is read back through the index, whatever follows the records.
pub proof fn indexed_record_is_read(
    segment_number: u64,
    before: Seq<u8>,
    records: Seq<Seq<u8>>,
    after: Seq<u8>,
    alignment: usize,
    at: int,
)
    requires
        segment_number <= u32::MAX,
        envelope::is_alignment(alignment as int),
        FILE_HEADER_SIZE <= before.len(),
        before.len() as int % alignment as int == 0,
        before.len() + stream_bytes(segment_number, before.len() as int, records, alignment as int).len() + after.len()
            <= u64::MAX,
        0 <= at < records.len(),
    ensures
        ({
            let start = before.len() as int;
            let stream = stream_bytes(segment_number, start, records, alignment as int);
            let index = stream_index(segment_number, start, records, alignment as int).push(
                (start + stream.len()) as u64,
            );
            decoded_record(
                segment_number,
                before + stream + after,
                index[at] as int,
                index[at + 1] as int,
                alignment as int,
            ) == (Decoded::Record { next: index[at + 1] as int, payload: records[at] })
        }),
    decreases records.len(),
{
    let start = before.len() as int;
    let step = alignment as int;
    let stream = stream_bytes(segment_number, start, records, step);
    let index = stream_index(segment_number, start, records, step).push((start + stream.len()) as u64);
    let record = aligned_record(segment_number, start, records[0], step);
    let rest = stream_bytes(segment_number, start + record.len(), records.skip(1), step);
    let others = stream_index(segment_number, start + record.len(), records.skip(1), step).push(
        (start + stream.len()) as u64,
    );
    let bare = fragments(segment_number as u32, start, records[0]);
    align::aligned_bounds(bare.len() as int, step);
    align::multiples_add(start, record.len() as int, step);
    stream_index_is_index(segment_number, start, records, alignment);
    stream_index_is_index(segment_number, start + record.len(), records.skip(1), alignment);
    assert(index =~= seq![start as u64] + others);
    assert(before + record + rest + after =~= before + stream + after);
    if at == 0 {
        record_round_trip(segment_number, before, records[0], rest + after, alignment);
        assert(before + record + (rest + after) =~= before + stream + after);
        assert(others[0] == start + record.len());
    } else {
        indexed_record_is_read(segment_number, before + record, records.skip(1), after, alignment, at - 1);
        assert(index[at] == others[at - 1]);
        assert(index[at + 1] == others[at]);
    }
}

/// Zeros at the end of a file, too few for a header, are not a record.
proof fn cut_trailer_is_not_read(
    segment_number: u32,
    contents: Seq<u8>,
    position: int,
    fragmented: bool,
    gathered: Seq<u8>,
    alignment: int,
)
    requires
        FILE_HEADER_SIZE <= position < contents.len(),
        framing::room(position - FILE_HEADER_SIZE) < HEADER_SIZE,
        contents.len() - position < framing::room(position - FILE_HEADER_SIZE),
        bytestr::is_zero(contents.skip(position)),
    ensures
        decoded(segment_number, contents, position, contents.len() as int, alignment, fragmented, gathered) is Faulty,
{
    let end = contents.len() as int;
    assert(contents.subrange(position, end) =~= contents.skip(position));
    assert(decoded(segment_number, contents, end, end, alignment, fragmented, gathered) is Faulty);
}

/// The rest of a record that is cut at the end of a file is not read.
#[verifier::rlimit(40)]
proof fn cut_rest_is_not_read(
    segment_number: u32,
    contents: Seq<u8>,
    position: int,
    payload: Seq<u8>,
    first: bool,
    gathered: Seq<u8>,
    alignment: int,
)
    requires
        alignment > 0,
        FILE_HEADER_SIZE <= position <= contents.len(),
        ({
            let record = framing::record_bytes(FULL, segment_number, position - FILE_HEADER_SIZE, payload, first);
            let stop = position + record.len();
            &&& contents.len() < align::aligned(stop, alignment) <= u64::MAX
            &&& if contents.len() < stop {
                contents.skip(position) == record.take(contents.len() - position)
            } else {
                contents.subrange(position, stop) == record
            }
        }),
    ensures
        decoded(segment_number, contents, position, contents.len() as int, alignment, !first, gathered) is Faulty,
    decreases
        payload.len(),
        (if framing::room(position - FILE_HEADER_SIZE) < HEADER_SIZE {
            2int
        } else if framing::room(position - FILE_HEADER_SIZE) == HEADER_SIZE {
            1
        } else {
            0
        }),
{
    let end = contents.len() as int;
    let grid = position - FILE_HEADER_SIZE;
    let room = framing::room(grid);
    let record = framing::record_bytes(FULL, segment_number, grid, payload, first);
    let stop = position + record.len();
    let held = if end < stop {
        end - position
    } else {
        record.len() as int
    };
    assert(contents.subrange(position, position + held) =~= record.take(held));
    framing::record_is_not_empty(FULL, segment_number, grid, payload, first);
    if held == 0 {
    } else if room < HEADER_SIZE {
        let rest = framing::record_bytes(FULL, segment_number, grid + room, payload, first);
        framing::record_is_not_empty(FULL, segment_number, grid + room, payload, first);
        let size = if held < room {
            held
        } else {
            room
        };
        assert(record.take(room) =~= bytestr::zeros(room));
        assert(contents.subrange(position, position + size) =~= record.take(held).take(size));
        assert(record.take(held).take(size) =~= bytestr::zeros(size));
        if held >= room {
            assert(record.skip(room) =~= rest);
            assert(contents.subrange(position + room, position + held) =~= record.take(held).skip(room));
            assert(record.take(held).skip(room) =~= rest.take(held - room));
            if end < stop {
                assert(contents.skip(position + room) =~= contents.subrange(position + room, position + held));
            } else {
                assert(rest.take(held - room) =~= rest);
            }
            cut_rest_is_not_read(
                segment_number,
                contents,
                position + room,
                payload,
                first,
                gathered,
                alignment,
            );
        } else {
            assert(contents.skip(position) =~= bytestr::zeros(size));
            cut_trailer_is_not_read(segment_number, contents, position, !first, gathered, alignment);
        }
    } else {
        let size = framing::portion(payload.len(), room);
        let last = size == payload.len();
        let kind = RecordType::placed(first, last);
        let fragment = framing::fragment_bytes(kind.byte(FULL), segment_number, payload.take(size));
        framing::fragment_size(kind.byte(FULL), segment_number, payload.take(size));
        let bytes = tail(contents, position);
        let next = position + HEADER_SIZE + size;
        assert(record.take(HEADER_SIZE + size) =~= fragment);
        if end < next {
            assert(bytes =~= record.take(held));
            assert(record.take(held) =~= fragment.take(held));
            framing::cut_fragment(FULL, kind, segment_number, payload.take(size), room, held);
        } else {
            let after = bytes.skip(HEADER_SIZE + size);
            assert(bytes.take(HEADER_SIZE + size) =~= contents.subrange(position, position + held).take(
                HEADER_SIZE + size,
            ));
            assert(record.take(held).take(HEADER_SIZE + size) =~= fragment);
            assert(bytes =~= fragment + after);
            framing::fragment_round_trip(
                FULL,
                kind,
                segment_number,
                payload.take(size),
                after,
                room,
                end - position,
            );
            if !last {
                let rest = framing::record_bytes(
                    FULL,
                    segment_number,
                    grid + HEADER_SIZE + size,
                    payload.skip(size),
                    false,
                );
                assert(record.skip(HEADER_SIZE + size) =~= rest);
                assert(contents.subrange(next, position + held) =~= record.take(held).skip(HEADER_SIZE + size));
                assert(record.take(held).skip(HEADER_SIZE + size) =~= rest.take(held - HEADER_SIZE - size));
                if end < stop {
                    assert(contents.skip(next) =~= contents.subrange(next, position + held));
                } else {
                    assert(rest.take(held - HEADER_SIZE - size) =~= rest);
                }
                cut_rest_is_not_read(
                    segment_number,
                    contents,
                    next,
                    payload.skip(size),
                    false,
                    gathered + payload.take(size),
                    alignment,
                );
            }
        }
    }
}

/// A scan of a file whose last record was cut, wherever that was, finds the
/// records before it, and stops where they end.
pub proof fn cut_stream_is_scanned(
    segment_number: u64,
    before: Seq<u8>,
    records: Seq<Seq<u8>>,
    last: Seq<u8>,
    cut: int,
    alignment: usize,
)
    requires
        segment_number <= u32::MAX,
        envelope::is_alignment(alignment as int),
        FILE_HEADER_SIZE <= before.len(),
        before.len() as int % alignment as int == 0,
        ({
            let start = before.len() as int;
            let stream = stream_bytes(segment_number, start, records, alignment as int);
            let record = aligned_record(segment_number, start + stream.len(), last, alignment as int);
            &&& 0 < cut < record.len()
            &&& start + stream.len() + record.len() <= u64::MAX
        }),
    ensures
        ({
            let start = before.len() as int;
            let stream = stream_bytes(segment_number, start, records, alignment as int);
            let record = aligned_record(segment_number, start + stream.len(), last, alignment as int);
            let contents = before + stream + record.take(cut);
            let (index, stop, why) = scanned(segment_number, contents, start, alignment as int);
            &&& index == stream_index(segment_number, start, records, alignment as int)
            &&& stop == start + stream.len()
            &&& why matches Some(outcome)
            &&& outcome is Faulty
        }),
    decreases records.len(),
{
    let start = before.len() as int;
    let step = alignment as int;
    let stream = stream_bytes(segment_number, start, records, step);
    let tail_record = aligned_record(segment_number, start + stream.len(), last, step);
    let contents = before + stream + tail_record.take(cut);
    if records.len() == 0 {
        let bare = fragments(segment_number as u32, start, last);
        align::aligned_bounds(bare.len() as int, step);
        align::aligned_shift(bare.len() as int, start, step);
        let held = if cut < bare.len() {
            cut
        } else {
            bare.len() as int
        };
        assert(contents.subrange(start, start + held) =~= bare.take(held));
        if cut < bare.len() {
            assert(contents.skip(start) =~= bare.take(cut));
        } else {
            assert(bare.take(held) =~= bare);
        }
        cut_rest_is_not_read(segment_number as u32, contents, start, last, true, Seq::empty(), step);
    } else {
        let record = aligned_record(segment_number, start, records[0], step);
        let rest = stream_bytes(segment_number, start + record.len(), records.skip(1), step);
        let bare = fragments(segment_number as u32, start, records[0]);
        framing::record_is_not_empty(FULL, segment_number as u32, start - FILE_HEADER_SIZE, records[0], true);
        align::aligned_bounds(bare.len() as int, step);
        align::multiples_add(start, record.len() as int, step);
        record_round_trip(segment_number, before, records[0], rest + tail_record.take(cut), alignment);
        assert(before + record + (rest + tail_record.take(cut)) =~= contents);
        assert((before + record) + rest + tail_record.take(cut) =~= contents);
        cut_stream_is_scanned(segment_number, before + record, records.skip(1), last, cut, alignment);
    }
}

/// What a record is depends on no byte after its end.
pub proof fn decoding_is_local(
    segment_number: u32,
    contents: Seq<u8>,
    other: Seq<u8>,
    position: int,
    end: int,
    alignment: int,
    fragmented: bool,
    gathered: Seq<u8>,
)
    requires
        alignment > 0,
        end <= contents.len(),
        end <= other.len(),
        contents.take(end) == other.take(end),
    ensures
        decoded(segment_number, contents, position, end, alignment, fragmented, gathered) == decoded(
            segment_number,
            other,
            position,
            end,
            alignment,
            fragmented,
            gathered,
        ),
    decreases end - position,
{
    let room = framing::room(position - FILE_HEADER_SIZE);
    let left = end - position;
    if left > 0 && position >= FILE_HEADER_SIZE {
        assert forall|from: int, to: int| 0 <= from <= to <= end implies #[trigger] contents.subrange(from, to)
            == other.subrange(from, to) by {
            assert(contents.subrange(from, to) =~= contents.take(end).subrange(from, to));
            assert(other.subrange(from, to) =~= other.take(end).subrange(from, to));
        }
        if room < HEADER_SIZE {
            let size = if left < room { left } else { room };
            decoding_is_local(
                segment_number,
                contents,
                other,
                position + size,
                end,
                alignment,
                fragmented,
                gathered,
            );
        } else {
            let bytes = tail(contents, position);
            assert(bytes.take(left) =~= contents.subrange(position, end));
            assert(tail(other, position).take(left) =~= other.subrange(position, end));
            framing::fragment_is_local(FULL, segment_number, bytes, tail(other, position), room, left);
            framing::fragment_is_inside(FULL, segment_number, bytes, room, left);
            if let Fragment::Valid(kind, fragment) = framing::fragment_at(FULL, segment_number, bytes, room, left) {
                let next = position + HEADER_SIZE + fragment.len();
                align::aligned_bounds(next, alignment);
                decoding_is_local(
                    segment_number,
                    contents,
                    other,
                    next,
                    end,
                    alignment,
                    true,
                    gathered + fragment,
                );
            }
        }
    }
}

/// Records that follow one another are those of a first part and those of the
/// rest.
pub proof fn stream_bytes_split(
    segment_number: u64,
    position: int,
    front: Seq<Seq<u8>>,
    back: Seq<Seq<u8>>,
    alignment: int,
)
    ensures
        stream_bytes(segment_number, position, front + back, alignment) == stream_bytes(
            segment_number,
            position,
            front,
            alignment,
        ) + stream_bytes(
            segment_number,
            position + stream_bytes(segment_number, position, front, alignment).len(),
            back,
            alignment,
        ),
    decreases front.len(),
{
    let whole = front + back;
    if front.len() == 0 {
        assert(whole =~= back);
        assert(Seq::<u8>::empty() + stream_bytes(segment_number, position, back, alignment) =~= stream_bytes(
            segment_number,
            position,
            back,
            alignment,
        ));
    } else {
        let record = aligned_record(segment_number, position, front[0], alignment);
        let rest = front.skip(1);
        assert(whole.skip(1) =~= rest + back);
        stream_bytes_split(segment_number, position + record.len(), rest, back, alignment);
        let first = stream_bytes(segment_number, position, front, alignment);
        assert(first == record + stream_bytes(segment_number, position + record.len(), rest, alignment));
        assert(stream_bytes(segment_number, position, whole, alignment) =~= first + stream_bytes(
            segment_number,
            position + first.len(),
            back,
            alignment,
        ));
    }
}

/// Fragments stand in order: one that starts a record does not stand inside
/// another, and one that continues a record does not stand alone. Only a record
/// that was begun can be cut off by zeros.
pub proof fn fragments_out_of_order_are_refused(
    segment_number: u32,
    contents: Seq<u8>,
    position: int,
    end: int,
    alignment: int,
    fragmented: bool,
    gathered: Seq<u8>,
)
    requires
        FILE_HEADER_SIZE <= position < end,
        framing::room(position - FILE_HEADER_SIZE) >= HEADER_SIZE,
    ensures
        ({
            let found = framing::fragment_at(
                FULL,
                segment_number,
                tail(contents, position),
                framing::room(position - FILE_HEADER_SIZE),
                end - position,
            );
            let outcome = decoded(segment_number, contents, position, end, alignment, fragmented, gathered);
            &&& found matches Fragment::Valid(kind, _) ==> ((kind == RecordType::Full || kind == RecordType::First)
                == fragmented ==> outcome is Faulty)
            &&& found is Faulty ==> outcome is Faulty || outcome is Nothing
            &&& outcome is Nothing ==> !fragmented || found is Valid
        }),
{
}

/// A record that is read starts with a fragment that was written for it.
pub proof fn read_record_was_checked(segment_number: u64, contents: Seq<u8>, position: int, end: int, alignment: int)
    requires
        FILE_HEADER_SIZE <= position < end,
        framing::room(position - FILE_HEADER_SIZE) >= HEADER_SIZE,
        decoded_record(segment_number, contents, position, end, alignment) is Record,
    ensures
        segment_number <= u32::MAX,
        ({
            let bytes = tail(contents, position);
            &&& framing::fragment_at(
                FULL,
                segment_number as u32,
                bytes,
                framing::room(position - FILE_HEADER_SIZE),
                end - position,
            ) matches Fragment::Valid(kind, part)
            &&& kind == RecordType::Full || kind == RecordType::First
            &&& HEADER_SIZE + part.len() <= bytes.len()
            &&& bytes.take(HEADER_SIZE + part.len()) == framing::fragment_bytes(
                kind.byte(FULL),
                segment_number as u32,
                part,
            )
        }),
{
    framing::valid_fragment_was_written(
        FULL,
        segment_number as u32,
        tail(contents, position),
        framing::room(position - FILE_HEADER_SIZE),
        end - position,
    );
}

/// A record ends at the first multiple of the alignment behind its fragments,
/// inside the file, and only zeros stand between.
pub proof fn padding_of_a_record_is_zero(contents: Seq<u8>, payload: Seq<u8>, position: int, end: int, alignment: int)
    requires
        alignment > 0,
        0 <= position,
        end <= contents.len(),
    ensures
        finished(contents, payload, position, end, alignment) matches Decoded::Record { next, payload: read } ==> {
            &&& read == payload
            &&& position <= next < position + alignment
            &&& next % alignment == 0
            &&& next <= end
            &&& forall|i: int| position <= i < next ==> contents[i] == 0
        },
{
    align::aligned_bounds(position, alignment);
    let next = align::aligned(position, alignment);
    if finished(contents, payload, position, end, alignment) is Record {
        assert forall|i: int| position <= i < next implies contents[i] == 0 by {
            assert(contents.subrange(position, next)[i - position] == 0);
        }
    }
}

/// A record can be encoded where four bytes hold the segment's number and 4096 is
/// a multiple of the alignment, and nowhere else.
pub proof fn records_have_whole_steps(segment_number: u64, alignment: usize)
    ensures
        encoding_error(segment_number, alignment) is None <==> segment_number <= 0xffff_ffff && alignment > 0
            && 4096int % alignment as int == 0,
{
}

/// A record whose fragments end at a multiple of the alignment has no padding.
pub proof fn whole_steps_have_no_padding(
    contents: Seq<u8>,
    payload: Seq<u8>,
    position: int,
    end: int,
    alignment: int,
)
    requires
        position % alignment == 0,
        position <= end,
        position <= u64::MAX,
    ensures
        finished(contents, payload, position, end, alignment) == (Decoded::Record { next: position, payload }),
{
}

} // verus!
