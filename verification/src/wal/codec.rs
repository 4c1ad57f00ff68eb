//! Logical record encoding and decoding.

use vstd::prelude::*;
use crate::bytestr;
use crate::crc;
use crate::framing;
use crate::framing::{Fragment, RecordFault, RecordType, BLOCK_SIZE, HEADER_SIZE};
use crate::le;
use crate::wal::error;
use crate::wal::error::{WalError, WalErrorView};
use crate::wal::source::Source;

verus! {

/// The byte that stands for a full record.
pub const FULL: u8 = 0;

/// The bytes of one record that starts at `position` of its segment.
pub open spec fn encoded(segment_number: u64, position: int, payload: Seq<u8>) -> Seq<u8> {
    framing::record_bytes(FULL, segment_number as u32, position, payload, true)
}

/// How one record is encoded, or why it is not.
pub open spec fn encoding_error(segment_number: u64, start: u64, payload: Seq<u8>) -> Option<WalErrorView> {
    if segment_number > u32::MAX {
        Some(WalErrorView::SegmentNumberTooLarge(segment_number))
    } else if payload.len() > usize::MAX || !framing::record_fits(
        FULL,
        segment_number as u32,
        start as int,
        payload,
    ) {
        Some(WalErrorView::PositionExhausted)
    } else {
        None
    }
}

/// What encoding one record adds to an output.
pub open spec fn encoding_output(segment_number: u64, start: u64, payload: Seq<u8>) -> Seq<u8> {
    if segment_number > u32::MAX || payload.len() > usize::MAX {
        Seq::empty()
    } else {
        framing::written_record(FULL, segment_number as u32, start as int, payload)
    }
}

/// Encodes one record whose payload is `prefix` followed by `payload`.
pub fn encode_record_parts(
    output: &mut Vec<u8>,
    segment_number: u64,
    start_position: u64,
    prefix: &[u8],
    payload: &[u8],
) -> (result: Result<(), WalError>)
    requires
        old(output)@.len() + encoding_output(segment_number, start_position, prefix@ + payload@).len() <= usize::MAX,
    ensures
        final(output)@ == old(output)@ + encoding_output(segment_number, start_position, prefix@ + payload@),
        match result {
            Ok(()) => encoding_error(segment_number, start_position, prefix@ + payload@) is None,
            Err(error) => encoding_error(segment_number, start_position, prefix@ + payload@) == Some(error@),
        },
{
    if segment_number > u32::MAX as u64 {
        assert(output@ =~= old(output)@ + Seq::<u8>::empty());
        return Err(WalError::SegmentNumberTooLarge(segment_number));
    }
    if prefix.len().checked_add(payload.len()).is_none() {
        assert(output@ =~= old(output)@ + Seq::<u8>::empty());
        return Err(WalError::PositionExhausted);
    }
    if framing::put_record(output, FULL, segment_number as u32, start_position, prefix, payload) {
        Ok(())
    } else {
        Err(WalError::PositionExhausted)
    }
}

/// Encodes one record.
pub fn encode_record(segment_number: u64, start_position: u64, payload: &[u8]) -> (result: Result<Vec<u8>, WalError>)
    requires
        encoding_output(segment_number, start_position, payload@).len() <= usize::MAX,
    ensures
        match result {
            Ok(bytes) => {
                &&& encoding_error(segment_number, start_position, payload@) is None
                &&& bytes@ == encoded(segment_number, start_position as int, payload@)
            },
            Err(error) => encoding_error(segment_number, start_position, payload@) == Some(error@),
        },
{
    let prefix: [u8; 0] = [];
    assert(prefix@ + payload@ =~= payload@);
    let mut output: Vec<u8> = Vec::new();
    match encode_record_parts(&mut output, segment_number, start_position, &prefix, payload) {
        Ok(()) => {
            assert(output@ =~= encoded(segment_number, start_position as int, payload@));
            Ok(output)
        },
        Err(error) => Err(error),
    }
}

/// What stands where a record should start.
pub enum Decoded {
    /// A whole record, and the position after it.
    Record { next: int, payload: Seq<u8> },
    Faulty(RecordFault),
    /// The bytes end before what the file is said to hold.
    Starved,
}

/// What stands at the start of `bytes`, which are the bytes of a segment from
/// `position` on, when the segment ends at `end`. Where `fragmented` holds,
/// `gathered` are the fragments of the record that were read before.
pub open spec fn decoded(
    segment_number: u32,
    bytes: Seq<u8>,
    position: int,
    end: int,
    fragmented: bool,
    gathered: Seq<u8>,
) -> Decoded
    decreases end - position,
{
    let room = framing::room(position);
    let left = end - position;
    if left <= 0 {
        Decoded::Faulty(RecordFault::Incomplete)
    } else if room < HEADER_SIZE {
        let size = if left < room { left } else { room };
        if bytes.len() < size {
            Decoded::Starved
        } else if !bytestr::is_zero(bytes.take(size)) {
            Decoded::Faulty(RecordFault::DirtyTrailer)
        } else {
            decoded(segment_number, bytes.skip(size), position + size, end, fragmented, gathered)
        }
    } else {
        proof {
            framing::fragment_is_inside(FULL, segment_number, bytes, room, left);
        }
        match framing::fragment_at(FULL, segment_number, bytes, room, left) {
            Fragment::Starved => Decoded::Starved,
            Fragment::Faulty(fault) => Decoded::Faulty(fault),
            Fragment::Valid(kind, fragment) => {
                let size = HEADER_SIZE + fragment.len();
                let next = position + size;
                match kind {
                    RecordType::Full => if fragmented {
                        Decoded::Faulty(RecordFault::FullInside)
                    } else {
                        Decoded::Record { next, payload: fragment }
                    },
                    RecordType::First => if fragmented {
                        Decoded::Faulty(RecordFault::FirstInside)
                    } else {
                        decoded(segment_number, bytes.skip(size), next, end, true, gathered + fragment)
                    },
                    RecordType::Middle => if !fragmented {
                        Decoded::Faulty(RecordFault::MiddleAlone)
                    } else {
                        decoded(segment_number, bytes.skip(size), next, end, true, gathered + fragment)
                    },
                    RecordType::Last => if !fragmented {
                        Decoded::Faulty(RecordFault::LastAlone)
                    } else {
                        Decoded::Record { next, payload: gathered + fragment }
                    },
                }
            },
        }
    }
}

/// What stands where a record should start, read from a segment with the
/// given number.
pub open spec fn decoded_record(segment_number: u64, bytes: Seq<u8>, position: int, end: int) -> Decoded {
    if segment_number > u32::MAX {
        Decoded::Faulty(RecordFault::SegmentNumberRange)
    } else {
        decoded(segment_number as u32, bytes, position, end, false, Seq::empty())
    }
}

/// Reads one fragment, and says what its type and payload are and how many
/// bytes it takes.
pub fn decode_fragment<S: Source>(
    reader: &mut S,
    path: &str,
    expected_segment_number: u32,
    block_remaining: usize,
    file_remaining: u64,
) -> (result: Result<(RecordType, Vec<u8>, u64), WalError>)
    requires
        old(reader).usable(),
    ensures
        final(reader).usable(),
        final(reader).dependable() == old(reader).dependable(),
        file_remaining < HEADER_SIZE ==> final(reader).remaining() == old(reader).remaining(),
        ({
            let fragment = framing::fragment_at(
                FULL,
                expected_segment_number,
                old(reader).remaining(),
                block_remaining as int,
                file_remaining as int,
            );
            match result {
                Ok((kind, payload, size)) => {
                    &&& fragment == Fragment::Valid(kind, payload@)
                    &&& size == HEADER_SIZE + payload@.len()
                    &&& size <= block_remaining
                    &&& size <= file_remaining
                    &&& final(reader).remaining() == old(reader).remaining().skip(size as int)
                },
                Err(WalError::Io(_)) => old(reader).dependable() ==> fragment is Starved,
                Err(error) => fragment matches Fragment::Faulty(fault) && error@ == error::record_error(path@, fault),
            }
        }),
{
    let ghost bytes = reader.remaining();
    proof {
        reveal(framing::fragment_at);
    }
    if file_remaining < HEADER_SIZE as u64 {
        return Err(WalError::record(path, RecordFault::HeaderCut));
    }
    let header: Vec<u8> = match reader.read_exact(HEADER_SIZE) {
        Ok(header) => header,
        Err(error) => {
            return Err(WalError::io(error));
        },
    };
    if bytestr::all_zero(&header) {
        return Err(WalError::record(path, RecordFault::ZeroHeader));
    }
    let expected_checksum: u32 = le::get_u32(&header, 0);
    let payload_size: usize = le::get_u16(&header, 4) as usize;
    let kind_byte: u8 = header[6];
    let segment_number: u32 = le::get_u32(&header, 7);
    let record_size: usize = HEADER_SIZE + payload_size;
    if record_size > block_remaining {
        return Err(WalError::record(path, RecordFault::CrossesBlock));
    }
    if record_size as u64 > file_remaining {
        return Err(WalError::record(path, RecordFault::BodyCut));
    }
    if segment_number != expected_segment_number {
        return Err(WalError::record(path, RecordFault::WrongSegment));
    }
    let kind: RecordType = match RecordType::decode(FULL, kind_byte) {
        Ok(kind) => kind,
        Err(fault) => {
            return Err(WalError::record(path, fault));
        },
    };
    let payload: Vec<u8> = match reader.read_exact(payload_size) {
        Ok(payload) => payload,
        Err(error) => {
            return Err(WalError::io(error));
        },
    };
    proof {
        assert(payload@ =~= bytes.subrange(HEADER_SIZE as int, record_size as int));
        assert(reader.remaining() =~= bytes.skip(record_size as int));
    }
    if crc::physical_checksum(kind_byte, segment_number, &payload) != expected_checksum {
        return Err(WalError::record(path, RecordFault::ChecksumMismatch));
    }
    Ok((kind, payload, record_size as u64))
}

/// Reads the record that starts at `start_position` of a segment that ends at
/// `file_end`, and says at which position the next one starts.
pub fn decode_record<S: Source>(
    reader: &mut S,
    path: &str,
    segment_number: u64,
    start_position: u64,
    file_end: u64,
) -> (result: Result<(u64, Vec<u8>), WalError>)
    requires
        old(reader).usable(),
    ensures
        final(reader).usable(),
        final(reader).dependable() == old(reader).dependable(),
        segment_number > u32::MAX || start_position >= file_end ==> final(reader).remaining() == old(
            reader,
        ).remaining(),
        ({
            let decoded = decoded_record(
                segment_number,
                old(reader).remaining(),
                start_position as int,
                file_end as int,
            );
            match result {
                Ok((next, payload)) => {
                    &&& decoded == (Decoded::Record { next: next as int, payload: payload@ })
                    &&& start_position < next <= file_end
                    &&& final(reader).remaining() == old(reader).remaining().skip(next - start_position)
                },
                Err(WalError::Io(_)) => {
                    &&& segment_number <= u32::MAX
                    &&& start_position < file_end
                    &&& old(reader).dependable() ==> decoded is Starved
                },
                Err(error) => decoded matches Decoded::Faulty(fault) && error@ == error::record_error(path@, fault),
            }
        }),
{
    if segment_number > u32::MAX as u64 {
        return Err(WalError::record(path, RecordFault::SegmentNumberRange));
    }
    let number: u32 = segment_number as u32;
    let ghost bytes = reader.remaining();
    let ghost wanted = decoded_record(segment_number, bytes, start_position as int, file_end as int);
    let mut position: u64 = start_position;
    let mut fragments: Vec<u8> = Vec::new();
    let mut fragmented: bool = false;
    assert(bytes.skip(0) =~= bytes);

    loop
        invariant
            segment_number <= u32::MAX,
            start_position <= position,
            position > start_position ==> position <= file_end,
            reader.usable(),
            reader.dependable() == old(reader).dependable(),
            bytes == old(reader).remaining(),
            position - start_position <= bytes.len(),
            reader.remaining() == bytes.skip(position - start_position),
            wanted == decoded_record(segment_number, bytes, start_position as int, file_end as int),
            wanted == decoded(
                number,
                reader.remaining(),
                position as int,
                file_end as int,
                fragmented,
                fragments@,
            ),
            !fragmented ==> fragments@.len() == 0,
        decreases file_end - position,
    {
        if position >= file_end {
            return Err(WalError::record(path, RecordFault::Incomplete));
        }
        let block_remaining: usize = BLOCK_SIZE - (position % (BLOCK_SIZE as u64)) as usize;
        let file_remaining: u64 = file_end - position;
        let ghost here = reader.remaining();
        if block_remaining < HEADER_SIZE {
            let trailer_size: usize = if file_remaining < block_remaining as u64 {
                file_remaining as usize
            } else {
                block_remaining
            };
            let trailer: Vec<u8> = match reader.read_exact(trailer_size) {
                Ok(trailer) => trailer,
                Err(error) => {
                    return Err(WalError::io(error));
                },
            };
            if !bytestr::all_zero(&trailer) {
                return Err(WalError::record(path, RecordFault::DirtyTrailer));
            }
            position += trailer_size as u64;
            assert(here.skip(trailer_size as int) =~= bytes.skip(position - start_position));
            continue;
        }
        let (kind, fragment, consumed) = match decode_fragment(
            reader,
            path,
            number,
            block_remaining,
            file_remaining,
        ) {
            Ok(decoded) => decoded,
            Err(error) => {
                return Err(error);
            },
        };
        proof {
            framing::fragment_is_inside(FULL, number, here, block_remaining as int, file_remaining as int);
        }
        position += consumed;
        assert(here.skip(consumed as int) =~= bytes.skip(position - start_position));
        match kind {
            RecordType::Full => {
                if fragmented {
                    return Err(WalError::record(path, RecordFault::FullInside));
                }
                return Ok((position, fragment));
            },
            RecordType::First => {
                if fragmented {
                    return Err(WalError::record(path, RecordFault::FirstInside));
                }
                fragmented = true;
                bytestr::put_bytes(&mut fragments, &fragment);
            },
            RecordType::Middle => {
                if !fragmented {
                    return Err(WalError::record(path, RecordFault::MiddleAlone));
                }
                bytestr::put_bytes(&mut fragments, &fragment);
            },
            RecordType::Last => {
                if !fragmented {
                    return Err(WalError::record(path, RecordFault::LastAlone));
                }
                bytestr::put_bytes(&mut fragments, &fragment);
                return Ok((position, fragments));
            },
        }
    }
}

/// A record stands inside the segment, and its payload inside the record.
pub proof fn record_is_inside(
    segment_number: u32,
    bytes: Seq<u8>,
    position: int,
    end: int,
    fragmented: bool,
    gathered: Seq<u8>,
)
    ensures
        decoded(segment_number, bytes, position, end, fragmented, gathered) matches Decoded::Record { next, payload }
            ==> {
            &&& position < next <= end
            &&& payload.len() <= gathered.len() + (next - position)
        },
    decreases end - position,
{
    let room = framing::room(position);
    let left = end - position;
    if left <= 0 {
    } else if room < HEADER_SIZE {
        let size = if left < room { left } else { room };
        record_is_inside(segment_number, bytes.skip(size), position + size, end, fragmented, gathered);
    } else {
        framing::fragment_is_inside(FULL, segment_number, bytes, room, left);
        if let Fragment::Valid(kind, fragment) = framing::fragment_at(FULL, segment_number, bytes, room, left) {
            let size = HEADER_SIZE + fragment.len();
            record_is_inside(segment_number, bytes.skip(size), position + size, end, true, gathered + fragment);
        }
    }
}

/// Decoding does not run out of bytes that the segment holds.
pub proof fn held_bytes_suffice(
    segment_number: u32,
    bytes: Seq<u8>,
    position: int,
    end: int,
    fragmented: bool,
    gathered: Seq<u8>,
)
    requires
        bytes.len() >= end - position,
    ensures
        !(decoded(segment_number, bytes, position, end, fragmented, gathered) is Starved),
    decreases end - position,
{
    let room = framing::room(position);
    let left = end - position;
    if left <= 0 {
    } else if room < HEADER_SIZE {
        let size = if left < room { left } else { room };
        held_bytes_suffice(segment_number, bytes.skip(size), position + size, end, fragmented, gathered);
    } else {
        framing::fragment_is_inside(FULL, segment_number, bytes, room, left);
        framing::held_fragment(FULL, segment_number, bytes, room, left);
        if let Fragment::Valid(kind, fragment) = framing::fragment_at(FULL, segment_number, bytes, room, left) {
            let size = HEADER_SIZE + fragment.len();
            held_bytes_suffice(
                segment_number,
                bytes.skip(size),
                position + size,
                end,
                true,
                gathered + fragment,
            );
        }
    }
}

proof fn rest_of_record_is_read(
    segment_number: u32,
    position: int,
    payload: Seq<u8>,
    first: bool,
    gathered: Seq<u8>,
    rest: Seq<u8>,
    end: int,
)
    requires
        first ==> gathered.len() == 0,
        !first ==> payload.len() > 0,
        !framing::is_blank(FULL, segment_number, payload),
        position + framing::record_bytes(FULL, segment_number, position, payload, first).len() <= end,
    ensures
        ({
            let record = framing::record_bytes(FULL, segment_number, position, payload, first);
            decoded(segment_number, record + rest, position, end, !first, gathered) == (Decoded::Record {
                next: position + record.len(),
                payload: gathered + payload,
            })
        }),
    decreases
        payload.len(),
        (if framing::room(position) < HEADER_SIZE {
            2int
        } else if framing::room(position) == HEADER_SIZE {
            1
        } else {
            0
        }),
{
    let room = framing::room(position);
    let record = framing::record_bytes(FULL, segment_number, position, payload, first);
    let bytes = record + rest;
    if room < HEADER_SIZE {
        let tail = framing::record_bytes(FULL, segment_number, position + room, payload, first);
        framing::record_is_not_empty(FULL, segment_number, position + room, payload, first);
        assert(bytes.take(room) =~= bytestr::zeros(room));
        assert(bytes.skip(room) =~= tail + rest);
        rest_of_record_is_read(segment_number, position + room, payload, first, gathered, rest, end);
    } else {
        let size = framing::portion(payload.len(), room);
        let last = size == payload.len();
        let kind = RecordType::placed(first, last);
        let fragment = framing::fragment_bytes(kind.byte(FULL), segment_number, payload.take(size));
        framing::fragment_size(kind.byte(FULL), segment_number, payload.take(size));
        if last {
            assert(payload.take(size) =~= payload);
            framing::fragment_round_trip(FULL, kind, segment_number, payload, rest, room, end - position);
            if first {
                assert(gathered + payload =~= payload);
            }
        } else {
            let next = position + HEADER_SIZE + size;
            let tail = framing::record_bytes(FULL, segment_number, next, payload.skip(size), false);
            framing::fragment_round_trip(
                FULL,
                kind,
                segment_number,
                payload.take(size),
                tail + rest,
                room,
                end - position,
            );
            assert(bytes =~= fragment + (tail + rest));
            assert(bytes.skip(HEADER_SIZE + size) =~= tail + rest);
            rest_of_record_is_read(
                segment_number,
                next,
                payload.skip(size),
                false,
                gathered + payload.take(size),
                rest,
                end,
            );
            assert(gathered + payload.take(size) + payload.skip(size) =~= gathered + payload);
        }
    }
}

/// A record is read back as it was written, wherever it starts and whatever
/// follows it. The one exception is an empty record of segment zero, if its
/// checksum makes its header all zeros.
pub proof fn record_round_trip(segment_number: u64, position: int, payload: Seq<u8>, rest: Seq<u8>, end: int)
    requires
        segment_number <= u32::MAX,
        position + encoded(segment_number, position, payload).len() <= end,
    ensures
        !framing::is_blank(FULL, segment_number as u32, payload) ==> decoded_record(
            segment_number,
            encoded(segment_number, position, payload) + rest,
            position,
            end,
        ) == (Decoded::Record {
            next: position + encoded(segment_number, position, payload).len(),
            payload,
        }),
{
    if !framing::is_blank(FULL, segment_number as u32, payload) {
        rest_of_record_is_read(segment_number as u32, position, payload, true, Seq::empty(), rest, end);
        assert(Seq::<u8>::empty() + payload =~= payload);
    }
}

proof fn rest_of_record_is_cut(
    segment_number: u32,
    position: int,
    payload: Seq<u8>,
    first: bool,
    gathered: Seq<u8>,
    cut: int,
)
    requires
        0 <= cut < framing::record_bytes(FULL, segment_number, position, payload, first).len(),
    ensures
        decoded(
            segment_number,
            framing::record_bytes(FULL, segment_number, position, payload, first).take(cut),
            position,
            position + cut,
            !first,
            gathered,
        ) matches Decoded::Faulty(fault) && error::is_truncation(fault),
    decreases
        payload.len(),
        (if framing::room(position) < HEADER_SIZE {
            2int
        } else if framing::room(position) == HEADER_SIZE {
            1
        } else {
            0
        }),
{
    let room = framing::room(position);
    let record = framing::record_bytes(FULL, segment_number, position, payload, first);
    let bytes = record.take(cut);
    let end = position + cut;
    if cut == 0 {
    } else if room < HEADER_SIZE {
        let tail = framing::record_bytes(FULL, segment_number, position + room, payload, first);
        if cut <= room {
            assert(bytes.take(cut) =~= bytestr::zeros(cut));
            assert(decoded(segment_number, bytes.skip(cut), end, end, !first, gathered) == Decoded::Faulty(
                RecordFault::Incomplete,
            ));
        } else {
            assert(bytes.take(room) =~= bytestr::zeros(room));
            assert(bytes.skip(room) =~= tail.take(cut - room));
            rest_of_record_is_cut(segment_number, position + room, payload, first, gathered, cut - room);
        }
    } else {
        let size = framing::portion(payload.len(), room);
        let last = size == payload.len();
        let kind = RecordType::placed(first, last);
        let fragment = framing::fragment_bytes(kind.byte(FULL), segment_number, payload.take(size));
        framing::fragment_size(kind.byte(FULL), segment_number, payload.take(size));
        if cut < HEADER_SIZE + size {
            framing::cut_fragment(FULL, kind, segment_number, payload.take(size), room, cut);
            assert(bytes =~= fragment.take(cut));
        } else {
            let next = position + HEADER_SIZE + size;
            let tail = framing::record_bytes(FULL, segment_number, next, payload.skip(size), false);
            let rest = tail.take(cut - HEADER_SIZE - size);
            framing::fragment_round_trip(FULL, kind, segment_number, payload.take(size), rest, room, cut);
            assert(bytes =~= fragment + rest);
            assert(bytes.skip(HEADER_SIZE + size) =~= rest);
            rest_of_record_is_cut(
                segment_number,
                next,
                payload.skip(size),
                false,
                gathered + payload.take(size),
                cut - HEADER_SIZE - size,
            );
        }
    }
}

/// A record that is cut anywhere at the end of a segment is reported as
/// truncated, never as corrupt.
pub proof fn cut_record_is_truncated(segment_number: u64, position: int, payload: Seq<u8>, cut: int)
    requires
        segment_number <= u32::MAX,
        0 <= cut < encoded(segment_number, position, payload).len(),
    ensures
        decoded_record(
            segment_number,
            encoded(segment_number, position, payload).take(cut),
            position,
            position + cut,
        ) matches Decoded::Faulty(fault) && error::is_truncation(fault),
{
    rest_of_record_is_cut(segment_number as u32, position, payload, true, Seq::empty(), cut);
}

/// A record is encoded alike wherever its payload is split in two, and behind
/// whatever the output held before.
pub proof fn parts_are_encoded_as_a_whole(segment_number: u64, start: u64, prefix: Seq<u8>, payload: Seq<u8>)
    requires
        encoding_error(segment_number, start, prefix + payload) is None,
    ensures
        encoding_output(segment_number, start, prefix + payload) == encoded(
            segment_number,
            start as int,
            prefix + payload,
        ),
{
}

/// Fragments stand in order: one that starts a record does not stand inside
/// another, and one that continues a record does not stand alone. That is
/// damage, and no cut.
pub proof fn fragments_out_of_order_are_damage(
    segment_number: u32,
    bytes: Seq<u8>,
    position: int,
    end: int,
    fragmented: bool,
    gathered: Seq<u8>,
)
    requires
        position < end,
        framing::room(position) >= HEADER_SIZE,
    ensures
        framing::fragment_at(FULL, segment_number, bytes, framing::room(position), end - position) matches
            Fragment::Valid(kind, _) ==> {
            let starts = kind == RecordType::Full || kind == RecordType::First;
            starts == fragmented ==> (decoded(segment_number, bytes, position, end, fragmented, gathered) matches
                Decoded::Faulty(fault) && !error::is_truncation(fault))
        },
{
}

/// A record whose fragments are not what was written is not read: the first
/// fragment of one that is read has the segment's number and a checksum that
/// covers its type, that number and its payload.
pub proof fn read_record_was_checked(segment_number: u64, bytes: Seq<u8>, position: int, end: int)
    requires
        0 <= position,
        framing::room(position) >= HEADER_SIZE,
        decoded_record(segment_number, bytes, position, end) is Record,
    ensures
        segment_number <= u32::MAX,
        ({
            &&& framing::fragment_at(
                FULL,
                segment_number as u32,
                bytes,
                framing::room(position),
                end - position,
            ) matches Fragment::Valid(kind, part)
            &&& kind == RecordType::Full || kind == RecordType::First
            &&& HEADER_SIZE + part.len() <= bytes.len()
            &&& bytes.take(HEADER_SIZE + part.len()) == framing::fragment_bytes(
                kind.byte(FULL),
                segment_number as u32,
                part,
            )
        }),
{
    framing::valid_fragment_was_written(
        FULL,
        segment_number as u32,
        bytes,
        framing::room(position),
        end - position,
    );
}

/// A segment whose number four bytes cannot hold takes no record. One with a
/// smaller number takes every record that memory holds and that ends at a
/// position of eight bytes.
pub proof fn numbers_of_records_fit_four_bytes(segment_number: u64, start: u64, payload: Seq<u8>)
    ensures
        segment_number > 0xffff_ffff ==> encoding_error(segment_number, start, payload) == Some(
            WalErrorView::SegmentNumberTooLarge(segment_number),
        ) && encoding_output(segment_number, start, payload).len() == 0,
        segment_number <= 0xffff_ffff && payload.len() <= usize::MAX && framing::record_fits(
            FULL,
            segment_number as u32,
            start as int,
            payload,
        ) ==> encoding_error(segment_number, start, payload) is None,
        encoding_error(segment_number, start, payload) is None ==> segment_number <= 0xffff_ffff && payload.len()
            <= usize::MAX && framing::record_fits(FULL, segment_number as u32, start as int, payload),
{
}

} // verus!
