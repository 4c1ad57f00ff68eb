//! Physical framing of logical records.
//!
//! ```text
//! 32 KiB record block
//! +----------+-------+------+-----------+------------------+
//! | CRC32C:4 | len:2 | type | segment:4 | fragment payload |
//! +----------+-------+------+-----------+------------------+
//! ... FULL or FIRST / MIDDLE / LAST fragments ...
//! zero trailer where fewer than 11 bytes remain in the block
//! ```
//!
//! A record that does not fit in the rest of a block continues in the next
//! one. The two record formats of this crate share the framing and differ in
//! the code of the first record type.

use vstd::prelude::*;
use crate::bytestr;
use crate::crc;
use crate::le;
use crate::text;

verus! {

broadcast use {crate::le::u32_width, crate::le::u64_width};

/// Size of a record block.
pub const BLOCK_SIZE: usize = 32_768;

/// Size of a fragment's header.
pub const HEADER_SIZE: usize = 11;

/// The place of a fragment in its logical record.
#[derive(Debug, Clone, Copy, PartialEq, Eq, Structural)]
pub enum RecordType {
    Full,
    First,
    Middle,
    Last,
}

impl RecordType {
    /// The type of a fragment that opens or continues a record, and that ends
    /// it or not.
    pub open spec fn placed(first: bool, last: bool) -> RecordType {
        if first && last {
            RecordType::Full
        } else if first {
            RecordType::First
        } else if last {
            RecordType::Last
        } else {
            RecordType::Middle
        }
    }

    /// The byte that stands for the type, where `full` stands for a full record.
    pub open spec fn byte(self, full: u8) -> u8 {
        match self {
            RecordType::Full => full,
            RecordType::First => (full + 1) as u8,
            RecordType::Middle => (full + 2) as u8,
            RecordType::Last => (full + 3) as u8,
        }
    }

    /// The type that a byte stands for.
    pub open spec fn named(full: u8, value: u8) -> Option<RecordType> {
        if value == full {
            Some(RecordType::Full)
        } else if value == full + 1 {
            Some(RecordType::First)
        } else if value == full + 2 {
            Some(RecordType::Middle)
        } else if value == full + 3 {
            Some(RecordType::Last)
        } else {
            None
        }
    }

    /// The type of a fragment that opens or continues a record, and that ends
    /// it or not.
    pub fn place(first: bool, last: bool) -> (placed: RecordType)
        ensures
            placed == RecordType::placed(first, last),
    {
        match (first, last) {
            (true, true) => RecordType::Full,
            (true, false) => RecordType::First,
            (false, true) => RecordType::Last,
            (false, false) => RecordType::Middle,
        }
    }

    /// The byte that stands for the type, where `full` stands for a full record.
    pub fn encode(self, full: u8) -> (value: u8)
        requires
            full <= 5,
        ensures
            value == self.byte(full),
    {
        match self {
            RecordType::Full => full,
            RecordType::First => full + 1,
            RecordType::Middle => full + 2,
            RecordType::Last => full + 3,
        }
    }

    /// The type that a byte stands for, or what is wrong with the byte.
    pub fn decode(full: u8, value: u8) -> (decoded: Result<RecordType, RecordFault>)
        requires
            full <= 5,
        ensures
            match decoded {
                Ok(kind) => RecordType::named(full, value) == Some(kind),
                Err(fault) => {
                    &&& RecordType::named(full, value) is None
                    &&& fault == RecordFault::UnknownType(value)
                },
            },
    {
        if value == full {
            Ok(RecordType::Full)
        } else if value == full + 1 {
            Ok(RecordType::First)
        } else if value == full + 2 {
            Ok(RecordType::Middle)
        } else if value == full + 3 {
            Ok(RecordType::Last)
        } else {
            Err(RecordFault::UnknownType(value))
        }
    }
}

/// What is wrong with the bytes where a record should stand.
#[derive(Debug, Clone, Copy, PartialEq, Eq, Structural)]
pub enum RecordFault {
    SegmentNumberRange,
    Incomplete,
    DirtyTrailer,
    HeaderCut,
    ZeroHeader,
    CrossesBlock,
    BodyCut,
    WrongSegment,
    UnknownType(u8),
    ChecksumMismatch,
    FullInside,
    FirstInside,
    MiddleAlone,
    LastAlone,
    BeforeFileHeader,
    IncompleteFragments,
    IncompleteFragmentsAtEnd,
    PaddingCut,
    DirtyPadding,
    DirtyPage,
}

impl RecordFault {
    /// The fault in words.
    pub open spec fn words(self) -> Seq<char> {
        match self {
            RecordFault::SegmentNumberRange => "segment number exceeds u32"@,
            RecordFault::Incomplete => "incomplete record at end of file"@,
            RecordFault::DirtyTrailer => "non-zero bytes in a block trailer"@,
            RecordFault::HeaderCut => "truncated physical record header"@,
            RecordFault::ZeroHeader => "zeroed physical record header"@,
            RecordFault::CrossesBlock => "physical record crosses a block boundary"@,
            RecordFault::BodyCut => "truncated physical record body"@,
            RecordFault::WrongSegment => "physical record segment number mismatch"@,
            RecordFault::UnknownType(value) => "invalid physical record type "@ + text::decimal(value as nat),
            RecordFault::ChecksumMismatch => "physical record checksum mismatch"@,
            RecordFault::FullInside => "full record found inside fragmented record"@,
            RecordFault::FirstInside => "first fragment found inside fragmented record"@,
            RecordFault::MiddleAlone => "middle fragment without first fragment"@,
            RecordFault::LastAlone => "last fragment without first fragment"@,
            RecordFault::BeforeFileHeader => "record starts before file header"@,
            RecordFault::IncompleteFragments => "incomplete fragmented record"@,
            RecordFault::IncompleteFragmentsAtEnd => "incomplete fragmented record at end of file"@,
            RecordFault::PaddingCut => "truncated record alignment padding"@,
            RecordFault::DirtyPadding => "non-zero bytes in record alignment padding"@,
            RecordFault::DirtyPage => "non-zero bytes after padding marker"@,
        }
    }

    /// The fault in words.
    pub fn message(self) -> (message: String)
        ensures
            message@ == self.words(),
    {
        let fixed = match self {
            RecordFault::SegmentNumberRange => "segment number exceeds u32",
            RecordFault::Incomplete => "incomplete record at end of file",
            RecordFault::DirtyTrailer => "non-zero bytes in a block trailer",
            RecordFault::HeaderCut => "truncated physical record header",
            RecordFault::ZeroHeader => "zeroed physical record header",
            RecordFault::CrossesBlock => "physical record crosses a block boundary",
            RecordFault::BodyCut => "truncated physical record body",
            RecordFault::WrongSegment => "physical record segment number mismatch",
            RecordFault::UnknownType(value) => {
                let mut message: String = String::from_str("invalid physical record type ");
                text::push_decimal(&mut message, value as u64);
                return message;
            },
            RecordFault::ChecksumMismatch => "physical record checksum mismatch",
            RecordFault::FullInside => "full record found inside fragmented record",
            RecordFault::FirstInside => "first fragment found inside fragmented record",
            RecordFault::MiddleAlone => "middle fragment without first fragment",
            RecordFault::LastAlone => "last fragment without first fragment",
            RecordFault::BeforeFileHeader => "record starts before file header",
            RecordFault::IncompleteFragments => "incomplete fragmented record",
            RecordFault::IncompleteFragmentsAtEnd => "incomplete fragmented record at end of file",
            RecordFault::PaddingCut => "truncated record alignment padding",
            RecordFault::DirtyPadding => "non-zero bytes in record alignment padding",
            RecordFault::DirtyPage => "non-zero bytes after padding marker",
        };
        String::from_str(fixed)
    }
}

/// How many bytes are left in the block that holds `position`.
pub open spec fn room(position: int) -> int {
    BLOCK_SIZE - position % (BLOCK_SIZE as int)
}

/// A fragment's header.
pub open spec fn header_bytes(kind: u8, segment_number: u32, payload: Seq<u8>) -> Seq<u8> {
    le::u32_bytes(crc::physical_checksum_of(kind, segment_number, payload)) + le::u16_bytes(payload.len() as u16)
        + seq![kind] + le::u32_bytes(segment_number)
}

/// One physical fragment.
#[verifier::opaque]
pub open spec fn fragment_bytes(kind: u8, segment_number: u32, payload: Seq<u8>) -> Seq<u8> {
    header_bytes(kind, segment_number, payload) + payload
}

/// How much of `size` payload bytes fits in a block with `room` bytes left.
pub open spec fn portion(size: nat, room: int) -> int {
    if size < room - HEADER_SIZE {
        size as int
    } else {
        room - HEADER_SIZE
    }
}

/// The fragments of a logical record that starts at `position` of the block
/// grid, or of the rest of one where `first` does not hold.
pub open spec fn record_bytes(
    full: u8,
    segment_number: u32,
    position: int,
    payload: Seq<u8>,
    first: bool,
) -> Seq<u8>
    decreases payload.len(), (if room(position) < HEADER_SIZE { 2int } else if room(position) == HEADER_SIZE { 1 } else { 0 }),
{
    let left = room(position);
    if left < HEADER_SIZE {
        bytestr::zeros(left) + record_bytes(full, segment_number, position + left, payload, first)
    } else {
        let size = portion(payload.len(), left);
        let last = size == payload.len();
        let kind = RecordType::placed(first, last).byte(full);
        let fragment = fragment_bytes(kind, segment_number, payload.take(size));
        if last {
            fragment
        } else {
            fragment + record_bytes(full, segment_number, position + HEADER_SIZE + size, payload.skip(size), false)
        }
    }
}

/// What stands where a fragment should start.
pub enum Fragment {
    /// A whole fragment with a valid checksum.
    Valid(RecordType, Seq<u8>),
    Faulty(RecordFault),
    /// The bytes end before what the file is said to hold.
    Starved,
}

/// What stands at the start of `bytes`, where the block has `room` bytes left
/// and the file `left` bytes.
#[verifier::opaque]
pub open spec fn fragment_at(full: u8, segment_number: u32, bytes: Seq<u8>, room: int, left: int) -> Fragment {
    let header = bytes.take(HEADER_SIZE as int);
    let size = le::u16_value(header.subrange(4, 6));
    let end = HEADER_SIZE + size;
    if left < HEADER_SIZE {
        Fragment::Faulty(RecordFault::HeaderCut)
    } else if bytes.len() < HEADER_SIZE {
        Fragment::Starved
    } else if bytestr::is_zero(header) {
        Fragment::Faulty(RecordFault::ZeroHeader)
    } else if end > room {
        Fragment::Faulty(RecordFault::CrossesBlock)
    } else if end > left {
        Fragment::Faulty(RecordFault::BodyCut)
    } else if le::u32_value(header.subrange(7, 11)) != segment_number {
        Fragment::Faulty(RecordFault::WrongSegment)
    } else if RecordType::named(full, header[6]) is None {
        Fragment::Faulty(RecordFault::UnknownType(header[6]))
    } else if bytes.len() < end {
        Fragment::Starved
    } else if crc::physical_checksum_of(header[6], segment_number, bytes.subrange(HEADER_SIZE as int, end))
        != le::u32_value(header.subrange(0, 4)) {
        Fragment::Faulty(RecordFault::ChecksumMismatch)
    } else {
        Fragment::Valid(RecordType::named(full, header[6])->0, bytes.subrange(HEADER_SIZE as int, end))
    }
}

/// A valid fragment stands inside its block, its file and the bytes.
pub proof fn fragment_is_inside(full: u8, segment_number: u32, bytes: Seq<u8>, room: int, left: int)
    ensures
        fragment_at(full, segment_number, bytes, room, left) matches Fragment::Valid(_, payload) ==> {
            &&& HEADER_SIZE + payload.len() <= room
            &&& HEADER_SIZE + payload.len() <= left
            &&& HEADER_SIZE + payload.len() <= bytes.len()
            &&& payload == bytes.subrange(HEADER_SIZE as int, HEADER_SIZE + payload.len())
        },
{
    reveal(fragment_at);
}

/// Reading a fragment does not run out of bytes that the file holds.
pub proof fn held_fragment(full: u8, segment_number: u32, bytes: Seq<u8>, room: int, left: int)
    requires
        bytes.len() >= left,
    ensures
        !(fragment_at(full, segment_number, bytes, room, left) is Starved),
{
    reveal(fragment_at);
}

/// A fragment is its header and its payload.
pub proof fn fragment_size(kind: u8, segment_number: u32, payload: Seq<u8>)
    ensures
        fragment_bytes(kind, segment_number, payload).len() == HEADER_SIZE + payload.len(),
{
    reveal(fragment_bytes);
}

/// Whether a fragment's header is nothing but zeros: an empty record of
/// segment zero, in the format whose full records are marked by zero, and
/// only if its checksum is zero as well.
pub open spec fn is_blank(kind: u8, segment_number: u32, payload: Seq<u8>) -> bool {
    &&& kind == 0
    &&& segment_number == 0
    &&& payload.len() == 0
    &&& crc::physical_checksum_of(kind, segment_number, payload) == 0
}

/// The fields of a fragment's header, where the header is what the given
/// bytes start with.
proof fn header_fields(kind: u8, segment_number: u32, payload: Seq<u8>, bytes: Seq<u8>)
    requires
        payload.len() <= 0xffff,
        bytes.len() >= HEADER_SIZE,
        bytes.take(HEADER_SIZE as int) == header_bytes(kind, segment_number, payload),
    ensures
        ({
            let header = bytes.take(HEADER_SIZE as int);
            &&& le::u32_value(header.subrange(0, 4)) == crc::physical_checksum_of(kind, segment_number, payload)
            &&& le::u16_value(header.subrange(4, 6)) == payload.len()
            &&& header[6] == kind
            &&& le::u32_value(header.subrange(7, 11)) == segment_number
            &&& bytestr::is_zero(header) == is_blank(kind, segment_number, payload)
        }),
{
    let header = bytes.take(HEADER_SIZE as int);
    let checksum = crc::physical_checksum_of(kind, segment_number, payload);
    let size = payload.len() as u16;
    le::u32_round_trip(checksum);
    le::u16_round_trip(size);
    le::u32_round_trip(segment_number);
    assert(header.subrange(0, 4) =~= le::u32_bytes(checksum));
    assert(header.subrange(4, 6) =~= le::u16_bytes(size));
    assert(header.subrange(7, 11) =~= le::u32_bytes(segment_number));
    if bytestr::is_zero(header) {
        assert(le::u32_bytes(checksum) =~= bytestr::zeros(4));
        assert(le::u16_bytes(size) =~= bytestr::zeros(2));
        assert(le::u32_bytes(segment_number) =~= bytestr::zeros(4));
        assert(bytestr::zeros(4) =~= le::u32_bytes(0)) by {
            reveal(le::u32_bytes);
        }
        assert(bytestr::zeros(2) =~= le::u16_bytes(0));
        le::u32_round_trip(0);
        le::u16_round_trip(0);
        assert(header[6] == 0);
        assert(checksum == 0 && size == 0 && segment_number == 0);
    }
    if is_blank(kind, segment_number, payload) {
        reveal(le::u32_bytes);
        assert forall|i: int| 0 <= i < header.len() implies header[i] == 0 by {
            if i < 4 {
                assert(header[i] == le::u32_bytes(checksum)[i]);
            } else if i < 6 {
                assert(header[i] == le::u16_bytes(size)[i - 4]);
            } else if i > 6 {
                assert(header[i] == le::u32_bytes(segment_number)[i - 7]);
            }
        }
    }
}

/// A fragment is read back as it was written, whatever follows it.
pub proof fn fragment_round_trip(
    full: u8,
    kind: RecordType,
    segment_number: u32,
    payload: Seq<u8>,
    rest: Seq<u8>,
    room: int,
    left: int,
)
    requires
        full <= 5,
        payload.len() <= 0xffff,
        HEADER_SIZE + payload.len() <= room,
        HEADER_SIZE + payload.len() <= left,
    ensures
        fragment_at(full, segment_number, fragment_bytes(kind.byte(full), segment_number, payload) + rest, room, left)
            == (if is_blank(kind.byte(full), segment_number, payload) {
            Fragment::Faulty(RecordFault::ZeroHeader)
        } else {
            Fragment::Valid(kind, payload)
        }),
{
    let bytes = fragment_bytes(kind.byte(full), segment_number, payload) + rest;
    reveal(fragment_bytes);
    reveal(fragment_at);
    assert(bytes.take(HEADER_SIZE as int) =~= header_bytes(kind.byte(full), segment_number, payload));
    header_fields(kind.byte(full), segment_number, payload, bytes);
    assert(bytes.subrange(HEADER_SIZE as int, HEADER_SIZE + payload.len()) =~= payload);
}

/// A fragment that is cut at the end of a file is a cut header, a cut body or
/// a header of zeros.
pub proof fn cut_fragment(
    full: u8,
    kind: RecordType,
    segment_number: u32,
    payload: Seq<u8>,
    room: int,
    cut: int,
)
    requires
        full <= 5,
        payload.len() <= 0xffff,
        HEADER_SIZE + payload.len() <= room,
        0 <= cut < HEADER_SIZE + payload.len(),
    ensures
        fragment_at(
            full,
            segment_number,
            fragment_bytes(kind.byte(full), segment_number, payload).take(cut),
            room,
            cut,
        ) == Fragment::Faulty(
            if cut < HEADER_SIZE {
                RecordFault::HeaderCut
            } else {
                RecordFault::BodyCut
            },
        ),
{
    let bytes = fragment_bytes(kind.byte(full), segment_number, payload).take(cut);
    reveal(fragment_bytes);
    reveal(fragment_at);
    if cut >= HEADER_SIZE {
        assert(bytes.take(HEADER_SIZE as int) =~= header_bytes(kind.byte(full), segment_number, payload));
        header_fields(kind.byte(full), segment_number, payload, bytes);
    }
}

/// A record holds at least one header.
pub proof fn record_is_not_empty(full: u8, segment_number: u32, position: int, payload: Seq<u8>, first: bool)
    ensures
        record_bytes(full, segment_number, position, payload, first).len() >= HEADER_SIZE + payload.len(),
    decreases payload.len(), (if room(position) < HEADER_SIZE { 2int } else if room(position) == HEADER_SIZE { 1 } else { 0 }),
{
    let left = room(position);
    if left < HEADER_SIZE {
        record_is_not_empty(full, segment_number, position + left, payload, first);
    } else {
        let size = portion(payload.len(), left);
        fragment_size(
            RecordType::placed(first, size == payload.len()).byte(full),
            segment_number,
            payload.take(size),
        );
        if size != payload.len() {
            record_is_not_empty(full, segment_number, position + HEADER_SIZE + size, payload.skip(size), false);
        }
    }
}

/// Framing less than doubles a record, but for a few headers.
pub proof fn record_size_bound(full: u8, segment_number: u32, position: int, payload: Seq<u8>, first: bool)
    ensures
        record_bytes(full, segment_number, position, payload, first).len() <= 2 * payload.len() + (if room(position)
            == BLOCK_SIZE {
            11int
        } else if room(position) > HEADER_SIZE {
            21
        } else if room(position) == HEADER_SIZE {
            22
        } else {
            32
        }),
    decreases payload.len(), (if room(position) < HEADER_SIZE { 2int } else if room(position) == HEADER_SIZE { 1 } else { 0 }),
{
    let left = room(position);
    if left < HEADER_SIZE {
        record_size_bound(full, segment_number, position + left, payload, first);
        assert(room(position + left) == BLOCK_SIZE);
    } else {
        let size = portion(payload.len(), left);
        fragment_size(
            RecordType::placed(first, size == payload.len()).byte(full),
            segment_number,
            payload.take(size),
        );
        if size != payload.len() {
            record_size_bound(full, segment_number, position + HEADER_SIZE + size, payload.skip(size), false);
            assert(room(position + HEADER_SIZE + size) == BLOCK_SIZE);
        }
    }
}

/// One past the largest position, which is a block boundary.
pub open spec fn position_space() -> int {
    0x1_0000_0000_0000_0000
}

/// Whether a record that starts at `start` ends inside the position space.
pub open spec fn record_fits(full: u8, segment_number: u32, start: int, payload: Seq<u8>) -> bool {
    start + record_bytes(full, segment_number, start, payload, true).len() <= position_space()
}

/// What is written of a record: all of it, or what stands inside the position
/// space.
pub open spec fn written_record(full: u8, segment_number: u32, start: int, payload: Seq<u8>) -> Seq<u8> {
    let record = record_bytes(full, segment_number, start, payload, true);
    if record_fits(full, segment_number, start, payload) {
        record
    } else {
        record.take(position_space() - start)
    }
}

/// Appends one physical fragment, whose payload is `size` bytes from
/// `consumed` on of `prefix` followed by `payload`.
pub fn encode_fragment_parts(
    output: &mut Vec<u8>,
    kind: u8,
    segment_number: u32,
    prefix: &[u8],
    payload: &[u8],
    consumed: usize,
    size: usize,
)
    requires
        consumed + size <= prefix@.len() + payload@.len() <= usize::MAX,
        size <= 0xffff,
    ensures
        final(output)@ == old(output)@ + fragment_bytes(
            kind,
            segment_number,
            (prefix@ + payload@).subrange(consumed as int, consumed + size),
        ),
{
    let mut fragment: Vec<u8> = Vec::new();
    let end: usize = consumed + size;
    if consumed < prefix.len() {
        let stop: usize = if end < prefix.len() { end } else { prefix.len() };
        bytestr::put_bytes(&mut fragment, &prefix[consumed..stop]);
    }
    if end > prefix.len() {
        let start: usize = consumed.saturating_sub(prefix.len());
        bytestr::put_bytes(&mut fragment, &payload[start..end - prefix.len()]);
    }
    let ghost body = (prefix@ + payload@).subrange(consumed as int, consumed + size);
    assert(fragment@ =~= body);

    let checksum: u32 = crc::physical_checksum(kind, segment_number, &fragment);
    le::put_u32(output, checksum);
    le::put_u16(output, size as u16);
    output.push(kind);
    le::put_u32(output, segment_number);
    bytestr::put_bytes(output, &fragment);
    proof {
        reveal(fragment_bytes);
        assert(output@ =~= old(output)@ + fragment_bytes(kind, segment_number, body));
    }
}

proof fn padded_record(
    full: u8,
    segment_number: u32,
    position: int,
    payload: Seq<u8>,
    first: bool,
    emitted: Seq<u8>,
)
    requires
        room(position) < HEADER_SIZE,
    ensures
        ({
            let record = emitted + record_bytes(full, segment_number, position, payload, first);
            let filled = emitted + bytestr::zeros(room(position));
            &&& record == filled + record_bytes(full, segment_number, position + room(position), payload, first)
            &&& filled.len() <= record.len()
        }),
{
    let tail = record_bytes(full, segment_number, position + room(position), payload, first);
    assert(emitted + (bytestr::zeros(room(position)) + tail) =~= emitted + bytestr::zeros(room(position)) + tail);
}

proof fn fragmented_record(
    full: u8,
    segment_number: u32,
    position: int,
    payload: Seq<u8>,
    first: bool,
    emitted: Seq<u8>,
)
    requires
        room(position) >= HEADER_SIZE,
    ensures
        ({
            let record = emitted + record_bytes(full, segment_number, position, payload, first);
            let size = portion(payload.len(), room(position));
            let last = size == payload.len();
            let kind = RecordType::placed(first, last).byte(full);
            let fragment = fragment_bytes(kind, segment_number, payload.take(size));
            let filled = emitted + fragment;
            &&& 0 <= size <= payload.len()
            &&& fragment.len() == HEADER_SIZE + size
            &&& last ==> record == filled
            &&& !last ==> record == filled + record_bytes(
                full,
                segment_number,
                position + HEADER_SIZE + size,
                payload.skip(size),
                false,
            )
            &&& filled.len() <= record.len()
        }),
{
    let size = portion(payload.len(), room(position));
    let last = size == payload.len();
    let kind = RecordType::placed(first, last).byte(full);
    let fragment = fragment_bytes(kind, segment_number, payload.take(size));
    fragment_size(kind, segment_number, payload.take(size));
    if !last {
        let tail = record_bytes(full, segment_number, position + HEADER_SIZE + size, payload.skip(size), false);
        assert(emitted + (fragment + tail) =~= emitted + fragment + tail);
    }
}

/// Appends the fragments of one logical record, `prefix` followed by
/// `payload`, that starts at `start` of the block grid. Stops at the end of
/// the position space, and says whether the record ended before it.
pub fn put_record(
    output: &mut Vec<u8>,
    full: u8,
    segment_number: u32,
    start: u64,
    prefix: &[u8],
    payload: &[u8],
) -> (whole: bool)
    requires
        full <= 5,
        prefix@.len() + payload@.len() <= usize::MAX,
        old(output)@.len() + written_record(full, segment_number, start as int, prefix@ + payload@).len()
            <= usize::MAX,
    ensures
        whole == record_fits(full, segment_number, start as int, prefix@ + payload@),
        final(output)@ == old(output)@ + written_record(
            full,
            segment_number,
            start as int,
            prefix@ + payload@,
        ),
{
    let ghost before = output@;
    let ghost total = prefix@ + payload@;
    let ghost record = record_bytes(full, segment_number, start as int, total, true);
    let ghost written = written_record(full, segment_number, start as int, total);
    let output_start: usize = output.len();
    let payload_size: usize = prefix.len() + payload.len();
    let mut consumed: usize = 0;
    let mut first: bool = true;
    let ghost mut emitted = Seq::<u8>::empty();
    assert(total.skip(0) =~= total);
    assert(output@ =~= before + emitted);
    assert(record =~= emitted + record);

    loop
        invariant
            full <= 5,
            total == prefix@ + payload@,
            payload_size == total.len(),
            before == old(output)@,
            output_start == before.len(),
            before.len() + written.len() <= usize::MAX,
            record == record_bytes(full, segment_number, start as int, total, true),
            written == written_record(full, segment_number, start as int, total),
            consumed <= payload_size,
            output@ == before + emitted,
            record == emitted + record_bytes(
                full,
                segment_number,
                start + emitted.len(),
                total.skip(consumed as int),
                first,
            ),
            start + emitted.len() <= position_space(),
        decreases
            payload_size - consumed,
            (if room(start + emitted.len()) < HEADER_SIZE {
                2int
            } else if room(start + emitted.len()) == HEADER_SIZE {
                1
            } else {
                0
            }),
    {
        let ghost position = start + emitted.len();
        let ghost rest = total.skip(consumed as int);
        proof {
            record_is_not_empty(full, segment_number, position, rest, first);
        }
        let absolute: u64 = match start.checked_add((output.len() - output_start) as u64) {
            Some(absolute) => absolute,
            None => {
                assert(emitted =~= record.take(position_space() - start));
                return false;
            },
        };
        let block_remaining: usize = BLOCK_SIZE - (absolute % (BLOCK_SIZE as u64)) as usize;
        assert(block_remaining == room(position));
        assert(position + room(position) <= position_space());
        if block_remaining < HEADER_SIZE {
            proof {
                padded_record(full, segment_number, position, rest, first, emitted);
            }
            bytestr::put_zeros(output, block_remaining);
            proof {
                let filled = emitted + bytestr::zeros(block_remaining as int);
                assert(output@ =~= before + filled);
                emitted = filled;
            }
            continue;
        }
        let available: usize = block_remaining - HEADER_SIZE;
        let left: usize = payload_size - consumed;
        let size: usize = if left < available { left } else { available };
        let last: bool = size == left;
        let code: u8 = RecordType::place(first, last).encode(full);
        let ghost fragment = fragment_bytes(code, segment_number, rest.take(size as int));
        proof {
            fragmented_record(full, segment_number, position, rest, first, emitted);
            assert(rest.take(size as int) =~= total.subrange(consumed as int, consumed + size));
            assert(rest.skip(size as int) =~= total.skip(consumed + size));
        }
        encode_fragment_parts(output, code, segment_number, prefix, payload, consumed, size);
        proof {
            assert(output@ =~= before + (emitted + fragment));
            emitted = emitted + fragment;
        }
        consumed += size;
        if last {
            return true;
        }
        first = false;
    }
}

/// What a fragment is depends on no byte after the file's end.
pub proof fn fragment_is_local(
    full: u8,
    segment_number: u32,
    bytes: Seq<u8>,
    other: Seq<u8>,
    room: int,
    left: int,
)
    requires
        0 <= left <= bytes.len(),
        left <= other.len(),
        bytes.take(left) == other.take(left),
    ensures
        fragment_at(full, segment_number, bytes, room, left) == fragment_at(full, segment_number, other, room, left),
{
    reveal(fragment_at);
    if left >= HEADER_SIZE {
        let held = bytes.take(left);
        let header = bytes.take(HEADER_SIZE as int);
        assert(header =~= held.take(HEADER_SIZE as int));
        assert(header =~= other.take(HEADER_SIZE as int));
        let end = HEADER_SIZE + le::u16_value(header.subrange(4, 6));
        if end <= left {
            assert(bytes.subrange(HEADER_SIZE as int, end) =~= held.subrange(HEADER_SIZE as int, end));
            assert(other.subrange(HEADER_SIZE as int, end) =~= held.subrange(HEADER_SIZE as int, end));
        }
    }
}

/// Only what was written as a fragment of the segment is read as one: whole,
/// with its type, the segment's number, and a checksum over all of these.
pub proof fn valid_fragment_was_written(full: u8, segment_number: u32, bytes: Seq<u8>, room: int, left: int)
    requires
        full <= 5,
    ensures
        fragment_at(full, segment_number, bytes, room, left) matches Fragment::Valid(kind, payload) ==> {
            &&& payload.len() <= 0xffff
            &&& HEADER_SIZE + payload.len() <= bytes.len()
            &&& bytes.take(HEADER_SIZE + payload.len()) == fragment_bytes(kind.byte(full), segment_number, payload)
            &&& le::u32_value(bytes.subrange(0, 4)) == crc::physical_checksum_of(
                kind.byte(full),
                segment_number,
                payload,
            )
            &&& le::u32_value(bytes.subrange(7, 11)) == segment_number
        },
{
    reveal(fragment_at);
    reveal(fragment_bytes);
    if let Fragment::Valid(kind, payload) = fragment_at(full, segment_number, bytes, room, left) {
        let header = bytes.take(HEADER_SIZE as int);
        le::u32_value_round_trip(header.subrange(0, 4));
        le::u16_value_round_trip(header.subrange(4, 6));
        le::u32_value_round_trip(header.subrange(7, 11));
        assert(header.subrange(0, 4) =~= bytes.subrange(0, 4));
        assert(header.subrange(7, 11) =~= bytes.subrange(7, 11));
        assert(kind.byte(full) == header[6]);
        assert(header =~= header.subrange(0, 4) + header.subrange(4, 6) + seq![header[6]] + header.subrange(7, 11));
        assert(header == header_bytes(kind.byte(full), segment_number, payload));
        assert(bytes.take(HEADER_SIZE + payload.len()) =~= header + payload);
    }
}

/// No fragment crosses the border of a block: what is read as one ends inside
/// its block, and what is written ends inside its block.
pub proof fn fragments_stay_in_their_blocks(
    full: u8,
    segment_number: u32,
    bytes: Seq<u8>,
    position: int,
    left: int,
    size: nat,
)
    requires
        0 <= position,
    ensures
        0 < room(position) <= BLOCK_SIZE,
        (position + room(position)) % (BLOCK_SIZE as int) == 0,
        room(position) >= HEADER_SIZE ==> 0 <= portion(size, room(position)) <= size && HEADER_SIZE + portion(
            size,
            room(position),
        ) <= room(position),
        room(position) >= HEADER_SIZE && portion(size, room(position)) < size ==> HEADER_SIZE + portion(
            size,
            room(position),
        ) == room(position),
        fragment_at(full, segment_number, bytes, room(position), left) matches Fragment::Valid(_, payload)
            ==> HEADER_SIZE + payload.len() <= room(position),
{
    fragment_is_inside(full, segment_number, bytes, room(position), left);
}

/// The types of fragments have four bytes, one after another, and a byte that
/// stands for a type stands for no other.
pub proof fn fragment_types_are_told_apart(full: u8, kind: RecordType, other: RecordType)
    requires
        full <= 5,
    ensures
        RecordType::named(full, kind.byte(full)) == Some(kind),
        kind.byte(full) == other.byte(full) ==> kind == other,
        full <= kind.byte(full) <= full + 3,
        kind == RecordType::Full <==> kind.byte(full) == full,
        kind == RecordType::First <==> kind.byte(full) == full + 1,
        kind == RecordType::Middle <==> kind.byte(full) == full + 2,
        kind == RecordType::Last <==> kind.byte(full) == full + 3,
{
}

/// A fragment is full where it starts and ends its record. It is the first or the
/// last one where it does one of the two, and a middle one where it does neither.
pub proof fn fragments_tell_their_place(first: bool, last: bool)
    ensures
        RecordType::placed(first, last) == RecordType::Full <==> first && last,
        RecordType::placed(first, last) == RecordType::First <==> first && !last,
        RecordType::placed(first, last) == RecordType::Last <==> !first && last,
        RecordType::placed(first, last) == RecordType::Middle <==> !first && !last,
{
}

} // verus!
