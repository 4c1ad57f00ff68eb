//! Append-only log segments.
//!
//! Positions are physical byte offsets in the encoded segment file. The log
//! owns rotation and recovery; a segment only appends, reads, synchronizes or
//! truncates its own file.

use vstd::prelude::*;
use crate::bytestr;
use crate::framing;
use crate::segment_names;
use crate::text;
use crate::vfs;
use crate::vfs::{OpenOptions, Vfs, VfsFile};
use crate::wal::codec;
use crate::wal::codec::Decoded;
use crate::wal::error;
use crate::wal::error::{WalError, WalErrorView};
use crate::wal::source::{SegmentReader, Source};

verus! {

/// The bytes of records that follow one another from `position` on.
pub open spec fn stream_bytes(number: u64, position: int, records: Seq<Seq<u8>>) -> Seq<u8>
    decreases records.len(),
{
    if records.len() == 0 {
        Seq::empty()
    } else {
        let record = codec::encoded(number, position, records[0]);
        record + stream_bytes(number, position + record.len(), records.skip(1))
    }
}

/// How many of the records, taken in order from `position` on, end at or
/// before `max`.
pub open spec fn accepted(number: u64, position: int, records: Seq<Seq<u8>>, max: int) -> nat
    decreases records.len(),
{
    if records.len() == 0 {
        0
    } else {
        let end = position + codec::encoded(number, position, records[0]).len();
        if end <= max {
            1 + accepted(number, end, records.skip(1), max)
        } else {
            0
        }
    }
}

/// Where the records that are accepted end.
pub open spec fn accepted_end(number: u64, position: int, records: Seq<Seq<u8>>, max: int) -> int {
    position + stream_bytes(number, position, records.take(accepted(number, position, records, max) as int)).len()
}

/// The size of the first record that is not accepted.
pub open spec fn refused_size(number: u64, position: int, records: Seq<Seq<u8>>, max: int) -> int
    recommends
        accepted(number, position, records, max) < records.len(),
{
    codec::encoded(
        number,
        accepted_end(number, position, records, max),
        records[accepted(number, position, records, max) as int],
    ).len() as int
}

/// Why a batch is refused as a whole: its first record that does not fit
/// leaves the position space, or no record fits.
pub open spec fn batch_error(number: u64, position: u64, records: Seq<Seq<u8>>, max: u64) -> Option<WalErrorView> {
    let count = accepted(number, position as int, records, max as int);
    if count == records.len() {
        None
    } else {
        let size = refused_size(number, position as int, records, max as int);
        if accepted_end(number, position as int, records, max as int) + size > u64::MAX {
            Some(WalErrorView::PositionExhausted)
        } else if count > 0 {
            None
        } else if position == 0 {
            Some(WalErrorView::RecordTooLarge { size: size as u64, max })
        } else {
            Some(WalErrorView::SegmentFull)
        }
    }
}

/// The payloads of records given as a prefix and a rest.
pub open spec fn whole_payloads(records: Seq<(&[u8], &[u8])>) -> Seq<Seq<u8>> {
    records.map_values(|record: (&[u8], &[u8])| record.0@ + record.1@)
}

/// The records that are read from `position` up to `end` of a segment as long
/// as they are whole and their payloads fit in `budget`, and the position
/// after them.
pub open spec fn readable(
    number: u64,
    contents: Seq<u8>,
    position: int,
    end: int,
    budget: int,
) -> (Seq<Seq<u8>>, int)
    decreases end - position,
{
    if position >= end {
        (Seq::empty(), position)
    } else {
        match codec::decoded_record(number, contents.subrange(position, end), position, end) {
            Decoded::Record { next, payload } => {
                if payload.len() <= budget && position < next <= end {
                    let (rest, stop) = readable(number, contents, next, end, budget - payload.len());
                    (seq![payload] + rest, stop)
                } else {
                    (Seq::empty(), position)
                }
            },
            _ => (Seq::empty(), position),
        }
    }
}

/// Whether exactly the given records stand one after another from `position`
/// up to `next`.
pub open spec fn reads(
    number: u64,
    contents: Seq<u8>,
    position: int,
    end: int,
    payloads: Seq<Seq<u8>>,
    next: int,
) -> bool
    decreases payloads.len(),
{
    if payloads.len() == 0 {
        next == position
    } else {
        &&& position < end
        &&& codec::decoded_record(number, contents.subrange(position, end), position, end) matches Decoded::Record {
            next: after,
            payload,
        }
        &&& payload == payloads[0]
        &&& position < after <= end
        &&& reads(number, contents, after, end, payloads.skip(1), next)
    }
}

/// Reading records moves forward.
pub proof fn reads_advance(
    number: u64,
    contents: Seq<u8>,
    position: int,
    end: int,
    payloads: Seq<Seq<u8>>,
    next: int,
)
    requires
        reads(number, contents, position, end, payloads, next),
    ensures
        payloads.len() == 0 ==> next == position,
        payloads.len() > 0 ==> position < next <= end,
    decreases payloads.len(),
{
    if payloads.len() > 0 {
        let after = codec::decoded_record(number, contents.subrange(position, end), position, end)->next;
        reads_advance(number, contents, after, end, payloads.skip(1), next);
    }
}

proof fn reads_one_more(
    number: u64,
    contents: Seq<u8>,
    position: int,
    end: int,
    payloads: Seq<Seq<u8>>,
    middle: int,
    payload: Seq<u8>,
    next: int,
)
    requires
        reads(number, contents, position, end, payloads, middle),
        middle < next <= end,
        codec::decoded_record(number, contents.subrange(middle, end), middle, end) == (Decoded::Record {
            next,
            payload,
        }),
    ensures
        reads(number, contents, position, end, payloads.push(payload), next),
    decreases payloads.len(),
{
    if payloads.len() == 0 {
        assert(payloads.push(payload).skip(1) =~= Seq::<Seq<u8>>::empty());
        reveal_with_fuel(reads, 2);
    } else {
        let after = codec::decoded_record(number, contents.subrange(position, end), position, end)->next;
        reads_one_more(number, contents, after, end, payloads.skip(1), middle, payload, next);
        assert(payloads.push(payload).skip(1) =~= payloads.skip(1).push(payload));
    }
}

/// Why nothing can be read from `position`, or why the next record cannot be
/// counted: its fault, or its size.
pub open spec fn read_error(
    number: u64,
    path: Seq<char>,
    contents: Seq<u8>,
    position: int,
    end: int,
    max: usize,
) -> Option<WalErrorView> {
    let (payloads, stop) = readable(number, contents, position, end, max as int);
    match codec::decoded_record(number, contents.subrange(stop, end), stop, end) {
        Decoded::Record { next, payload } => {
            if stop < end && bytestr::total(payloads) + payload.len() > usize::MAX {
                Some(WalErrorView::PositionExhausted)
            } else if stop < end && payloads.len() == 0 {
                Some(WalErrorView::ReadBufferTooSmall { size: payload.len() as usize, max })
            } else {
                None
            }
        },
        Decoded::Faulty(fault) => if stop < end && payloads.len() == 0 {
            Some(error::record_error(path, fault))
        } else {
            None
        },
        Decoded::Starved => None,
    }
}

/// Reading stops between where it starts and the end.
pub proof fn stop_is_inside(number: u64, contents: Seq<u8>, position: int, end: int, budget: int)
    requires
        position <= end,
    ensures
        ({
            let (payloads, stop) = readable(number, contents, position, end, budget);
            &&& position <= stop <= end
            &&& payloads.len() == 0 ==> stop == position
        }),
    decreases end - position,
{
    if position < end {
        if let Decoded::Record { next, payload } = codec::decoded_record(
            number,
            contents.subrange(position, end),
            position,
            end,
        ) {
            if payload.len() <= budget && position < next <= end {
                stop_is_inside(number, contents, next, end, budget - payload.len());
            }
        }
    }
}

/// What is read fits in the budget.
pub proof fn readable_fits(number: u64, contents: Seq<u8>, position: int, end: int, budget: int)
    requires
        budget >= 0,
    ensures
        bytestr::total(readable(number, contents, position, end, budget).0) <= budget,
    decreases end - position,
{
    if position < end {
        if let Decoded::Record { next, payload } = codec::decoded_record(
            number,
            contents.subrange(position, end),
            position,
            end,
        ) {
            if payload.len() <= budget && position < next <= end {
                readable_fits(number, contents, next, end, budget - payload.len());
                total_split(payload, readable(number, contents, next, end, budget - payload.len()).0);
            }
        }
    }
}

/// Records that follow one another are the bytes of the first ones and then
/// the bytes of the others.
pub proof fn stream_bytes_split(number: u64, position: int, front: Seq<Seq<u8>>, back: Seq<Seq<u8>>)
    ensures
        stream_bytes(number, position, front + back) == stream_bytes(number, position, front) + stream_bytes(
            number,
            position + stream_bytes(number, position, front).len(),
            back,
        ),
    decreases front.len(),
{
    let whole = front + back;
    if front.len() == 0 {
        assert(whole =~= back);
        assert(stream_bytes(number, position, front) + stream_bytes(number, position, back) =~= stream_bytes(
            number,
            position,
            back,
        ));
    } else {
        let record = codec::encoded(number, position, front[0]);
        assert(whole.skip(1) =~= front.skip(1) + back);
        stream_bytes_split(number, position + record.len(), front.skip(1), back);
        let rest = stream_bytes(number, position + record.len(), front.skip(1));
        let tail = stream_bytes(number, position + record.len() + rest.len(), back);
        assert(record + (rest + tail) =~= (record + rest) + tail);
    }
}

/// Records that are appended at the end of a segment continue the records that
/// it holds.
pub proof fn appends_continue_the_stream(number: u64, held: Seq<Seq<u8>>, added: Seq<Seq<u8>>)
    ensures
        ({
            let contents = stream_bytes(number, 0, held);
            let end = contents.len() as int;
            vfs::overwritten(contents, end, stream_bytes(number, end, added)) == stream_bytes(
                number,
                0,
                held + added,
            )
        }),
{
    let contents = stream_bytes(number, 0, held);
    let end = contents.len() as int;
    stream_bytes_split(number, 0, held, added);
    assert(contents.take(end) =~= contents);
}

/// One more record adds its own bytes.
pub proof fn stream_bytes_next(number: u64, position: int, records: Seq<Seq<u8>>, at: int)
    requires
        0 <= at < records.len(),
    ensures
        ({
            let before = stream_bytes(number, position, records.take(at));
            stream_bytes(number, position, records.take(at + 1)) == before + codec::encoded(
                number,
                position + before.len(),
                records[at],
            )
        }),
{
    let one = seq![records[at]];
    let before = stream_bytes(number, position, records.take(at));
    let record = codec::encoded(number, position + before.len(), records[at]);
    stream_bytes_split(number, position, records.take(at), one);
    assert(records.take(at + 1) =~= records.take(at) + one);
    assert(one.skip(1) =~= Seq::<Seq<u8>>::empty());
    assert(stream_bytes(number, position + before.len(), one) =~= record) by {
        reveal_with_fuel(stream_bytes, 2);
    }
}

proof fn accepted_bound(number: u64, position: int, records: Seq<Seq<u8>>, max: int)
    ensures
        accepted(number, position, records, max) <= records.len(),
    decreases records.len(),
{
    if records.len() > 0 {
        accepted_bound(
            number,
            position + codec::encoded(number, position, records[0]).len(),
            records.skip(1),
            max,
        );
    }
}

/// The records that a segment accepts end within it.
pub proof fn accepted_records_end_inside(number: u64, position: int, records: Seq<Seq<u8>>, max: int)
    requires
        position <= max,
    ensures
        position <= accepted_end(number, position, records, max) <= max,
        accepted(number, position, records, max) <= records.len(),
    decreases records.len(),
{
    if records.len() > 0 {
        let end = position + codec::encoded(number, position, records[0]).len();
        let rest = records.skip(1);
        if end <= max {
            let count = accepted(number, end, rest, max) as int;
            accepted_records_end_inside(number, end, rest, max);
            assert(records.take(count + 1).skip(1) =~= rest.take(count));
        }
    }
}

/// What a batch encodes before it stops: the accepted records and the first
/// one that is not.
pub open spec fn batch_span(number: u64, position: int, records: Seq<Seq<u8>>, max: int) -> int {
    let count = accepted(number, position, records, max);
    stream_bytes(
        number,
        position,
        records.take(
            if count < records.len() {
                count as int + 1
            } else {
                count as int
            },
        ),
    ).len() as int
}

/// What is reported when a file takes a batch at another position.
pub open spec fn misplaced_message(number: u64, actual: u64, expected: u64) -> Seq<char> {
    "segment "@ + text::decimal(number as nat) + " appended at "@ + text::decimal(actual as nat) + ", expected "@
        + text::decimal(expected as nat)
}

/// What is reported when a read starts after the end.
pub open spec fn outside_message(number: u64, position: u64, size: u64) -> Seq<char> {
    "position "@ + text::decimal(position as nat) + " is outside segment "@ + text::decimal(number as nat)
        + " with size "@ + text::decimal(size as nat)
}

/// What is reported when a truncation would lengthen the segment.
pub open spec fn truncation_message(number: u64, size: u64, position: u64) -> Seq<char> {
    "cannot truncate segment "@ + text::decimal(number as nat) + " from "@ + text::decimal(size as nat) + " to "@
        + text::decimal(position as nat)
}

/// Whether some record could be mistaken for zeros, which no record with a
/// payload can.
pub open spec fn any_blank(number: u64, records: Seq<Seq<u8>>) -> bool {
    exists|i: int| 0 <= i < records.len() && framing::is_blank(codec::FULL, number as u32, #[trigger] records[i])
}

proof fn total_split(first: Seq<u8>, others: Seq<Seq<u8>>)
    ensures
        bytestr::total(seq![first] + others) == first.len() + bytestr::total(others),
        bytestr::total(others) >= 0,
    decreases others.len(),
{
    let whole = seq![first] + others;
    if others.len() == 0 {
        assert(whole.drop_last() =~= Seq::<Seq<u8>>::empty());
        reveal_with_fuel(bytestr::total, 2);
    } else {
        total_split(first, others.drop_last());
        assert(whole.drop_last() =~= seq![first] + others.drop_last());
    }
}

/// When a segment file is cut anywhere, the records that end before the cut
/// are read back, in order, and what is left of the next one is reported as
/// truncated. With the cut after the last record, all of them are read back.
pub proof fn cut_stream_is_read_back(number: u64, before: Seq<u8>, records: Seq<Seq<u8>>, cut: int, budget: int)
    requires
        number <= u32::MAX,
        before.len() <= cut <= before.len() + stream_bytes(number, before.len() as int, records).len(),
        bytestr::total(records) <= budget,
    ensures
        !any_blank(number, records) ==> {
            let start = before.len() as int;
            let contents = (before + stream_bytes(number, start, records)).take(cut);
            let count = accepted(number, start, records, cut);
            let stop = accepted_end(number, start, records, cut);
            &&& count <= records.len()
            &&& stop <= cut
            &&& readable(number, contents, start, cut, budget) == (records.take(count as int), stop)
            &&& stop < cut ==> (codec::decoded_record(
                number,
                contents.subrange(stop, cut),
                stop,
                cut,
            ) matches Decoded::Faulty(fault) && error::is_truncation(fault))
        },
    decreases records.len(),
{
    if !any_blank(number, records) {
        let start = before.len() as int;
        let stream = stream_bytes(number, start, records);
        let contents = (before + stream).take(cut);
        let count = accepted(number, start, records, cut);
        if records.len() == 0 {
            assert(records.take(0) =~= records);
        } else {
            let first = records[0];
            let others = records.skip(1);
            let record = codec::encoded(number, start, first);
            let end = start + record.len();
            let rest = stream_bytes(number, end, others);
            assert(!framing::is_blank(codec::FULL, number as u32, records[0]));
            framing::record_is_not_empty(codec::FULL, number as u32, start, first, true);
            assert(records =~= seq![first] + others);
            total_split(first, others);
            if cut < end {
                if cut > start {
                    codec::cut_record_is_truncated(number, start, first, cut - start);
                }
                assert(contents.subrange(start, cut) =~= record.take(cut - start));
                assert(records.take(0) =~= Seq::<Seq<u8>>::empty());
            } else {
                assert(contents.subrange(start, cut) =~= record + rest.take(cut - end));
                codec::record_round_trip(number, start, first, rest.take(cut - end), cut);
                assert forall|i: int| 0 <= i < others.len() implies !framing::is_blank(
                    codec::FULL,
                    number as u32,
                    #[trigger] others[i],
                ) by {
                    assert(others[i] == records[i + 1]);
                }
                cut_stream_is_read_back(number, before + record, others, cut, budget - first.len());
                assert(before + record + rest =~= before + stream);
                let taken = accepted(number, end, others, cut);
                assert(records.take(count as int) =~= seq![first] + others.take(taken as int));
                assert(records.take(count as int).skip(1) =~= others.take(taken as int));
                assert(records.take(count as int)[0] == first);
            }
        }
    }
}

/// Records are read back from a segment as they were appended to it.
pub proof fn appended_stream_is_read_back(number: u64, before: Seq<u8>, records: Seq<Seq<u8>>, budget: int)
    requires
        number <= u32::MAX,
        bytestr::total(records) <= budget,
    ensures
        !any_blank(number, records) ==> {
            let start = before.len() as int;
            let contents = before + stream_bytes(number, start, records);
            readable(number, contents, start, contents.len() as int, budget) == (records, contents.len() as int)
        },
{
    let start = before.len() as int;
    let contents = before + stream_bytes(number, start, records);
    cut_stream_is_read_back(number, before, records, contents.len() as int, budget);
    all_accepted(number, start, records);
    assert(contents.take(contents.len() as int) =~= contents);
    assert(records.take(records.len() as int) =~= records);
}

/// Every record ends at or before the end of the last one.
pub proof fn all_accepted(number: u64, position: int, records: Seq<Seq<u8>>)
    ensures
        accepted(number, position, records, position + stream_bytes(number, position, records).len())
            == records.len(),
    decreases records.len(),
{
    if records.len() > 0 {
        let record = codec::encoded(number, position, records[0]);
        all_accepted(number, position + record.len(), records.skip(1));
    }
}

/// One log segment.
#[derive(Debug)]
pub struct FileSegment {
    pub number: u64,
    pub file: VfsFile,
    pub max_size: u64,
    pub write_position: u64,
}

/// What is needed to make one segment durable.
#[derive(Debug)]
pub struct SegmentSyncHandle {
    pub number: u64,
    pub file: VfsFile,
    pub write_position: u64,
}

impl SegmentSyncHandle {
    /// Whether the handle stands for a segment as far as it is written.
    pub open spec fn marks(&self, segment: &FileSegment) -> bool {
        &&& self.number == segment.number
        &&& self.file.id == segment.file.id
        &&& self.write_position == segment.write_position
    }

    /// Makes all bytes that were appended so far durable, and gives their
    /// cached pages up.
    pub fn sync<V: Vfs>(&self, vfs: &mut V) -> (result: Result<(), WalError>)
        requires
            old(vfs).state().holds(&self.file),
        ensures
            final(vfs).state() == old(vfs).state(),
            final(vfs).dependable() == old(vfs).dependable(),
            final(vfs).journal() == (if result is Ok {
                old(vfs).journal().with_file(self.file.id, old(vfs).state().contents(&self.file))
            } else {
                old(vfs).journal()
            }),
            old(vfs).dependable() ==> result is Ok,
            result matches Err(error) ==> error is Io,
    {
        match vfs.sync(&self.file) {
            Ok(()) => {},
            Err(error) => {
                return Err(WalError::io(error));
            },
        }
        vfs.discard_cache(&self.file, self.write_position);
        Ok(())
    }
}

impl FileSegment {
    /// The segment's file is there and holds all that was appended.
    pub open spec fn valid<V: Vfs>(&self, vfs: &V) -> bool {
        &&& self.number <= u32::MAX
        &&& self.write_position <= self.max_size
        &&& vfs.state().holds(&self.file)
        &&& self.write_position <= vfs.state().contents(&self.file).len()
    }

    /// The file holds nothing else.
    pub open spec fn settled<V: Vfs>(&self, vfs: &V) -> bool {
        vfs.state().contents(&self.file).len() == self.write_position
    }

    /// The bytes that were appended.
    pub open spec fn bytes<V: Vfs>(&self, vfs: &V) -> Seq<u8> {
        vfs.state().contents(&self.file).take(self.write_position as int)
    }

    /// The same segment, whatever was appended to it.
    pub open spec fn same_segment(&self, other: &FileSegment) -> bool {
        &&& self.number == other.number
        &&& self.max_size == other.max_size
        &&& self.file == other.file
    }

    /// Creates an empty segment.
    pub fn create<V: Vfs>(vfs: &mut V, dir: &str, number: u64, max_size: u64) -> (result: Result<
        FileSegment,
        WalError,
    >)
        ensures
            final(vfs).dependable() == old(vfs).dependable(),
            final(vfs).journal() == old(vfs).journal(),
            match result {
                Ok(segment) => {
                    let path = segment_names::segment_path(dir@, number as nat);
                    &&& segment.number == number
                    &&& segment.max_size == max_size
                    &&& segment.write_position == 0
                    &&& segment.file.path@ == path
                    &&& segment.valid(final(vfs))
                    &&& segment.settled(final(vfs))
                    &&& !old(vfs).state().names.contains_key(path)
                    &&& !old(vfs).state().data.contains_key(segment.file.id)
                    &&& final(vfs).state() == old(vfs).state().with_file(path, segment.file.id)
                },
                Err(error) => {
                    &&& final(vfs).state().keeps(old(vfs).state())
                    &&& old(vfs).dependable() ==> final(vfs).state() == old(vfs).state()
                    &&& number > u32::MAX <==> error@ == WalErrorView::SegmentNumberTooLarge(number)
                    &&& number <= u32::MAX ==> error is Io
                },
            },
            old(vfs).dependable() ==> (result is Ok <==> number <= u32::MAX && !old(vfs).state().names.contains_key(
                segment_names::segment_path(dir@, number as nat),
            )),
    {
        if number > u32::MAX as u64 {
            return Err(WalError::SegmentNumberTooLarge(number));
        }
        let path: String = segment_names::numbered_path(dir, number);
        match vfs.open(path.as_str(), OpenOptions::CreateNew) {
            Ok(file) => Ok(FileSegment { number, file, max_size, write_position: 0 }),
            Err(error) => Err(WalError::io(error)),
        }
    }

    /// Opens a segment whose records were found to end at `write_position`.
    pub fn open<V: Vfs>(vfs: &mut V, path: &str, number: u64, max_size: u64, write_position: u64) -> (result: Result<
        FileSegment,
        WalError,
    >)
        ensures
            final(vfs).dependable() == old(vfs).dependable(),
            final(vfs).journal() == old(vfs).journal(),
            final(vfs).state() == old(vfs).state(),
            match result {
                Ok(segment) => {
                    &&& final(vfs).state() == old(vfs).state()
                    &&& old(vfs).state().names.contains_key(path@)
                    &&& segment.file.id == old(vfs).state().names[path@]
                    &&& segment.file.path@ == path@
                    &&& segment.number == number
                    &&& segment.max_size == max_size
                    &&& segment.write_position == write_position
                    &&& segment.valid(final(vfs))
                    &&& segment.settled(final(vfs))
                },
                Err(error) => {
                    ||| number > u32::MAX && error@ == WalErrorView::SegmentNumberTooLarge(number)
                    ||| number <= u32::MAX && error is Io && (old(vfs).dependable() ==> !old(
                        vfs,
                    ).state().names.contains_key(path@))
                    ||| {
                        &&& number <= u32::MAX
                        &&& old(vfs).state().names.contains_key(path@)
                        &&& write_position > max_size || write_position != old(vfs).state().data[old(
                            vfs,
                        ).state().names[path@]].len()
                        &&& error@ == (WalErrorView::Corruption {
                            path: path@,
                            message: "recovered WAL segment position is inconsistent"@,
                        })
                    }
                },
            },
    {
        if number > u32::MAX as u64 {
            return Err(WalError::SegmentNumberTooLarge(number));
        }
        let file: VfsFile = match vfs.open(path, OpenOptions::Existing) {
            Ok(file) => file,
            Err(error) => {
                return Err(WalError::io(error));
            },
        };
        let consistent: bool = if write_position > max_size {
            false
        } else {
            match vfs.size(&file) {
                Ok(size) => size == write_position,
                Err(error) => {
                    return Err(WalError::io(error));
                },
            }
        };
        if !consistent {
            return Err(
                WalError::corruption(
                    file.path.as_str(),
                    String::from_str("recovered WAL segment position is inconsistent"),
                ),
            );
        }
        Ok(FileSegment { number, file, max_size, write_position })
    }

    /// What is needed to make the bytes appended so far durable.
    pub fn sync_handle(&self) -> (handle: SegmentSyncHandle)
        ensures
            handle.number == self.number,
            handle.file.id == self.file.id,
            handle.file.path@ == self.file.path@,
            handle.write_position == self.write_position,
    {
        SegmentSyncHandle { number: self.number, file: self.file.clone(), write_position: self.write_position }
    }

    /// Appends as many complete records as fit using one file write and
    /// returns the number accepted before the segment boundary.
    pub fn append_batch<V: Vfs>(&mut self, vfs: &mut V, records: &[(&[u8], &[u8])]) -> (result: Result<
        usize,
        WalError,
    >)
        requires
            old(self).valid(old(vfs)),
            batch_span(
                old(self).number,
                old(self).write_position as int,
                whole_payloads(records@),
                old(self).max_size as int,
            ) <= usize::MAX,
        ensures
            final(self).valid(final(vfs)),
            final(self).same_segment(old(self)),
            final(vfs).dependable() == old(vfs).dependable(),
            final(vfs).journal() == old(vfs).journal(),
            final(vfs).state().same_but(old(vfs).state(), old(self).file.id),
            ({
                let start = old(self).write_position;
                let payloads = whole_payloads(records@);
                let count = accepted(old(self).number, start as int, payloads, old(self).max_size as int);
                let error = batch_error(old(self).number, start, payloads, old(self).max_size);
                match result {
                    Ok(taken) => {
                        &&& error is None
                        &&& taken == count
                        &&& final(self).write_position == accepted_end(
                            old(self).number,
                            start as int,
                            payloads,
                            old(self).max_size as int,
                        )
                        &&& final(vfs).state().contents(&old(self).file) == vfs::overwritten(
                            old(vfs).state().contents(&old(self).file),
                            start as int,
                            stream_bytes(old(self).number, start as int, payloads.take(count as int)),
                        )
                        &&& old(self).settled(old(vfs)) ==> final(self).settled(final(vfs))
                    },
                    Err(found) => {
                        &&& final(self).write_position == start
                        &&& error is Some ==> error == Some(found@) && final(vfs).state() == old(vfs).state()
                        &&& error is None ==> {
                            &&& count > 0
                            &&& !(old(vfs).dependable() && old(self).settled(old(vfs)) && start + batch_span(
                                old(self).number,
                                start as int,
                                payloads,
                                old(self).max_size as int,
                            ) <= usize::MAX)
                            &&& found is Io || exists|actual: u64| actual != start && found@ == (
                            WalErrorView::Corruption {
                                path: old(self).file.path@,
                                message: #[trigger] misplaced_message(old(self).number, actual, start),
                            })
                        }
                    },
                }
            }),
    {
        let ghost payloads = whole_payloads(records@);
        let write_position: u64 = self.write_position;
        let number: u64 = self.number;
        let max_size: u64 = self.max_size;
        let ghost count = accepted(number, write_position as int, payloads, max_size as int);
        let ghost span = batch_span(number, write_position as int, payloads, max_size as int);
        let mut next_position: u64 = write_position;
        let mut encoded: Vec<u8> = Vec::new();
        let mut appended: usize = 0;
        proof {
            accepted_bound(number, write_position as int, payloads, max_size as int);
            assert(payloads.skip(0) =~= payloads);
            assert(payloads.take(0) =~= Seq::<Seq<u8>>::empty());
        }
        while appended < records.len()
            invariant_except_break
                count == appended + accepted(
                    number,
                    next_position as int,
                    payloads.skip(appended as int),
                    max_size as int,
                ),
            invariant
                *self == *old(self),
                *vfs == *old(vfs),
                self.valid(vfs),
                number == self.number,
                write_position == self.write_position,
                max_size == self.max_size,
                payloads == whole_payloads(records@),
                count == accepted(number, write_position as int, payloads, max_size as int),
                count <= payloads.len(),
                span == batch_span(number, write_position as int, payloads, max_size as int),
                span <= usize::MAX,
                appended <= count,
                next_position <= max_size,
                encoded@ == stream_bytes(number, write_position as int, payloads.take(appended as int)),
                next_position == write_position + encoded@.len(),
            ensures
                appended == count,
                batch_error(number, write_position, payloads, max_size) is None,
            decreases records@.len() - appended,
        {
            let encoded_start: usize = encoded.len();
            let prefix: &[u8] = records[appended].0;
            let payload: &[u8] = records[appended].1;
            let ghost here = payloads.skip(appended as int);
            proof {
                assert(here[0] == payloads[appended as int]);
                assert(payloads[appended as int] == prefix@ + payload@);
                assert(here.skip(1) =~= payloads.skip(appended + 1));
                stream_bytes_next(number, write_position as int, payloads, appended as int);
                let longer = stream_bytes(number, write_position as int, payloads.take(appended + 1));
                if appended < count {
                    stream_bytes_split(
                        number,
                        write_position as int,
                        payloads.take(appended + 1),
                        payloads.subrange(appended + 1, count as int),
                    );
                    assert(payloads.take(count as int) =~= payloads.take(appended + 1) + payloads.subrange(
                        appended + 1,
                        count as int,
                    ));
                    if count < payloads.len() {
                        stream_bytes_next(number, write_position as int, payloads, count as int);
                    }
                }
                assert(longer.len() <= span);
                framing::record_is_not_empty(
                    codec::FULL,
                    number as u32,
                    next_position as int,
                    prefix@ + payload@,
                    true,
                );
            }
            let ghost record = codec::encoded(number, next_position as int, prefix@ + payload@);
            match codec::encode_record_parts(&mut encoded, number, next_position, prefix, payload) {
                Ok(()) => {},
                Err(error) => {
                    assert(!framing::record_fits(
                        codec::FULL,
                        number as u32,
                        next_position as int,
                        prefix@ + payload@,
                    ));
                    assert(count == appended);
                    return Err(error);
                },
            }
            let encoded_size: u64 = (encoded.len() - encoded_start) as u64;
            assert(encoded_size == record.len());
            let record_end: u64 = match next_position.checked_add(encoded_size) {
                Some(record_end) => record_end,
                None => {
                    return Err(WalError::PositionExhausted);
                },
            };
            if record_end > max_size {
                encoded.truncate(encoded_start);
                assert(encoded@ =~= stream_bytes(number, write_position as int, payloads.take(appended as int)));
                if appended == 0 {
                    if write_position == 0 {
                        return Err(WalError::RecordTooLarge { size: encoded_size, max: max_size });
                    }
                    return Err(WalError::SegmentFull);
                }
                break;
            }
            next_position = record_end;
            appended += 1;
        }
        if appended == 0 {
            assert(vfs::overwritten(vfs.state().contents(&self.file), write_position as int, Seq::empty())
                =~= vfs.state().contents(&self.file));
            return Ok(0);
        }
        proof {
            if count < payloads.len() {
                stream_bytes_next(number, write_position as int, payloads, count as int);
            }
            assert(encoded@.len() <= span);
        }
        let appended_at: u64 = match vfs.append(&self.file, &encoded) {
            Ok(appended_at) => appended_at,
            Err(error) => {
                return Err(WalError::io(error));
            },
        };
        if appended_at != write_position {
            let mut message: String = String::from_str("segment ");
            text::push_decimal(&mut message, number);
            message.append(" appended at ");
            text::push_decimal(&mut message, appended_at);
            message.append(", expected ");
            text::push_decimal(&mut message, write_position);
            assert(message@ =~= misplaced_message(number, appended_at, write_position));
            return Err(WalError::corruption(self.file.path.as_str(), message));
        }
        self.write_position = next_position;
        Ok(appended)
    }

    /// Appends one record, or reports that the segment is full and leaves it
    /// as it is.
    pub fn append<V: Vfs>(&mut self, vfs: &mut V, payload: &[u8]) -> (result: Result<(), WalError>)
        requires
            old(self).valid(old(vfs)),
            codec::encoded(old(self).number, old(self).write_position as int, payload@).len() <= usize::MAX,
        ensures
            final(self).valid(final(vfs)),
            final(self).same_segment(old(self)),
            final(vfs).dependable() == old(vfs).dependable(),
            final(vfs).journal() == old(vfs).journal(),
            final(vfs).state().same_but(old(vfs).state(), old(self).file.id),
            ({
                let start = old(self).write_position;
                let record = codec::encoded(old(self).number, start as int, payload@);
                let end = start + record.len();
                match result {
                    Ok(()) => {
                        &&& end <= old(self).max_size
                        &&& final(self).write_position == end
                        &&& final(vfs).state().contents(&old(self).file) == vfs::overwritten(
                            old(vfs).state().contents(&old(self).file),
                            start as int,
                            record,
                        )
                        &&& old(self).settled(old(vfs)) ==> final(self).settled(final(vfs))
                    },
                    Err(error) => {
                        &&& final(self).write_position == start
                        &&& end > old(self).max_size ==> {
                            &&& final(vfs).state() == old(vfs).state()
                            &&& error@ == (if end > u64::MAX {
                                WalErrorView::PositionExhausted
                            } else if start == 0 {
                                WalErrorView::RecordTooLarge { size: record.len() as u64, max: old(self).max_size }
                            } else {
                                WalErrorView::SegmentFull
                            })
                        }
                        &&& end <= old(self).max_size ==> {
                            &&& !(old(vfs).dependable() && old(self).settled(old(vfs)) && end <= usize::MAX)
                            &&& error is Io || error is Corruption
                        }
                    },
                }
            }),
    {
        let empty: [u8; 0] = [];
        let parts: [(&[u8], &[u8]); 1] = [(empty.as_slice(), payload)];
        let ghost payloads = whole_payloads(parts@);
        let ghost start = self.write_position as int;
        proof {
            assert(empty@ + payload@ =~= payload@);
            assert(payloads =~= seq![payload@]);
            assert(payloads.take(0) =~= Seq::<Seq<u8>>::empty());
            assert(payloads.take(1) =~= payloads);
            assert(payloads.skip(1) =~= Seq::<Seq<u8>>::empty());
            reveal_with_fuel(stream_bytes, 2);
            reveal_with_fuel(accepted, 2);
            let record = codec::encoded(self.number, start, payload@);
            assert(stream_bytes(self.number, start, payloads) =~= record);
            assert(batch_span(self.number, start, payloads, self.max_size as int) == record.len());
        }
        match self.append_batch(vfs, parts.as_slice()) {
            Ok(_) => Ok(()),
            Err(error) => Err(error),
        }
    }

    /// Reads complete records whose combined payload size does not exceed
    /// `max_bytes`, returning the next unread position and the payloads. A
    /// fault after the first record is left for the next read to report.
    pub fn read<V: Vfs>(&self, vfs: &mut V, position: u64, max_bytes: usize) -> (result: Result<
        (u64, Vec<Vec<u8>>),
        WalError,
    >)
        requires
            self.valid(old(vfs)),
        ensures
            final(vfs).state() == old(vfs).state(),
            final(vfs).dependable() == old(vfs).dependable(),
            final(vfs).journal() == old(vfs).journal(),
            ({
                let contents = old(vfs).state().contents(&self.file);
                let end = self.write_position as int;
                let ideal = readable(self.number, contents, position as int, end, max_bytes as int);
                match result {
                    Ok((next, records)) => {
                        let payloads = bytestr::views(records@);
                        &&& position <= next <= end
                        &&& reads(self.number, contents, position as int, end, payloads, next as int)
                        &&& bytestr::total(payloads) <= max_bytes
                        &&& payloads.len() > 0 || position == end
                        &&& old(vfs).dependable() ==> ideal == (payloads, next as int)
                    },
                    Err(error) => {
                        ||| position > end && error@ == (WalErrorView::Corruption {
                            path: self.file.path@,
                            message: outside_message(self.number, position, self.write_position),
                        })
                        ||| position < end && read_error(
                            self.number,
                            self.file.path@,
                            contents,
                            position as int,
                            end,
                            max_bytes,
                        ) == Some(error@)
                        ||| position < end && !old(vfs).dependable() && error is Io
                    },
                }
            }),
    {
        let write_position: u64 = self.write_position;
        if position > write_position {
            let mut message: String = String::from_str("position ");
            text::push_decimal(&mut message, position);
            message.append(" is outside segment ");
            text::push_decimal(&mut message, self.number);
            message.append(" with size ");
            text::push_decimal(&mut message, write_position);
            assert(message@ =~= outside_message(self.number, position, write_position));
            return Err(WalError::corruption(self.file.path.as_str(), message));
        }
        let ghost contents = vfs.state().contents(&self.file);
        let ghost end = write_position as int;
        let ghost ideal = readable(self.number, contents, position as int, end, max_bytes as int);
        let mut at: u64 = position;
        let mut payload_bytes: usize = 0;
        let mut records: Vec<Vec<u8>> = Vec::new();
        proof {
            assert(bytestr::views(records@) =~= Seq::<Seq<u8>>::empty());
            assert(Seq::<Seq<u8>>::empty() + ideal.0 =~= ideal.0);
        }
        let mut reader = SegmentReader::new(&*vfs, &self.file, at, write_position);
        while at < write_position
            invariant_except_break
                reader.usable(),
                reader.dependable() == old(vfs).dependable(),
                reader.remaining() == contents.subrange(at as int, end),
            invariant
                self.number <= u32::MAX,
                end == write_position,
                write_position == self.write_position,
                end <= contents.len(),
                contents == old(vfs).state().contents(&self.file),
                position <= at <= write_position,
                position == at ==> records@.len() == 0,
                position < at ==> records@.len() > 0,
                payload_bytes == bytestr::total(bytestr::views(records@)),
                payload_bytes <= max_bytes,
                reads(self.number, contents, position as int, end, bytestr::views(records@), at as int),
                ideal == readable(self.number, contents, position as int, end, max_bytes as int),
                ({
                    let rest = readable(self.number, contents, at as int, end, max_bytes - payload_bytes);
                    ideal == (bytestr::views(records@) + rest.0, rest.1)
                }),
            ensures
                records@.len() > 0 || position == write_position,
                old(vfs).dependable() ==> ideal == (bytestr::views(records@), at as int),
            decreases write_position - at,
        {
            let ghost before = bytestr::views(records@);
            let ghost rest = readable(self.number, contents, at as int, end, max_bytes - payload_bytes);
            let decoded = codec::decode_record(
                &mut reader,
                self.file.path.as_str(),
                self.number,
                at,
                write_position,
            );
            let (next_position, payload) = match decoded {
                Ok(decoded) => decoded,
                Err(error) => {
                    if records.len() > 0 {
                        assert(old(vfs).dependable() ==> rest == (Seq::<Seq<u8>>::empty(), at as int));
                        assert(before + Seq::<Seq<u8>>::empty() =~= before);
                        break;
                    }
                    proof {
                        codec::held_bytes_suffice(
                            self.number as u32,
                            contents.subrange(at as int, end),
                            at as int,
                            end,
                            false,
                            Seq::empty(),
                        );
                        assert(before =~= Seq::<Seq<u8>>::empty());
                        if !(error is Io) {
                            assert(rest == (Seq::<Seq<u8>>::empty(), at as int));
                        }
                        assert(before + rest.0 =~= rest.0);
                    }
                    return Err(error);
                },
            };
            let next_payload_bytes: usize = match payload_bytes.checked_add(payload.len()) {
                Some(next_payload_bytes) => next_payload_bytes,
                None => {
                    assert(rest == (Seq::<Seq<u8>>::empty(), at as int));
                    assert(before + Seq::<Seq<u8>>::empty() =~= before);
                    return Err(WalError::PositionExhausted);
                },
            };
            if next_payload_bytes > max_bytes {
                if records.len() == 0 {
                    return Err(WalError::ReadBufferTooSmall { size: payload.len(), max: max_bytes });
                }
                assert(rest == (Seq::<Seq<u8>>::empty(), at as int));
                assert(before + Seq::<Seq<u8>>::empty() =~= before);
                break;
            }
            let ghost bytes = payload@;
            records.push(payload);
            proof {
                assert(bytestr::views(records@) =~= before.push(bytes));
                assert(before.push(bytes).drop_last() =~= before);
                reads_one_more(
                    self.number,
                    contents,
                    position as int,
                    end,
                    before,
                    at as int,
                    bytes,
                    next_position as int,
                );
                let further = readable(
                    self.number,
                    contents,
                    next_position as int,
                    end,
                    max_bytes - payload_bytes - bytes.len(),
                );
                assert(before + (seq![bytes] + further.0) =~= before.push(bytes) + further.0);
                assert(contents.subrange(at as int, end).skip(next_position - at) =~= contents.subrange(
                    next_position as int,
                    end,
                ));
            }
            payload_bytes = next_payload_bytes;
            at = next_position;
        }
        vfs.discard_cache(&self.file, at);
        Ok((at, records))
    }

    /// Removes the bytes at and after `position`.
    pub fn truncate<V: Vfs>(&mut self, vfs: &mut V, position: u64) -> (result: Result<(), WalError>)
        requires
            old(self).valid(old(vfs)),
        ensures
            final(self).valid(final(vfs)),
            final(self).same_segment(old(self)),
            final(vfs).dependable() == old(vfs).dependable(),
            final(vfs).journal() == old(vfs).journal(),
            final(vfs).state().same_but(old(vfs).state(), old(self).file.id),
            match result {
                Ok(()) => {
                    &&& position <= old(self).write_position
                    &&& final(self).write_position == position
                    &&& final(vfs).state().contents(&old(self).file) == old(vfs).state().contents(
                        &old(self).file,
                    ).take(position as int)
                },
                Err(error) => {
                    &&& *final(self) == *old(self)
                    &&& final(vfs).state().contents(&old(self).file) == old(vfs).state().contents(&old(self).file)
                    &&& position > old(self).write_position ==> error@ == (WalErrorView::Corruption {
                        path: old(self).file.path@,
                        message: truncation_message(old(self).number, old(self).write_position, position),
                    })
                    &&& position <= old(self).write_position ==> error is Io && !old(vfs).dependable()
                },
            },
    {
        if position > self.write_position {
            let mut message: String = String::from_str("cannot truncate segment ");
            text::push_decimal(&mut message, self.number);
            message.append(" from ");
            text::push_decimal(&mut message, self.write_position);
            message.append(" to ");
            text::push_decimal(&mut message, position);
            assert(message@ =~= truncation_message(self.number, self.write_position, position));
            return Err(WalError::corruption(self.file.path.as_str(), message));
        }
        match vfs.truncate(&self.file, position) {
            Ok(()) => {},
            Err(error) => {
                return Err(WalError::io(error));
            },
        }
        self.write_position = position;
        Ok(())
    }
}

/// How many of the records, taken in order, have no more than `budget` bytes
/// together.
pub open spec fn fitting(records: Seq<Seq<u8>>, budget: int) -> nat
    decreases records.len(),
{
    if records.len() == 0 || records[0].len() > budget {
        0
    } else {
        1 + fitting(records.skip(1), budget - records[0].len())
    }
}

/// As many records are read as fit, and no more would.
proof fn fitting_is_greatest(records: Seq<Seq<u8>>, budget: int)
    requires
        budget >= 0,
    ensures
        fitting(records, budget) <= records.len(),
        bytestr::total(records.take(fitting(records, budget) as int)) <= budget,
        fitting(records, budget) < records.len() ==> bytestr::total(records.take(fitting(records, budget) as int))
            + records[fitting(records, budget) as int].len() > budget,
    decreases records.len(),
{
    let count = fitting(records, budget) as int;
    if count == 0 {
        assert(records.take(0) =~= Seq::<Seq<u8>>::empty());
    } else {
        let others = records.skip(1);
        fitting_is_greatest(others, budget - records[0].len());
        assert(records.take(count) =~= seq![records[0]] + others.take(count - 1));
        total_split(records[0], others.take(count - 1));
    }
}

proof fn parts_sum_up(records: Seq<Seq<u8>>, count: int)
    requires
        0 <= count <= records.len(),
    ensures
        bytestr::total(records) == bytestr::total(records.take(count)) + bytestr::total(records.skip(count)),
    decreases count,
{
    if count == 0 {
        assert(records.skip(0) =~= records);
        assert(records.take(0) =~= Seq::<Seq<u8>>::empty());
    } else {
        let others = records.skip(1);
        parts_sum_up(others, count - 1);
        assert(records =~= seq![records[0]] + others);
        assert(records.take(count) =~= seq![records[0]] + others.take(count - 1));
        assert(records.skip(count) =~= others.skip(count - 1));
        total_split(records[0], others);
        total_split(records[0], others.take(count - 1));
    }
}

/// A read with a limit gives the records that fit and the position after them.
pub proof fn limited_read_gives_what_fits(number: u64, before: Seq<u8>, records: Seq<Seq<u8>>, budget: int)
    requires
        number <= u32::MAX,
        !any_blank(number, records),
        budget >= 0,
    ensures
        ({
            let start = before.len() as int;
            let contents = before + stream_bytes(number, start, records);
            let taken = records.take(fitting(records, budget) as int);
            readable(number, contents, start, contents.len() as int, budget) == (
                taken,
                start + stream_bytes(number, start, taken).len(),
            )
        }),
    decreases records.len(),
{
    let start = before.len() as int;
    let stream = stream_bytes(number, start, records);
    let contents = before + stream;
    let end = contents.len() as int;
    let count = fitting(records, budget) as int;
    let taken = records.take(count);
    if records.len() == 0 {
        assert(taken =~= Seq::<Seq<u8>>::empty());
    } else {
        let first = records[0];
        let others = records.skip(1);
        let record = codec::encoded(number, start, first);
        let rest = stream_bytes(number, start + record.len(), others);
        assert(!framing::is_blank(codec::FULL, number as u32, records[0]));
        framing::record_is_not_empty(codec::FULL, number as u32, start, first, true);
        assert(contents.subrange(start, end) =~= record + rest);
        codec::record_round_trip(number, start, first, rest, end);
        if first.len() > budget {
            assert(taken =~= Seq::<Seq<u8>>::empty());
        } else {
            assert forall|i: int| 0 <= i < others.len() implies !framing::is_blank(
                codec::FULL,
                number as u32,
                #[trigger] others[i],
            ) by {
                assert(others[i] == records[i + 1]);
            }
            limited_read_gives_what_fits(number, before + record, others, budget - first.len());
            fitting_is_greatest(others, budget - first.len());
            assert(before + record + rest =~= contents);
            assert(taken =~= seq![first] + others.take(count - 1));
            assert(taken.skip(1) =~= others.take(count - 1));
        }
    }
}

/// What reads with a limit give from `position` to the end, each one from
/// where the one before it stopped: the records of each read, and where it
/// stopped.
pub open spec fn read_in_turn(
    number: u64,
    contents: Seq<u8>,
    position: int,
    end: int,
    limit: int,
) -> Seq<(Seq<Seq<u8>>, int)>
    decreases end - position,
{
    if position >= end {
        Seq::empty()
    } else {
        let (found, stop) = readable(number, contents, position, end, limit);
        if position < stop <= end {
            seq![(found, stop)] + read_in_turn(number, contents, stop, end, limit)
        } else {
            seq![(found, stop)]
        }
    }
}

/// The records of all reads, joined.
pub open spec fn joined(reads: Seq<(Seq<Seq<u8>>, int)>) -> Seq<Seq<u8>>
    decreases reads.len(),
{
    if reads.len() == 0 {
        Seq::empty()
    } else {
        reads[0].0 + joined(reads.skip(1))
    }
}

/// Whether each read gives some of the records and no more than `limit` bytes,
/// and stops only at the end or before a record that would be too much.
pub open spec fn reads_are_full(reads: Seq<(Seq<Seq<u8>>, int)>, limit: int) -> bool {
    forall|i: int|
        0 <= i < reads.len() ==> {
            &&& (#[trigger] reads[i]).0.len() > 0
            &&& bytestr::total(reads[i].0) <= limit
            &&& i + 1 < reads.len() ==> bytestr::total(reads[i].0) + reads[i + 1].0[0].len() > limit
        }
}

/// Reads with a limit that no record exceeds, each one from where the one
/// before it stopped, give every record once and in order. They end at the end
/// of the segment, and each one gives as many records as the limit allows.
pub proof fn limited_reads_give_every_record_once(
    number: u64,
    before: Seq<u8>,
    records: Seq<Seq<u8>>,
    limit: usize,
)
    requires
        number <= u32::MAX,
        !any_blank(number, records),
        forall|i: int| 0 <= i < records.len() ==> (#[trigger] records[i]).len() <= limit,
        bytestr::total(records) <= usize::MAX,
    ensures
        ({
            let start = before.len() as int;
            let contents = before + stream_bytes(number, start, records);
            let end = contents.len() as int;
            let reads = read_in_turn(number, contents, start, end, limit as int);
            &&& joined(reads) == records
            &&& reads_are_full(reads, limit as int)
            &&& records.len() > 0 ==> reads.len() > 0 && reads.last().1 == end
            &&& forall|path: Seq<char>|
                #![trigger read_error(number, path, contents, start, end, limit)]
                start < end ==> read_error(number, path, contents, start, end, limit) is None
        }),
    decreases records.len(),
{
    let start = before.len() as int;
    let stream = stream_bytes(number, start, records);
    let contents = before + stream;
    let end = contents.len() as int;
    let budget = limit as int;
    let reads = read_in_turn(number, contents, start, end, budget);
    if records.len() > 0 {
        let count = fitting(records, budget) as int;
        let taken = records.take(count);
        let left = records.skip(count);
        let part = stream_bytes(number, start, taken);
        let stop = start + part.len();
        fitting_is_greatest(records, budget);
        assert(records[0].len() <= limit);
        assert(count > 0);
        limited_read_gives_what_fits(number, before, records, budget);
        stream_bytes_split(number, start, taken, left);
        assert(taken + left =~= records);
        assert(taken[0] == records[0]);
        framing::record_is_not_empty(codec::FULL, number as u32, start, records[0], true);
        assert forall|i: int| 0 <= i < left.len() implies !framing::is_blank(
            codec::FULL,
            number as u32,
            #[trigger] left[i],
        ) && left[i].len() <= limit by {
            assert(left[i] == records[i + count]);
        }
        parts_sum_up(records, count);
        limited_reads_give_every_record_once(number, before + part, left, limit);
        let rest = stream_bytes(number, stop, left);
        assert(before + part + rest =~= contents);
        let more = read_in_turn(number, contents, stop, end, budget);
        assert(start < stop <= end);
        assert(reads =~= seq![(taken, stop)] + more);
        assert(reads.skip(1) =~= more);
        if left.len() > 0 {
            assert(more.len() > 0);
            assert(joined(more)[0] == more[0].0[0]);
            assert(records[count] == left[0]);
            let next = codec::encoded(number, stop, left[0]);
            let others = left.skip(1);
            let behind = stream_bytes(number, stop + next.len(), others);
            assert(contents.subrange(stop, end) =~= next + behind);
            assert(!framing::is_blank(codec::FULL, number as u32, left[0]));
            codec::record_round_trip(number, stop, left[0], behind, end);
            assert(left =~= seq![left[0]] + others);
            total_split(left[0], others);
        } else {
            assert(rest =~= Seq::<u8>::empty());
        }
        assert forall|i: int| 0 <= i < reads.len() implies {
            &&& (#[trigger] reads[i]).0.len() > 0
            &&& bytestr::total(reads[i].0) <= limit
            &&& i + 1 < reads.len() ==> bytestr::total(reads[i].0) + reads[i + 1].0[0].len() > limit
        } by {
            if i > 0 {
                assert(reads[i] == more[i - 1]);
                if i + 1 < reads.len() {
                    assert(reads[i + 1] == more[i]);
                }
            } else if reads.len() > 1 {
                assert(reads[1] == more[0]);
            }
        }
    }
}

/// A segment accepts the most records, from the first on, that end within it:
/// the next one would not.
pub proof fn accepted_records_are_the_most(number: u64, position: int, records: Seq<Seq<u8>>, max: int)
    requires
        position <= max,
    ensures
        ({
            let count = accepted(number, position, records, max) as int;
            &&& count <= records.len()
            &&& position + stream_bytes(number, position, records.take(count)).len() <= max
            &&& count < records.len() ==> position + stream_bytes(number, position, records.take(count + 1)).len()
                > max
        }),
    decreases records.len(),
{
    accepted_records_end_inside(number, position, records, max);
    let count = accepted(number, position, records, max) as int;
    if count < records.len() {
        stream_bytes_next(number, position, records, count);
        refused_record_ends_outside(number, position, records, max);
    }
}

proof fn refused_record_ends_outside(number: u64, position: int, records: Seq<Seq<u8>>, max: int)
    requires
        position <= max,
        accepted(number, position, records, max) < records.len(),
    ensures
        accepted_end(number, position, records, max) + refused_size(number, position, records, max) > max,
    decreases records.len(),
{
    let end = position + codec::encoded(number, position, records[0]).len();
    let rest = records.skip(1);
    if end <= max {
        let count = accepted(number, end, rest, max) as int;
        refused_record_ends_outside(number, end, rest, max);
        assert(records.take(count + 1).skip(1) =~= rest.take(count));
        assert(records.take(count + 1)[0] == records[0]);
        assert(rest[count] == records[count + 1]);
    } else {
        assert(records.take(0) =~= Seq::empty());
    }
}

/// A batch is refused if and only if its first record does not end within the
/// segment: by a segment that holds records because it is full, and by an empty
/// one because the record is too large for any.
pub proof fn batch_is_refused_where_its_first_record_does_not_fit(
    number: u64,
    position: u64,
    records: Seq<Seq<u8>>,
    max: u64,
)
    requires
        records.len() > 0,
        position <= max,
        forall|i: int, at: int|
            0 <= i < records.len() && 0 <= at <= max ==> at + (#[trigger] codec::encoded(number, at, records[i])).len()
                <= u64::MAX,
    ensures
        ({
            let size = codec::encoded(number, position as int, records[0]).len();
            let error = batch_error(number, position, records, max);
            if position + size <= max {
                error is None
            } else if position == 0 {
                error == Some(WalErrorView::RecordTooLarge { size: size as u64, max })
            } else {
                error == Some(WalErrorView::SegmentFull)
            }
        }),
{
    let count = accepted(number, position as int, records, max as int) as int;
    accepted_records_end_inside(number, position as int, records, max as int);
    assert(records.take(0) =~= Seq::empty());
    if count < records.len() {
        let end = accepted_end(number, position as int, records, max as int);
        assert(end + codec::encoded(number, end, records[count]).len() <= u64::MAX);
    }
}

} // verus!
