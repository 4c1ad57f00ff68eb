//! Recovery of a log from its segment files.

use vstd::prelude::*;
use crate::bytestr;
use crate::framing;
use crate::framing::RecordFault;
use crate::le;
use crate::segment_names;
use crate::text;
use crate::vfs;
use crate::vfs::{FsState, OpenOptions, SyncJournal, Vfs, VfsFile};
use crate::wal::codec;
use crate::wal::codec::Decoded;
use crate::wal::error;
use crate::wal::error::{WalError, WalErrorView};
use crate::wal::files;
use crate::wal::segment;
use crate::wal::segment::FileSegment;

verus! {

broadcast use {crate::le::u32_width, crate::le::u64_width};

/// Largest encoded segment size before rotation.
pub const WAL_SEGMENT_SIZE: u64 = 67_108_864;

/// The sequence that a record starts with.
pub open spec fn record_sequence(record: Seq<u8>) -> Option<u64> {
    if record.len() < 8 {
        None
    } else {
        Some(le::u64_value(record.take(8)))
    }
}

/// What a record of the log holds: its sequence, and what was appended.
pub open spec fn log_record(sequence: u64, payload: Seq<u8>) -> Seq<u8> {
    le::u64_bytes(sequence) + payload
}

/// The sequence at the start of a record.
pub fn decode_sequence(path: &str, record: &[u8]) -> (result: Result<u64, WalError>)
    ensures
        match result {
            Ok(sequence) => record_sequence(record@) == Some(sequence),
            Err(error) => record_sequence(record@) is None && error@ == short_record(path@),
        },
{
    if record.len() < 8 {
        return Err(WalError::corruption(path, String::from_str("record shorter than the sequence prefix")));
    }
    let sequence: u64 = le::get_u64(record, 0);
    assert(record@.subrange(0, 8) =~= record@.take(8));
    Ok(sequence)
}

/// What is reported of a record without a sequence.
pub open spec fn short_record(path: Seq<char>) -> WalErrorView {
    WalErrorView::Corruption { path, message: "record shorter than the sequence prefix"@ }
}

/// What is reported of a record with another sequence than the next one.
pub open spec fn unexpected_sequence(path: Seq<char>, expected: u64, found: u64) -> WalErrorView {
    WalErrorView::Corruption {
        path,
        message: "expected WAL sequence "@ + text::decimal(expected as nat) + ", found "@ + text::decimal(
            found as nat,
        ),
    }
}

/// What is reported when no sequence is left.
pub open spec fn sequences_exhausted() -> WalErrorView {
    WalErrorView::Worker("WAL sequence space exhausted"@)
}

/// Why a record cannot be the one with sequence `next`.
pub open spec fn sequence_error(path: Seq<char>, record: Seq<u8>, next: u64) -> Option<WalErrorView> {
    match record_sequence(record) {
        None => Some(short_record(path)),
        Some(found) => if found != next {
            Some(unexpected_sequence(path, next, found))
        } else if next == u64::MAX {
            Some(sequences_exhausted())
        } else {
            None
        },
    }
}

/// What the records of a segment, read in order, come to.
pub enum SegmentScan {
    /// Every record up to the end has the sequence that follows.
    Clean { next_sequence: u64 },
    /// Records are whole and in sequence up to `position`, where one is not whole.
    Faulty { position: int, next_sequence: u64, fault: RecordFault },
    /// A record is out of sequence.
    Broken(WalErrorView),
}

/// What the records from `position` on come to, when `next` is the sequence of
/// the first of them.
pub open spec fn segment_scan(
    number: u64,
    path: Seq<char>,
    contents: Seq<u8>,
    position: int,
    next: u64,
) -> SegmentScan
    decreases contents.len() - position,
{
    let end = contents.len() as int;
    if position >= end {
        SegmentScan::Clean { next_sequence: next }
    } else {
        match codec::decoded_record(number, contents.subrange(position, end), position, end) {
            Decoded::Record { next: after, payload } => if position < after <= end {
                match sequence_error(path, payload, next) {
                    Some(error) => SegmentScan::Broken(error),
                    None => segment_scan(number, path, contents, after, (next + 1) as u64),
                }
            } else {
                SegmentScan::Clean { next_sequence: next }
            },
            Decoded::Faulty(fault) => SegmentScan::Faulty { position, next_sequence: next, fault },
            Decoded::Starved => SegmentScan::Clean { next_sequence: next },
        }
    }
}

/// What a log comes to: its next sequence and where its final segment ends, or
/// why it cannot be recovered.
pub enum Recovery {
    Recovered { next_sequence: u64, end: int },
    Failed(WalErrorView),
}

/// What is reported of a file that is larger than any segment.
pub open spec fn oversized(path: Seq<char>, size: nat) -> WalErrorView {
    WalErrorView::Corruption {
        path,
        message: "segment size "@ + text::decimal(size) + " exceeds the maximum "@ + text::decimal(
            WAL_SEGMENT_SIZE as nat,
        ),
    }
}

/// What one segment comes to, when `next` is the sequence of its first record.
pub open spec fn segment_recovery(
    number: u64,
    path: Seq<char>,
    contents: Seq<u8>,
    last: bool,
    next: u64,
) -> Recovery {
    if contents.len() > WAL_SEGMENT_SIZE {
        Recovery::Failed(oversized(path, contents.len()))
    } else if number > u32::MAX {
        Recovery::Failed(WalErrorView::SegmentNumberTooLarge(number))
    } else {
        match segment_scan(number, path, contents, 0, next) {
            SegmentScan::Clean { next_sequence } => Recovery::Recovered {
                next_sequence,
                end: contents.len() as int,
            },
            SegmentScan::Faulty { position, next_sequence, fault } => if !error::is_truncation(fault) {
                Recovery::Failed(error::record_error(path, fault))
            } else if last {
                Recovery::Recovered { next_sequence, end: position }
            } else {
                Recovery::Failed(WalErrorView::Corruption { path, message: fault.words() })
            },
            SegmentScan::Broken(error) => Recovery::Failed(error),
        }
    }
}

/// The bytes of a numbered segment in a directory.
pub open spec fn segment_contents(state: FsState, dir: Seq<char>, number: u64) -> Seq<u8> {
    state.data[state.names[segment_names::segment_path(dir, number as nat)]]
}

/// What the segments with the given numbers come to, in that order, when `next`
/// is the sequence of the first record. A torn record is dropped at the end of
/// the last segment only.
pub open spec fn log_recovery(state: FsState, dir: Seq<char>, numbers: Seq<u64>, next: u64) -> Recovery
    decreases numbers.len(),
{
    if numbers.len() == 0 {
        Recovery::Recovered { next_sequence: next, end: 0 }
    } else {
        let last = numbers.len() == 1;
        let path = segment_names::segment_path(dir, numbers[0] as nat);
        match segment_recovery(numbers[0], path, segment_contents(state, dir, numbers[0]), last, next) {
            Recovery::Failed(error) => Recovery::Failed(error),
            Recovery::Recovered { next_sequence, end } => if last {
                Recovery::Recovered { next_sequence, end }
            } else {
                log_recovery(state, dir, numbers.skip(1), next_sequence)
            },
        }
    }
}

/// Whether the numbers are those of all segment files in a directory, ascending.
pub open spec fn are_segment_numbers(names: Map<Seq<char>, u64>, dir: Seq<char>, numbers: Seq<u64>) -> bool {
    &&& forall|i: int, j: int| 0 <= i < j < numbers.len() ==> numbers[i] < numbers[j]
    &&& forall|number: u64|
        #[trigger] numbers.contains(number) <==> number < 10_000_000_000 && names.contains_key(
            segment_names::segment_path(dir, number as nat),
        )
}

/// The numbers of the segment files in a directory, ascending.
pub open spec fn segment_numbers(names: Map<Seq<char>, u64>, dir: Seq<char>) -> Seq<u64> {
    choose|numbers: Seq<u64>| are_segment_numbers(names, dir, numbers)
}

proof fn ascending_is_unique(left: Seq<u64>, right: Seq<u64>)
    requires
        forall|i: int, j: int| 0 <= i < j < left.len() ==> left[i] < left[j],
        forall|i: int, j: int| 0 <= i < j < right.len() ==> right[i] < right[j],
        forall|number: u64| #[trigger] left.contains(number) <==> right.contains(number),
    ensures
        left == right,
    decreases left.len(),
{
    if left.len() == 0 {
        if right.len() > 0 {
            assert(right.contains(right[0]) && left.contains(right[0]));
        }
        assert(left =~= right);
    } else {
        assert(left.contains(left.last()));
        assert(right.len() > 0);
        assert(right.contains(right.last()) && left.contains(right.last()));
        let i = choose|i: int| 0 <= i < left.len() && left[i] == right.last();
        let j = choose|j: int| 0 <= j < right.len() && right[j] == left.last();
        assert(left.last() == right.last());
        let shorter = left.drop_last();
        let other = right.drop_last();
        assert forall|number: u64| #[trigger] shorter.contains(number) <==> other.contains(number) by {
            if shorter.contains(number) {
                let k = choose|k: int| 0 <= k < shorter.len() && shorter[k] == number;
                assert(left[k] == number);
                assert(left.contains(number));
                let m = choose|m: int| 0 <= m < right.len() && right[m] == number;
                assert(m < right.len() - 1);
                assert(other[m] == number);
            }
            if other.contains(number) {
                let k = choose|k: int| 0 <= k < other.len() && other[k] == number;
                assert(right[k] == number);
                assert(right.contains(number) && left.contains(number));
                let m = choose|m: int| 0 <= m < left.len() && left[m] == number;
                assert(m < left.len() - 1);
                assert(shorter[m] == number);
            }
        }
        ascending_is_unique(shorter, other);
        assert(left =~= shorter.push(left.last()));
        assert(right =~= other.push(right.last()));
    }
}

/// A listing of segment files gives their numbers.
pub proof fn listed_numbers(names: Map<Seq<char>, u64>, dir: Seq<char>, files: Seq<(u64, String)>)
    requires
        segment_names::lists_segments(names, dir, files),
    ensures
        files.map_values(|file: (u64, String)| file.0) == segment_numbers(names, dir),
{
    let numbers = files.map_values(|file: (u64, String)| file.0);
    assert forall|number: u64| #[trigger]
        numbers.contains(number) <==> number < 10_000_000_000 && names.contains_key(
            segment_names::segment_path(dir, number as nat),
        ) by {
        if numbers.contains(number) {
            let i = choose|i: int| 0 <= i < numbers.len() && numbers[i] == number;
            assert(files[i].0 == number);
        }
        if number < 10_000_000_000 && names.contains_key(segment_names::segment_path(dir, number as nat)) {
            let i = choose|i: int| 0 <= i < files.len() && files[i].0 == number as nat;
            assert(numbers[i] == number);
        }
    }
    assert(are_segment_numbers(names, dir, numbers));
    ascending_is_unique(numbers, segment_numbers(names, dir));
}

/// What follows once the given records were read.
proof fn scan_after_reads(
    number: u64,
    path: Seq<char>,
    contents: Seq<u8>,
    position: int,
    payloads: Seq<Seq<u8>>,
    after: int,
    first: u64,
)
    requires
        payloads.len() > 0,
        segment::reads(number, contents, position, contents.len() as int, payloads, after),
    ensures
        ({
            let next = codec::decoded_record(
                number,
                contents.subrange(position, contents.len() as int),
                position,
                contents.len() as int,
            )->next;
            segment_scan(number, path, contents, position, first) == (match sequence_error(path, payloads[0], first) {
                Some(error) => SegmentScan::Broken(error),
                None => segment_scan(number, path, contents, next, (first + 1) as u64),
            }) && segment::reads(number, contents, next, contents.len() as int, payloads.skip(1), after)
        }),
{
}

/// Within the size of a segment, a read fails only at a record that is not
/// whole.
proof fn first_fault(number: u64, path: Seq<char>, contents: Seq<u8>, position: int, next: u64)
    requires
        number <= u32::MAX,
        contents.len() <= WAL_SEGMENT_SIZE,
        0 <= position < contents.len(),
    ensures
        segment::read_error(
            number,
            path,
            contents,
            position,
            contents.len() as int,
            WAL_SEGMENT_SIZE as usize,
        ) matches Some(error) ==> {
            &&& segment_scan(number, path, contents, position, next) matches SegmentScan::Faulty {
                position: stop,
                next_sequence,
                fault,
            }
            &&& stop == position
            &&& next_sequence == next
            &&& error == error::record_error(path, fault)
        },
{
    let end = contents.len() as int;
    let max = WAL_SEGMENT_SIZE as int;
    let (payloads, stop) = segment::readable(number, contents, position, end, max);
    segment::readable_fits(number, contents, position, end, max);
    codec::record_is_inside(
        number as u32,
        contents.subrange(stop, end),
        stop,
        end,
        false,
        Seq::empty(),
    );
    codec::record_is_inside(
        number as u32,
        contents.subrange(position, end),
        position,
        end,
        false,
        Seq::empty(),
    );
    segment::stop_is_inside(number, contents, position, end, max);
}

/// What is durable after a torn record at `end` was cut off a file.
pub open spec fn repair_journal(journal: SyncJournal, id: u64, contents: Seq<u8>, end: int) -> SyncJournal {
    if end < contents.len() {
        journal.with_file(id, contents.take(end))
    } else {
        journal
    }
}

/// Reads one segment from its start, and says what the next sequence is and
/// where the records end. A torn record at the end of the last segment is
/// cut off.
fn recover_segment<V: Vfs>(vfs: &mut V, path: &str, number: u64, last: bool, first: u64) -> (result: Result<
    (u64, FileSegment),
    WalError,
>)
    requires
        old(vfs).state().names.contains_key(path@),
    ensures
        final(vfs).dependable() == old(vfs).dependable(),
        ({
            let id = old(vfs).state().names[path@];
            let contents = old(vfs).state().data[id];
            match (segment_recovery(number, path@, contents, last, first), result) {
                (Recovery::Recovered { next_sequence, end }, Ok((next, segment))) => {
                    &&& next == next_sequence
                    &&& 0 <= end <= contents.len()
                    &&& segment.number == number
                    &&& segment.max_size == WAL_SEGMENT_SIZE
                    &&& segment.write_position == end
                    &&& segment.file.path@ == path@
                    &&& segment.file.id == id
                    &&& segment.valid(final(vfs))
                    &&& segment.settled(final(vfs))
                    &&& final(vfs).state().same_but(old(vfs).state(), id)
                    &&& final(vfs).state().data[id] == contents.take(end)
                    &&& final(vfs).journal() == repair_journal(old(vfs).journal(), id, contents, end)
                },
                (Recovery::Failed(failure), Err(error)) => {
                    &&& error@ == failure || !old(vfs).dependable() && error is Io
                    &&& final(vfs).state() == old(vfs).state()
                    &&& final(vfs).journal() == old(vfs).journal()
                },
                (Recovery::Recovered { end, .. }, Err(error)) => {
                    &&& !old(vfs).dependable() && error is Io
                    &&& final(vfs).journal() == old(vfs).journal()
                    &&& {
                        ||| final(vfs).state() == old(vfs).state()
                        ||| end < contents.len() && final(vfs).state() == old(vfs).state().with_data(
                            id,
                            contents.take(end),
                        )
                    }
                },
                (Recovery::Failed(_), Ok(_)) => false,
            }
        }),
{
    let opened: VfsFile = match vfs.open(path, OpenOptions::Existing) {
        Ok(file) => file,
        Err(error) => {
            return Err(WalError::io(error));
        },
    };
    let ghost id = opened.id;
    let ghost contents = vfs.state().data[id];
    let file_size: u64 = match vfs.size(&opened) {
        Ok(size) => size,
        Err(error) => {
            return Err(WalError::io(error));
        },
    };
    if file_size > WAL_SEGMENT_SIZE {
        let mut message: String = String::from_str("segment size ");
        text::push_decimal(&mut message, file_size);
        message.append(" exceeds the maximum ");
        text::push_decimal(&mut message, WAL_SEGMENT_SIZE);
        return Err(WalError::corruption(path, message));
    }
    let mut segment: FileSegment = match FileSegment::open(vfs, path, number, WAL_SEGMENT_SIZE, file_size) {
        Ok(segment) => segment,
        Err(error) => {
            return Err(error);
        },
    };
    let ghost scan = segment_scan(number, path@, contents, 0, first);
    let mut position: u64 = 0;
    let mut next_sequence: u64 = first;
    while position < file_size
        invariant_except_break
            segment.write_position == file_size,
            vfs.state() == old(vfs).state(),
            vfs.journal() == old(vfs).journal(),
            scan == segment_scan(number, path@, contents, position as int, next_sequence),
        invariant
            number <= u32::MAX,
            file_size <= WAL_SEGMENT_SIZE,
            file_size == contents.len(),
            position <= file_size,
            old(vfs).state().names.contains_key(path@),
            id == old(vfs).state().names[path@],
            contents == old(vfs).state().data[id],
            vfs.dependable() == old(vfs).dependable(),
            segment.valid(vfs),
            segment.settled(vfs),
            segment.number == number,
            segment.max_size == WAL_SEGMENT_SIZE,
            segment.file.path@ == path@,
            segment.file.id == id,
            scan == segment_scan(number, path@, contents, 0, first),
        ensures
            segment.write_position <= file_size,
            vfs.state().same_but(old(vfs).state(), id),
            vfs.state().data[id] == contents.take(segment.write_position as int),
            vfs.journal() == repair_journal(old(vfs).journal(), id, contents, segment.write_position as int),
            match scan {
                SegmentScan::Clean { next_sequence: next } => next == next_sequence && segment.write_position
                    == file_size,
                SegmentScan::Faulty { position: stop, next_sequence: next, fault } => {
                    &&& last
                    &&& error::is_truncation(fault)
                    &&& next == next_sequence
                    &&& stop == segment.write_position
                },
                SegmentScan::Broken(_) => false,
            },
        decreases file_size - position,
    {
        let (next_position, records) = match segment.read(vfs, position, WAL_SEGMENT_SIZE as usize) {
            Ok(read) => read,
            Err(WalError::Truncated { path: torn, message }) => {
                proof {
                    first_fault(number, path@, contents, position as int, next_sequence);
                }
                if !last {
                    return Err(WalError::Corruption { path: torn, message });
                }
                match segment.truncate(vfs, position) {
                    Ok(()) => {},
                    Err(error) => {
                        return Err(error);
                    },
                }
                match segment.sync_handle().sync(vfs) {
                    Ok(()) => {},
                    Err(error) => {
                        return Err(error);
                    },
                }
                break;
            },
            Err(error) => {
                proof {
                    first_fault(number, path@, contents, position as int, next_sequence);
                }
                return Err(error);
            },
        };
        if records.len() == 0 {
            return Err(WalError::Worker(String::from_str("WAL segment read made no recovery progress")));
        }
        let ghost payloads = bytestr::views(records@);
        let ghost mut here = position as int;
        let mut at: usize = 0;
        proof {
            assert(payloads.skip(0) =~= payloads);
            segment::reads_advance(
                number,
                contents,
                position as int,
                contents.len() as int,
                payloads,
                next_position as int,
            );
        }
        while at < records.len()
            invariant
                at <= records@.len(),
                payloads == bytestr::views(records@),
                contents == old(vfs).state().data[id],
                id == old(vfs).state().names[path@],
                contents.len() <= WAL_SEGMENT_SIZE,
                number <= u32::MAX,
                vfs.dependable() == old(vfs).dependable(),
                vfs.state() == old(vfs).state(),
                vfs.journal() == old(vfs).journal(),
                scan == segment_scan(number, path@, contents, 0, first),
                scan == segment_scan(number, path@, contents, here, next_sequence),
                segment::reads(
                    number,
                    contents,
                    here,
                    contents.len() as int,
                    payloads.skip(at as int),
                    next_position as int,
                ),
            decreases records@.len() - at,
        {
            proof {
                let rest = payloads.skip(at as int);
                scan_after_reads(number, path@, contents, here, rest, next_position as int, next_sequence);
                assert(rest[0] == records@[at as int]@);
                assert(rest.skip(1) =~= payloads.skip(at + 1));
            }
            let sequence: u64 = match decode_sequence(path, records[at].as_slice()) {
                Ok(sequence) => sequence,
                Err(error) => {
                    return Err(error);
                },
            };
            if sequence != next_sequence {
                let mut message: String = String::from_str("expected WAL sequence ");
                text::push_decimal(&mut message, next_sequence);
                message.append(", found ");
                text::push_decimal(&mut message, sequence);
                return Err(WalError::corruption(path, message));
            }
            proof {
                here = codec::decoded_record(
                    number,
                    contents.subrange(here, contents.len() as int),
                    here,
                    contents.len() as int,
                )->next;
            }
            next_sequence = match next_sequence.checked_add(1) {
                Some(next_sequence) => next_sequence,
                None => {
                    return Err(WalError::Worker(String::from_str("WAL sequence space exhausted")));
                },
            };
            at += 1;
        }
        proof {
            assert(payloads.skip(at as int) =~= Seq::<Seq<u8>>::empty());
        }
        position = next_position;
    }
    Ok((next_sequence, segment))
}

/// A segment that is not the last one is recovered only whole.
proof fn complete_segment(number: u64, path: Seq<char>, contents: Seq<u8>, next: u64)
    ensures
        segment_recovery(number, path, contents, false, next) matches Recovery::Recovered { end, .. } ==> end
            == contents.len(),
{
}

/// What a log starts from: the sequence of its next record, the number of its
/// next segment, and the segment that takes appends.
#[derive(Debug)]
pub struct RecoveredState {
    pub next_sequence: u64,
    pub next_segment_number: u64,
    pub active_segment: Option<FileSegment>,
}

/// The state after a torn record at the end of the last segment was cut off.
pub open spec fn repaired(state: FsState, dir: Seq<char>, number: u64, end: int) -> FsState {
    let id = state.names[segment_names::segment_path(dir, number as nat)];
    state.with_data(id, state.data[id].take(end))
}

/// What the recovery of a log directory comes to: the log and the repaired
/// filesystem, or why the log cannot be recovered.
pub open spec fn is_recovery<V: Vfs>(
    before: &V,
    after: &V,
    dir: Seq<char>,
    result: Result<RecoveredState, WalError>,
) -> bool {
    let numbers = segment_numbers(before.state().names, dir);
    let recovery = log_recovery(before.state(), dir, numbers, 0);
    match result {
        Ok(state) => {
            &&& forall|name: Seq<char>|
                !#[trigger] segment_names::is_malformed(before.state().names, dir, name)
            &&& recovery matches Recovery::Recovered { next_sequence, end }
            &&& state.next_sequence == next_sequence
            &&& numbers.len() == 0 ==> {
                &&& state.next_segment_number == 1
                &&& state.active_segment is None
                &&& after.state() == before.state()
                &&& after.journal() == before.journal()
            }
            &&& numbers.len() > 0 ==> {
                &&& state.next_segment_number == numbers.last() + 1
                &&& state.active_segment matches Some(active)
                &&& active.number == numbers.last()
                &&& active.max_size == WAL_SEGMENT_SIZE
                &&& active.write_position == end
                &&& active.valid(after)
                &&& active.settled(after)
                &&& active.file.path@ == segment_names::segment_path(dir, numbers.last() as nat)
                &&& active.file.id == before.state().names[active.file.path@]
                &&& after.state() == repaired(before.state(), dir, numbers.last(), end)
                &&& after.journal() == repair_journal(
                    before.journal(),
                    active.file.id,
                    segment_contents(before.state(), dir, numbers.last()),
                    end,
                )
            }
        },
        Err(error) => {
            &&& after.journal() == before.journal()
            &&& {
                ||| after.state() == before.state()
                ||| {
                    &&& !before.dependable()
                    &&& numbers.len() > 0
                    &&& recovery matches Recovery::Recovered { end, .. }
                    &&& after.state() == repaired(before.state(), dir, numbers.last(), end)
                }
            }
            &&& {
                ||| error is Io && (!before.dependable() || !before.state().directories.contains(dir))
                ||| exists|name: Seq<char>| #[trigger]
                    segment_names::is_malformed(before.state().names, dir, name) && error@
                        == files::misnamed(vfs::path_join(dir, name))
                ||| {
                    &&& forall|name: Seq<char>|
                        !#[trigger] segment_names::is_malformed(before.state().names, dir, name)
                    &&& recovery == Recovery::Failed(error@)
                }
            }
        },
    }
}

/// Scans the log, repairs a truncated final record, and restores the final
/// segment as the active segment.
pub fn recover_state<V: Vfs>(vfs: &mut V, dir: &str) -> (result: Result<RecoveredState, WalError>)
    ensures
        final(vfs).dependable() == old(vfs).dependable(),
        is_recovery(old(vfs), final(vfs), dir@, result),
{
    let files: Vec<(u64, String)> = match files::list_segments(&*vfs, dir) {
        Ok(files) => files,
        Err(error) => {
            return Err(error);
        },
    };
    let ghost before = vfs.state();
    let ghost numbers = segment_numbers(before.names, dir@);
    proof {
        listed_numbers(before.names, dir@, files@);
        assert(numbers.skip(0) =~= numbers);
    }
    let mut next_sequence: u64 = 0;
    let mut at: usize = 0;
    while files.len() - at > 1
        invariant
            before == old(vfs).state(),
            vfs.state() == before,
            vfs.journal() == old(vfs).journal(),
            vfs.dependable() == old(vfs).dependable(),
            numbers == segment_numbers(before.names, dir@),
            numbers == files@.map_values(|file: (u64, String)| file.0),
            segment_names::lists_segments(before.names, dir@, files@),
            at <= files@.len(),
            files@.len() > 0 ==> at < files@.len(),
            log_recovery(before, dir@, numbers, 0) == log_recovery(
                before,
                dir@,
                numbers.skip(at as int),
                next_sequence,
            ),
        decreases files@.len() - at,
    {
        let ghost rest = numbers.skip(at as int);
        proof {
            assert(rest[0] == files@[at as int].0);
            assert(rest.skip(1) =~= numbers.skip(at + 1));
        }
        let (next, segment) = match recover_segment(vfs, files[at].1.as_str(), files[at].0, false, next_sequence) {
            Ok(recovered) => recovered,
            Err(error) => {
                return Err(error);
            },
        };
        proof {
            let id = before.names[files@[at as int].1@];
            complete_segment(
                files@[at as int].0,
                files@[at as int].1@,
                segment_contents(before, dir@, files@[at as int].0),
                next_sequence,
            );
            assert(before.data[id].take(before.data[id].len() as int) =~= before.data[id]);
            assert(vfs.state().data =~= before.data);
            assert(vfs.state() =~= before);
        }
        next_sequence = next;
        at += 1;
    }
    if files.len() == 0 {
        return Ok(RecoveredState { next_sequence: 0, next_segment_number: 1, active_segment: None });
    }
    let ghost rest = numbers.skip(at as int);
    proof {
        assert(rest.len() == 1);
        assert(rest[0] == files@[at as int].0);
        assert(numbers.last() == files@[at as int].0);
    }
    let number: u64 = files[at].0;
    let (next, segment) = match recover_segment(vfs, files[at].1.as_str(), number, true, next_sequence) {
        Ok(recovered) => recovered,
        Err(error) => {
            return Err(error);
        },
    };
    proof {
        assert(vfs.state() =~= repaired(before, dir@, number, segment.write_position as int)) by {
            assert(vfs.state().data =~= repaired(before, dir@, number, segment.write_position as int).data);
        }
    }
    Ok(RecoveredState { next_sequence: next, next_segment_number: number + 1, active_segment: Some(segment) })
}

/// The records of consecutive appends, the first of which has sequence `first`.
pub open spec fn log_records(first: int, payloads: Seq<Seq<u8>>) -> Seq<Seq<u8>> {
    Seq::new(payloads.len(), |i: int| log_record((first + i) as u64, payloads[i]))
}

proof fn cut_segment_scan(
    number: u64,
    path: Seq<char>,
    before: Seq<u8>,
    payloads: Seq<Seq<u8>>,
    cut: int,
    first: u64,
)
    requires
        number <= u32::MAX,
        first + payloads.len() <= u64::MAX,
        before.len() <= cut <= before.len() + segment::stream_bytes(
            number,
            before.len() as int,
            log_records(first as int, payloads),
        ).len(),
    ensures
        ({
            let start = before.len() as int;
            let records = log_records(first as int, payloads);
            let contents = (before + segment::stream_bytes(number, start, records)).take(cut);
            let count = segment::accepted(number, start, records, cut);
            let stop = segment::accepted_end(number, start, records, cut);
            &&& count <= payloads.len()
            &&& stop <= cut
            &&& stop == cut ==> segment_scan(number, path, contents, start, first) == (SegmentScan::Clean {
                next_sequence: (first + count) as u64,
            })
            &&& stop < cut ==> {
                &&& segment_scan(number, path, contents, start, first) matches SegmentScan::Faulty {
                    position,
                    next_sequence,
                    fault,
                }
                &&& position == stop
                &&& next_sequence == first + count
                &&& error::is_truncation(fault)
            }
        }),
    decreases payloads.len(),
{
    let start = before.len() as int;
    let records = log_records(first as int, payloads);
    let stream = segment::stream_bytes(number, start, records);
    let contents = (before + stream).take(cut);
    let count = segment::accepted(number, start, records, cut);
    if payloads.len() == 0 {
        assert(records.take(0) =~= Seq::<Seq<u8>>::empty());
    } else {
        let head = records[0];
        let others = log_records(first + 1, payloads.skip(1));
        assert(records.skip(1) =~= others);
        let record = codec::encoded(number, start, head);
        let end = start + record.len();
        let rest = segment::stream_bytes(number, end, others);
        framing::record_is_not_empty(codec::FULL, number as u32, start, head, true);
        assert(head.take(8) =~= le::u64_bytes(first)) by {
            le::u64_round_trip(first);
        }
        le::u64_round_trip(first);
        if cut < end {
            if cut > start {
                codec::cut_record_is_truncated(number, start, head, cut - start);
            }
            assert(contents.subrange(start, cut) =~= record.take(cut - start));
            assert(records.take(0) =~= Seq::<Seq<u8>>::empty());
        } else {
            assert(contents.subrange(start, cut) =~= record + rest.take(cut - end));
            codec::record_round_trip(number, start, head, rest.take(cut - end), cut);
            cut_segment_scan(number, path, before + record, payloads.skip(1), cut, (first + 1) as u64);
            assert(before + record + rest =~= before + stream);
            let taken = segment::accepted(number, end, others, cut);
            assert(records.take(count as int).skip(1) =~= others.take(taken as int));
            assert(records.take(count as int)[0] == head);
        }
    }
}

/// Whatever is left of a segment after a crash, the records that end before
/// the cut are recovered, and the log goes on with the sequence after them.
pub proof fn cut_segment_is_recovered(
    number: u64,
    path: Seq<char>,
    payloads: Seq<Seq<u8>>,
    cut: int,
    first: u64,
)
    requires
        number <= u32::MAX,
        first + payloads.len() <= u64::MAX,
        0 <= cut <= segment::stream_bytes(number, 0, log_records(first as int, payloads)).len(),
        cut <= WAL_SEGMENT_SIZE,
    ensures
        ({
            let records = log_records(first as int, payloads);
            let contents = segment::stream_bytes(number, 0, records).take(cut);
            segment_recovery(number, path, contents, true, first) == (Recovery::Recovered {
                next_sequence: (first + segment::accepted(number, 0, records, cut)) as u64,
                end: segment::accepted_end(number, 0, records, cut),
            })
        }),
{
    let records = log_records(first as int, payloads);
    let stream = segment::stream_bytes(number, 0, records);
    assert(Seq::<u8>::empty() + stream =~= stream);
    cut_segment_scan(number, path, Seq::empty(), payloads, cut, first);
}

/// How many appends the batches hold.
pub open spec fn append_count(batches: Seq<Seq<Seq<u8>>>) -> int
    decreases batches.len(),
{
    if batches.len() == 0 {
        0
    } else {
        batches[0].len() + append_count(batches.skip(1))
    }
}

/// Whether each segment holds the records of one batch, whole and in sequence
/// from `first` on.
pub open spec fn holds_batches(
    state: FsState,
    dir: Seq<char>,
    numbers: Seq<u64>,
    batches: Seq<Seq<Seq<u8>>>,
    first: int,
) -> bool
    decreases numbers.len(),
{
    &&& numbers.len() == batches.len()
    &&& numbers.len() > 0 ==> {
        let contents = segment_contents(state, dir, numbers[0]);
        &&& numbers[0] <= u32::MAX
        &&& contents.len() <= WAL_SEGMENT_SIZE
        &&& contents == segment::stream_bytes(numbers[0], 0, log_records(first, batches[0]))
        &&& holds_batches(state, dir, numbers.skip(1), batches.skip(1), first + batches[0].len())
    }
}

/// A log that was written in sequence over any number of segments is recovered
/// whole: the next sequence follows the last record.
pub proof fn written_log_is_recovered(
    state: FsState,
    dir: Seq<char>,
    numbers: Seq<u64>,
    batches: Seq<Seq<Seq<u8>>>,
    first: u64,
)
    requires
        holds_batches(state, dir, numbers, batches, first as int),
        first + append_count(batches) <= u64::MAX,
    ensures
        ({
            &&& log_recovery(state, dir, numbers, first) matches Recovery::Recovered { next_sequence, end }
            &&& next_sequence == first + append_count(batches)
            &&& numbers.len() > 0 ==> end == segment_contents(state, dir, numbers.last()).len()
        }),
    decreases numbers.len(),
{
    if numbers.len() > 0 {
        let path = segment_names::segment_path(dir, numbers[0] as nat);
        let records = log_records(first as int, batches[0]);
        let contents = segment_contents(state, dir, numbers[0]);
        append_count_is_not_negative(batches.skip(1));
        assert(contents.take(contents.len() as int) =~= contents);
        assert(Seq::<u8>::empty() + contents =~= contents);
        cut_segment_scan(numbers[0], path, Seq::empty(), batches[0], contents.len() as int, first);
        segment::all_accepted(numbers[0], 0, records);
        assert(records.take(records.len() as int) =~= records);
        if numbers.len() > 1 {
            written_log_is_recovered(
                state,
                dir,
                numbers.skip(1),
                batches.skip(1),
                (first + batches[0].len()) as u64,
            );
        } else {
            assert(batches.skip(1).len() == 0);
        }
    }
}

proof fn append_count_is_not_negative(batches: Seq<Seq<Seq<u8>>>)
    ensures
        append_count(batches) >= 0,
    decreases batches.len(),
{
    if batches.len() > 0 {
        append_count_is_not_negative(batches.skip(1));
    }
}

/// The numbers of a directory's segments are those that its names say.
pub proof fn segment_numbers_are(names: Map<Seq<char>, u64>, dir: Seq<char>, numbers: Seq<u64>)
    requires
        are_segment_numbers(names, dir, numbers),
    ensures
        segment_numbers(names, dir) == numbers,
{
    let found = segment_numbers(names, dir);
    assert(are_segment_numbers(names, dir, found));
    ascending_is_unique(found, numbers);
}

/// A segment that ends inside a record is reported where it is not the last one,
/// and with its last record cut off at its end where it is.
pub proof fn cut_segment_elsewhere_is_reported(
    number: u64,
    path: Seq<char>,
    payloads: Seq<Seq<u8>>,
    cut: int,
    first: u64,
)
    requires
        number <= u32::MAX,
        first + payloads.len() <= u64::MAX,
        0 <= cut <= segment::stream_bytes(number, 0, log_records(first as int, payloads)).len(),
        cut <= WAL_SEGMENT_SIZE,
        segment::accepted_end(number, 0, log_records(first as int, payloads), cut) < cut,
    ensures
        segment_recovery(
            number,
            path,
            segment::stream_bytes(number, 0, log_records(first as int, payloads)).take(cut),
            false,
            first,
        ) matches Recovery::Failed(WalErrorView::Corruption { path: at, .. }) && at == path,
{
    let records = log_records(first as int, payloads);
    let stream = segment::stream_bytes(number, 0, records);
    assert(Seq::<u8>::empty() + stream =~= stream);
    cut_segment_scan(number, path, Seq::empty(), payloads, cut, first);
}

/// Records with their own sequences.
pub open spec fn sequenced(logs: Seq<(u64, Seq<u8>)>) -> Seq<Seq<u8>> {
    logs.map_values(|log: (u64, Seq<u8>)| log_record(log.0, log.1))
}

proof fn gap_breaks_a_scan(
    number: u64,
    path: Seq<char>,
    before: Seq<u8>,
    logs: Seq<(u64, Seq<u8>)>,
    first: u64,
    at: int,
)
    requires
        number <= u32::MAX,
        first + logs.len() <= u64::MAX,
        0 <= at < logs.len(),
        logs[at].0 != first + at,
        forall|i: int| 0 <= i < at ==> (#[trigger] logs[i]).0 == first + i,
    ensures
        ({
            let start = before.len() as int;
            let contents = before + segment::stream_bytes(number, start, sequenced(logs));
            segment_scan(number, path, contents, start, first) matches SegmentScan::Broken(
                WalErrorView::Corruption { path: found, .. },
            ) && found == path
        }),
    decreases at,
{
    let start = before.len() as int;
    let records = sequenced(logs);
    let stream = segment::stream_bytes(number, start, records);
    let contents = before + stream;
    let head = records[0];
    let others = sequenced(logs.skip(1));
    assert(records.skip(1) =~= others);
    let record = codec::encoded(number, start, head);
    let end = start + record.len();
    let rest = segment::stream_bytes(number, end, others);
    framing::record_is_not_empty(codec::FULL, number as u32, start, head, true);
    assert(head.take(8) =~= le::u64_bytes(logs[0].0)) by {
        le::u64_round_trip(logs[0].0);
    }
    le::u64_round_trip(logs[0].0);
    assert(contents.subrange(start, contents.len() as int) =~= record + rest);
    codec::record_round_trip(number, start, head, rest, contents.len() as int);
    if at > 0 {
        let later = logs.skip(1);
        assert(logs[0].0 == first + 0);
        assert forall|i: int| 0 <= i < at - 1 implies (#[trigger] later[i]).0 == (first + 1) + i by {
            assert(later[i] == logs[i + 1]);
        }
        gap_breaks_a_scan(number, path, before + record, later, (first + 1) as u64, at - 1);
        assert(before + record + rest =~= contents);
    }
}

/// A segment with a record whose sequence is not the one after the record before
/// it is reported as corrupt, wherever in the log it stands.
pub proof fn gap_in_a_segment_is_reported(
    number: u64,
    path: Seq<char>,
    logs: Seq<(u64, Seq<u8>)>,
    last: bool,
    first: u64,
    at: int,
)
    requires
        number <= u32::MAX,
        first + logs.len() <= u64::MAX,
        0 <= at < logs.len(),
        logs[at].0 != first + at,
        forall|i: int| 0 <= i < at ==> (#[trigger] logs[i]).0 == first + i,
        segment::stream_bytes(number, 0, sequenced(logs)).len() <= WAL_SEGMENT_SIZE,
    ensures
        segment_recovery(
            number,
            path,
            segment::stream_bytes(number, 0, sequenced(logs)),
            last,
            first,
        ) matches Recovery::Failed(WalErrorView::Corruption { path: found, .. }) && found == path,
{
    let stream = segment::stream_bytes(number, 0, sequenced(logs));
    assert(Seq::<u8>::empty() + stream =~= stream);
    gap_breaks_a_scan(number, path, Seq::empty(), logs, first, at);
}

/// A segment that is larger than any may be, or whose number the format cannot
/// hold, is not recovered.
pub proof fn impossible_segment_is_reported(number: u64, path: Seq<char>, contents: Seq<u8>, last: bool, next: u64)
    requires
        contents.len() > 67_108_864 || number > u32::MAX,
    ensures
        segment_recovery(number, path, contents, last, next) is Failed,
{
}

/// A log whose last segment was cut off anywhere is recovered with every record
/// that ends before the cut. What is left of the file are exactly these records,
/// and they are durable where anything was cut off.
pub proof fn cut_log_is_recovered(
    state: FsState,
    journal: SyncJournal,
    dir: Seq<char>,
    numbers: Seq<u64>,
    batches: Seq<Seq<Seq<u8>>>,
    payloads: Seq<Seq<u8>>,
    cut: int,
    first: u64,
)
    requires
        numbers.len() > 0,
        holds_batches(state, dir, numbers.drop_last(), batches, first as int),
        numbers.last() <= u32::MAX,
        first + append_count(batches) + payloads.len() <= u64::MAX,
        0 <= cut <= WAL_SEGMENT_SIZE,
        cut <= segment::stream_bytes(
            numbers.last(),
            0,
            log_records(first + append_count(batches), payloads),
        ).len(),
        segment_contents(state, dir, numbers.last()) == segment::stream_bytes(
            numbers.last(),
            0,
            log_records(first + append_count(batches), payloads),
        ).take(cut),
    ensures
        ({
            let number = numbers.last();
            let records = log_records(first + append_count(batches), payloads);
            let id = state.names[segment_names::segment_path(dir, number as nat)];
            let count = segment::accepted(number, 0, records, cut) as int;
            let whole = segment::stream_bytes(number, 0, records.take(count));
            &&& log_recovery(state, dir, numbers, first) matches Recovery::Recovered { next_sequence, end }
            &&& next_sequence == first + append_count(batches) + count
            &&& end == whole.len()
            &&& repaired(state, dir, number, end).data[id] == whole
            &&& repaired(state, dir, number, end).names == state.names
            &&& forall|other: u64| other != id ==> #[trigger] repaired(state, dir, number, end).data[other]
                == state.data[other]
            &&& end < cut ==> {
                let durable = repair_journal(journal, id, segment_contents(state, dir, number), end);
                durable.files.contains_key(id) && durable.files[id] == whole
            }
        }),
    decreases numbers.len(),
{
    append_count_is_not_negative(batches);
    if numbers.len() == 1 {
        let number = numbers[0];
        let path = segment_names::segment_path(dir, number as nat);
        let records = log_records(first as int, payloads);
        let count = segment::accepted(number, 0, records, cut) as int;
        assert(append_count(batches) == 0);
        cut_segment_is_recovered(number, path, payloads, cut, first);
        segment::accepted_records_end_inside(number, 0, records, cut);
        segment::stream_bytes_split(number, 0, records.take(count), records.skip(count));
        assert(records.take(count) + records.skip(count) =~= records);
        let stream = segment::stream_bytes(number, 0, records);
        let whole = segment::stream_bytes(number, 0, records.take(count));
        assert(stream.take(cut).take(whole.len() as int) =~= whole);
    } else {
        let number = numbers[0];
        let path = segment_names::segment_path(dir, number as nat);
        let front = numbers.drop_last();
        let records = log_records(first as int, batches[0]);
        let contents = segment_contents(state, dir, number);
        let next = first + batches[0].len();
        assert(front[0] == number);
        append_count_is_not_negative(batches.skip(1));
        assert(contents.take(contents.len() as int) =~= contents);
        assert(Seq::<u8>::empty() + contents =~= contents);
        cut_segment_scan(number, path, Seq::empty(), batches[0], contents.len() as int, first);
        segment::all_accepted(number, 0, records);
        assert(records.take(records.len() as int) =~= records);
        assert(numbers.skip(1).drop_last() =~= front.skip(1));
        assert(numbers.skip(1).last() == numbers.last());
        cut_log_is_recovered(
            state,
            journal,
            dir,
            numbers.skip(1),
            batches.skip(1),
            payloads,
            cut,
            next as u64,
        );
    }
}

/// The last segment holds its records and nothing else after a recovery. What was
/// cut off is gone for good: the shorter file is durable. No other file changes.
pub proof fn recovered_log_ends_with_its_records<V: Vfs>(
    before: &V,
    after: &V,
    dir: Seq<char>,
    state: RecoveredState,
    id: u64,
)
    requires
        is_recovery(before, after, dir, Ok(state)),
    ensures
        ({
            let numbers = segment_numbers(before.state().names, dir);
            &&& after.state().names == before.state().names
            &&& after.state().directories == before.state().directories
            &&& numbers.len() == 0 ==> after.state() == before.state() && after.journal() == before.journal()
                && state.active_segment is None && state.next_segment_number == 1
            &&& numbers.len() > 0 ==> {
                let active = state.active_segment->0;
                let held = before.state().data[active.file.id];
                let holds = after.state().data[active.file.id];
                &&& state.active_segment is Some
                &&& active.number == numbers.last() && state.next_segment_number == numbers.last() + 1
                &&& active.max_size == 67_108_864
                &&& active.file.path@ == segment_names::segment_path(dir, numbers.last() as nat)
                &&& before.state().names[active.file.path@] == active.file.id
                &&& holds == held.take(active.write_position as int)
                &&& holds.len() == active.write_position
                &&& id != active.file.id ==> after.state().data[id] == before.state().data[id]
                    && after.journal().files[id] == before.journal().files[id]
                &&& holds.len() < held.len() ==> after.journal().files.contains_key(active.file.id)
                    && after.journal().files[active.file.id] == holds
                &&& holds.len() == held.len() ==> after.journal() == before.journal()
            }
        }),
{
}

/// A log that cannot be recovered is left as it was, unless a call failed after
/// the torn end was cut off. Nothing is made durable.
pub proof fn failed_recovery_changes_nothing<V: Vfs>(before: &V, after: &V, dir: Seq<char>, error: WalError)
    requires
        is_recovery(before, after, dir, Err(error)),
    ensures
        after.journal() == before.journal(),
        before.dependable() ==> after.state() == before.state(),
        after.state().names == before.state().names,
        after.state().directories == before.state().directories,
{
}

} // verus!
