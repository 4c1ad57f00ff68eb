//! Records of the log inside segment files.

use vstd::prelude::*;
use crate::align;
use crate::bytestr;
use crate::framing;
use crate::framing::HEADER_SIZE;
use crate::le;
use crate::segment::envelope;
use crate::segment::envelope::{ALIGNMENT, FILE_HEADER_SIZE};
use crate::segment::error::{SegmentError, SegmentErrorView};
use crate::segment::record;
use crate::segment::scanner;
use crate::segment::scanner::{ScanOutcome, ScanState, SegmentScanner};
use crate::unit::wal::error;
use crate::unit::wal::error::{WalError, WalErrorView};
use crate::vfs::{OpenOptions, Vfs, VfsFile};
use crate::wal::recovery;

verus! {

broadcast use {crate::le::u32_width, crate::le::u64_width};

/// What is reported of a record without a sequence.
pub open spec fn short_record(path: Seq<char>) -> WalErrorView {
    WalErrorView::Corruption { path, message: "record shorter than the sequence prefix"@ }
}

/// Takes the sequence off a record.
fn decode_record(path: &str, record: Vec<u8>) -> (result: Result<(u64, Vec<u8>), WalError>)
    ensures
        match result {
            Ok((sequence, payload)) => recovery::record_sequence(record@) == Some(sequence) && payload@ == record@.skip(
                8,
            ),
            Err(error) => recovery::record_sequence(record@) is None && error@ == short_record(path@),
        },
{
    if record.len() < 8 {
        return Err(WalError::corruption(path, String::from_str("record shorter than the sequence prefix")));
    }
    let sequence: u64 = le::get_u64(&record, 0);
    assert(record@.subrange(0, 8) =~= record@.take(8));
    let payload: Vec<u8> = bytestr::copy_range(&record, 8, record.len());
    assert(payload@ =~= record@.skip(8));
    Ok((sequence, payload))
}

/// Reads the records of a segment file of the log, one after another.
pub struct WalSegmentScanner {
    pub scanner: SegmentScanner,
}

/// What a result of [`WalSegmentScanner::next`] means.
pub open spec fn steps<V: Vfs>(
    before: &SegmentScanner,
    after: &SegmentScanner,
    vfs: &V,
    result: Option<Result<(u64, Vec<u8>), WalError>>,
) -> bool {
    let outcome = scanner::next_outcome(
        before.number() as u32,
        vfs.state().contents(&before.source()),
        before.len(),
        before.state(),
    );
    let path = before.source().path@;
    if before.is_finished() {
        &&& result is None
        &&& after.is_finished()
        &&& after.good_end() == before.good_end()
    } else {
        match (outcome, result) {
            (ScanOutcome::Record { payload, state, .. }, Some(Ok((sequence, rest)))) => {
                &&& recovery::record_sequence(payload) == Some(sequence)
                &&& rest@ == payload.skip(8)
                &&& after.state() == state
                &&& after.good_end() == state.good_end
                &&& !after.is_finished()
            },
            (ScanOutcome::Record { payload, state, .. }, Some(Err(error))) => {
                ||| {
                    &&& recovery::record_sequence(payload) is None
                    &&& error@ == short_record(path)
                    &&& after.state() == state
                    &&& !after.is_finished()
                }
                ||| error is Io && !vfs.dependable()
            },
            (ScanOutcome::End { good_end }, None) => after.is_finished() && after.good_end() == good_end,
            (ScanOutcome::Tail { fault, good_end }, None) => {
                &&& before.tolerates()
                &&& after.is_finished()
                &&& after.good_end() == good_end
            },
            (ScanOutcome::Tail { fault, .. }, Some(Err(error))) => {
                ||| !before.tolerates() && error@ == (WalErrorView::Corruption { path, message: fault.words() })
                ||| error is Io && !vfs.dependable()
            },
            (ScanOutcome::Hard { fault, .. }, Some(Err(error))) => {
                ||| error@ == (WalErrorView::Corruption { path, message: fault.words() })
                ||| error is Io && !vfs.dependable()
            },
            (ScanOutcome::Starved, Some(Err(error))) => error is Io,
            (_, Some(Err(error))) => error is Io && !vfs.dependable(),
            _ => false,
        }
    }
}

impl WalSegmentScanner {
    /// Starts to read the segment file at a path.
    pub fn open<V: Vfs>(vfs: &mut V, path: &str, tolerate_tail: bool) -> (result: Result<WalSegmentScanner, WalError>)
        ensures
            final(vfs).dependable() == old(vfs).dependable(),
            final(vfs).journal() == old(vfs).journal(),
            final(vfs).state() == old(vfs).state(),
            ({
                let state = old(vfs).state();
                let contents = state.data[state.names[path@]];
                match result {
                    Ok(opened) => {
                        &&& state.names.contains_key(path@)
                        &&& scanner::opening_fault(contents) is None
                        &&& opened.scanner.valid(final(vfs))
                        &&& opened.scanner.source().id == state.names[path@]
                        &&& opened.scanner.source().path@ == path@
                        &&& opened.scanner.len() == contents.len()
                        &&& opened.scanner.number() == scanner::stored_number(contents)
                        &&& opened.scanner.tolerates() == tolerate_tail
                        &&& !opened.scanner.is_finished()
                        &&& opened.scanner.good_end() == FILE_HEADER_SIZE
                        &&& opened.scanner.state() == scanner::fresh_state(FILE_HEADER_SIZE as int)
                    },
                    Err(error) => {
                        ||| error is Io && (!old(vfs).dependable() || !state.names.contains_key(path@))
                        ||| {
                            &&& state.names.contains_key(path@)
                            &&& scanner::opening_fault(contents) matches Some(message)
                            &&& error@ == (WalErrorView::Corruption { path: path@, message })
                            &&& final(vfs).state() == old(vfs).state()
                        }
                    },
                }
            }),
    {
        let file: VfsFile = match vfs.open(path, OpenOptions::Existing) {
            Ok(file) => file,
            Err(error) => {
                return Err(WalError::io(error));
            },
        };
        match SegmentScanner::open0(&*vfs, &file, tolerate_tail) {
            Ok(scanner) => Ok(WalSegmentScanner { scanner }),
            Err(error) => Err(WalError::segment(error)),
        }
    }

    /// The number in the file's header.
    pub fn segment_number(&self) -> (number: u64)
        ensures
            number == self.scanner.number(),
    {
        self.scanner.segment_number()
    }

    /// Where the records that were read end.
    pub fn valid_len(&self) -> (len: u64)
        ensures
            len == self.scanner.good_end(),
    {
        self.scanner.valid_len()
    }

    /// Finds the next record.
    pub fn next<V: Vfs>(&mut self, vfs: &V) -> (result: Option<Result<(u64, Vec<u8>), WalError>>)
        requires
            old(self).scanner.valid(vfs),
        ensures
            final(self).scanner.valid(vfs),
            final(self).scanner.source() == old(self).scanner.source(),
            final(self).scanner.len() == old(self).scanner.len(),
            final(self).scanner.number() == old(self).scanner.number(),
            final(self).scanner.tolerates() == old(self).scanner.tolerates(),
            steps(&old(self).scanner, &final(self).scanner, vfs, result),
    {
        match self.scanner.next(vfs) {
            None => None,
            Some(Err(error)) => Some(Err(WalError::segment(error))),
            Some(Ok(found)) => {
                let path: String = self.scanner.path();
                Some(decode_record(path.as_str(), found.payload))
            },
        }
    }
}

/// A record as a mathematical value: its sequence and what was appended.
pub open spec fn record_view(record: (u64, Vec<u8>)) -> (u64, Seq<u8>) {
    (record.0, record.1@)
}

/// Records as mathematical values.
pub open spec fn record_views(records: Seq<(u64, Vec<u8>)>) -> Seq<(u64, Seq<u8>)> {
    records.map_values(|record: (u64, Vec<u8>)| record_view(record))
}

/// What a scan of a whole file comes to.
pub enum FileScan {
    /// The records, which end at `good_end`.
    Scanned { records: Seq<(u64, Seq<u8>)>, good_end: int },
    Failed(WalErrorView),
}

/// What the records of a file come to from a state on, after those found.
pub open spec fn scanned_records(
    segment_number: u32,
    path: Seq<char>,
    contents: Seq<u8>,
    state: ScanState,
    tolerate_tail: bool,
    found: Seq<(u64, Seq<u8>)>,
) -> FileScan
    decreases contents.len() - state.position,
{
    match scanner::next_outcome(segment_number, contents, contents.len() as int, state) {
        ScanOutcome::Record { payload, state: after, .. } => match recovery::record_sequence(payload) {
            None => FileScan::Failed(short_record(path)),
            Some(sequence) => {
                let more = found.push((sequence, payload.skip(8)));
                if state.position < after.position <= contents.len() {
                    scanned_records(segment_number, path, contents, after, tolerate_tail, more)
                } else {
                    FileScan::Scanned { records: more, good_end: after.good_end }
                }
            },
        },
        ScanOutcome::End { good_end } => FileScan::Scanned { records: found, good_end },
        ScanOutcome::Tail { fault, good_end } => if tolerate_tail {
            FileScan::Scanned { records: found, good_end }
        } else {
            FileScan::Failed(WalErrorView::Corruption { path, message: fault.words() })
        },
        ScanOutcome::Hard { fault, .. } => FileScan::Failed(
            WalErrorView::Corruption { path, message: fault.words() },
        ),
        ScanOutcome::Starved => FileScan::Scanned { records: found, good_end: state.good_end },
    }
}

/// What a scan of a whole file comes to.
pub open spec fn scanned_file(path: Seq<char>, contents: Seq<u8>, tolerate_tail: bool) -> FileScan {
    match scanner::opening_fault(contents) {
        Some(message) => FileScan::Failed(WalErrorView::Corruption { path, message }),
        None => scanned_records(
            scanner::stored_number(contents) as u32,
            path,
            contents,
            scanner::fresh_state(FILE_HEADER_SIZE as int),
            tolerate_tail,
            Seq::empty(),
        ),
    }
}

/// The records of a file end after its header.
pub proof fn records_end_after_header(
    segment_number: u32,
    path: Seq<char>,
    contents: Seq<u8>,
    state: ScanState,
    tolerate_tail: bool,
    found: Seq<(u64, Seq<u8>)>,
)
    requires
        FILE_HEADER_SIZE <= state.position,
        FILE_HEADER_SIZE <= state.good_end,
    ensures
        scanned_records(segment_number, path, contents, state, tolerate_tail, found) matches FileScan::Scanned {
            good_end,
            ..
        } ==> FILE_HEADER_SIZE <= good_end,
    decreases contents.len() - state.position,
{
    let len = contents.len() as int;
    scanner::scan_keeps_header(segment_number, contents, len, state);
    scanner::scan_moves_on(segment_number, contents, len, state);
    if let ScanOutcome::Record { payload, state: after, .. } = scanner::next_outcome(
        segment_number,
        contents,
        len,
        state,
    ) {
        if let Some(sequence) = recovery::record_sequence(payload) {
            records_end_after_header(
                segment_number,
                path,
                contents,
                after,
                tolerate_tail,
                found.push((sequence, payload.skip(8))),
            );
        }
    }
}

/// What a scan of a segment file found.
#[derive(Debug)]
pub struct SegmentRecords {
    pub segment_number: u64,
    pub records: Vec<(u64, Vec<u8>)>,
    pub valid_len: u64,
}

/// Reads all records of the segment file at a path.
pub fn scan_segment<V: Vfs>(vfs: &mut V, path: &str, tolerate_tail: bool) -> (result: Result<SegmentRecords, WalError>)
    ensures
        final(vfs).dependable() == old(vfs).dependable(),
        final(vfs).journal() == old(vfs).journal(),
        final(vfs).state() == old(vfs).state(),
        ({
            let state = old(vfs).state();
            let contents = state.data[state.names[path@]];
            match result {
                Ok(scan) => {
                    &&& state.names.contains_key(path@)
                    &&& scanner::opening_fault(contents) is None
                    &&& scan.segment_number == scanner::stored_number(contents)
                    &&& scanned_file(path@, contents, tolerate_tail) == (FileScan::Scanned {
                        records: record_views(scan.records@),
                        good_end: scan.valid_len as int,
                    })
                },
                Err(error) => {
                    ||| error is Io && (!old(vfs).dependable() || !state.names.contains_key(path@))
                    ||| {
                        &&& state.names.contains_key(path@)
                        &&& scanned_file(path@, contents, tolerate_tail) == FileScan::Failed(error@)
                        &&& final(vfs).state() == state
                    }
                },
            }
        }),
{
    let mut reader: WalSegmentScanner = match WalSegmentScanner::open(vfs, path, tolerate_tail) {
        Ok(reader) => reader,
        Err(error) => {
            return Err(error);
        },
    };
    let ghost contents = vfs.state().contents(&reader.scanner.source());
    let ghost number = reader.scanner.number() as u32;
    let ghost whole = scanned_file(path@, contents, tolerate_tail);
    let mut found: Vec<(u64, Vec<u8>)> = Vec::new();
    assert(record_views(found@) =~= Seq::<(u64, Seq<u8>)>::empty());
    loop
        invariant_except_break
            !reader.scanner.is_finished(),
            FILE_HEADER_SIZE <= reader.scanner.state().position,
            whole == scanned_records(
                number,
                path@,
                contents,
                reader.scanner.state(),
                tolerate_tail,
                record_views(found@),
            ),
        invariant
            vfs.state() == old(vfs).state(),
            vfs.dependable() == old(vfs).dependable(),
            vfs.journal() == old(vfs).journal(),
            reader.scanner.valid(&*vfs),
            reader.scanner.source().path@ == path@,
            contents == vfs.state().contents(&reader.scanner.source()),
            contents == vfs.state().data[vfs.state().names[path@]],
            vfs.state().names.contains_key(path@),
            scanner::opening_fault(contents) is None,
            reader.scanner.number() == scanner::stored_number(contents),
            reader.scanner.len() == contents.len(),
            reader.scanner.tolerates() == tolerate_tail,
            number == reader.scanner.number() as u32,
            whole == scanned_file(path@, contents, tolerate_tail),
        ensures
            whole == (FileScan::Scanned { records: record_views(found@), good_end: reader.scanner.good_end() }),
        decreases contents.len() - reader.scanner.state().position,
    {
        let ghost before = record_views(found@);
        proof {
            scanner::held_file_is_scanned(number, contents, contents.len() as int, reader.scanner.state());
            scanner::scan_moves_on(number, contents, contents.len() as int, reader.scanner.state());
        }
        match reader.next(&*vfs) {
            None => {
                break;
            },
            Some(Err(error)) => {
                return Err(error);
            },
            Some(Ok(record)) => {
                found.push(record);
                assert(record_views(found@) =~= before.push(record_view(record)));
            },
        }
    }
    Ok(SegmentRecords { segment_number: reader.segment_number(), records: found, valid_len: reader.valid_len() })
}

/// What a segment file holds of records: the sequence before what was
/// appended.
pub open spec fn log_records(records: Seq<(u64, Seq<u8>)>) -> Seq<Seq<u8>> {
    records.map_values(|record: (u64, Seq<u8>)| recovery::log_record(record.0, record.1))
}

/// A batch of records that starts at `start` of its file.
pub open spec fn batch_bytes(segment_number: u64, start: int, records: Seq<(u64, Seq<u8>)>) -> Seq<u8> {
    record::stream_bytes(segment_number, start, log_records(records), ALIGNMENT as int)
}

/// A size that no batch of the records exceeds, wherever it starts.
pub open spec fn batch_bound(records: Seq<(u64, Seq<u8>)>) -> nat
    decreases records.len(),
{
    if records.len() == 0 {
        0
    } else {
        batch_bound(records.drop_last()) + 2 * records.last().1.len() + 48 + ALIGNMENT as nat
    }
}

proof fn stream_continues(segment_number: u64, start: int, logs: Seq<Seq<u8>>, more: Seq<u8>)
    ensures
        ({
            let before = record::stream_bytes(segment_number, start, logs, ALIGNMENT as int);
            record::stream_bytes(segment_number, start, logs.push(more), ALIGNMENT as int) == before
                + record::aligned_record(segment_number, start + before.len(), more, ALIGNMENT as int)
        }),
    decreases logs.len(),
{
    let step = ALIGNMENT as int;
    let whole = record::stream_bytes(segment_number, start, logs.push(more), step);
    if logs.len() == 0 {
        assert(logs.push(more).skip(1) =~= Seq::<Seq<u8>>::empty());
        reveal_with_fuel(record::stream_bytes, 2);
        assert(whole =~= Seq::<u8>::empty() + record::aligned_record(segment_number, start, more, step));
    } else {
        let record = record::aligned_record(segment_number, start, logs[0], step);
        stream_continues(segment_number, start + record.len(), logs.skip(1), more);
        assert(logs.push(more).skip(1) =~= logs.skip(1).push(more));
        let before = record::stream_bytes(segment_number, start, logs, step);
        assert(whole =~= before + record::aligned_record(segment_number, start + before.len(), more, step));
    }
}

/// A batch fits in its bound.
pub proof fn batch_is_bounded(segment_number: u64, start: int, records: Seq<(u64, Seq<u8>)>)
    requires
        0 <= start,
    ensures
        batch_bytes(segment_number, start, records).len() <= batch_bound(records),
        batch_bytes(segment_number, start, records).len() as int % ALIGNMENT as int == 0,
    decreases records.len(),
{
    if records.len() > 0 {
        let rest = records.drop_last();
        let (sequence, payload) = records.last();
        let log = recovery::log_record(sequence, payload);
        batch_is_bounded(segment_number, start, rest);
        assert(log_records(records) =~= log_records(rest).push(log));
        stream_continues(segment_number, start, log_records(rest), log);
        let before = batch_bytes(segment_number, start, rest);
        let bare = record::fragments(segment_number as u32, start + before.len(), log);
        framing::record_size_bound(
            record::FULL,
            segment_number as u32,
            start + before.len() - FILE_HEADER_SIZE,
            log,
            true,
        );
        align::aligned_bounds(bare.len() as int, ALIGNMENT as int);
        align::multiples_add(
            before.len() as int,
            record::aligned_record(segment_number, start + before.len(), log, ALIGNMENT as int).len() as int,
            ALIGNMENT as int,
        );
    }
}

/// Encodes a batch of records that starts at `start_offset` of its file.
pub fn encode_batch(segment_number: u64, start_offset: u64, records: &Vec<(u64, Vec<u8>)>) -> (result: Result<
    Vec<u8>,
    WalError,
>)
    requires
        FILE_HEADER_SIZE <= start_offset,
        start_offset + batch_bound(record_views(records@)) <= usize::MAX,
    ensures
        match result {
            Ok(bytes) => segment_number <= u32::MAX && bytes@ == batch_bytes(
                segment_number,
                start_offset as int,
                record_views(records@),
            ),
            Err(error) => segment_number > u32::MAX && error@ == error::from_segment(
                SegmentErrorView::SegmentNumberTooLarge(segment_number),
            ),
        },
{
    if segment_number > u32::MAX as u64 {
        return Err(WalError::segment(SegmentError::SegmentNumberTooLarge(segment_number)));
    }
    let ghost all = record_views(records@);
    let mut output: Vec<u8> = Vec::new();
    let mut at: usize = 0;
    proof {
        assert(log_records(all.take(0)) =~= Seq::<Seq<u8>>::empty());
        assert(output@ =~= batch_bytes(segment_number, start_offset as int, all.take(0)));
    }
    while at < records.len()
        invariant
            at <= records@.len(),
            segment_number <= u32::MAX,
            all == record_views(records@),
            FILE_HEADER_SIZE <= start_offset,
            start_offset + batch_bound(all) <= usize::MAX,
            output@ == batch_bytes(segment_number, start_offset as int, all.take(at as int)),
        decreases records@.len() - at,
    {
        let sequence: u64 = records[at].0;
        let payload: &Vec<u8> = &records[at].1;
        let ghost log = recovery::log_record(sequence, payload@);
        let ghost before = output@;
        let ghost position = start_offset + before.len();
        proof {
            batch_bound_grows(all, at as int + 1);
            assert(all.take(at as int + 1).drop_last() =~= all.take(at as int));
            assert(all.take(at as int + 1).last() == (sequence, payload@));
            batch_is_bounded(segment_number, start_offset as int, all.take(at as int + 1));
            assert(log_records(all.take(at as int + 1)) =~= log_records(all.take(at as int)).push(log));
            stream_continues(segment_number, start_offset as int, log_records(all.take(at as int)), log);
            assert(payload.len() <= usize::MAX);
        }
        let mut framed: Vec<u8> = Vec::new();
        le::put_u64(&mut framed, sequence);
        bytestr::put_bytes(&mut framed, payload);
        assert(framed@ =~= log);
        let length: usize = output.len();
        match record::encode_record(segment_number, start_offset + length as u64, &framed, ALIGNMENT) {
            Ok(bytes) => {
                bytestr::put_bytes(&mut output, &bytes);
            },
            Err(error) => {
                return Err(WalError::segment(error));
            },
        }
        at += 1;
    }
    assert(all.take(all.len() as int) =~= all);
    Ok(output)
}

proof fn batch_bound_grows(records: Seq<(u64, Seq<u8>)>, count: int)
    requires
        0 <= count <= records.len(),
    ensures
        batch_bound(records.take(count)) <= batch_bound(records),
    decreases records.len() - count,
{
    if count < records.len() {
        batch_bound_grows(records, count + 1);
        assert(records.take(count + 1).drop_last() =~= records.take(count));
    } else {
        assert(records.take(count) =~= records);
    }
}

/// The records of a log come back from what a segment file holds of them.
pub proof fn log_record_round_trip(sequence: u64, payload: Seq<u8>)
    ensures
        recovery::record_sequence(recovery::log_record(sequence, payload)) == Some(sequence),
        recovery::log_record(sequence, payload).skip(8) == payload,
{
    let record = recovery::log_record(sequence, payload);
    le::u64_round_trip(sequence);
    assert(record.take(8) =~= le::u64_bytes(sequence));
    assert(record.skip(8) =~= payload);
}

proof fn batch_is_read(
    segment_number: u64,
    path: Seq<char>,
    before: Seq<u8>,
    written: Seq<(u64, Seq<u8>)>,
    state: ScanState,
    tolerate_tail: bool,
    found: Seq<(u64, Seq<u8>)>,
)
    requires
        segment_number <= u32::MAX,
        FILE_HEADER_SIZE <= before.len(),
        before.len() as int % ALIGNMENT as int == 0,
        scanner::stands_at(state, before.len() as int),
    ensures
        ({
            let contents = before + batch_bytes(segment_number, before.len() as int, written);
            scanned_records(segment_number as u32, path, contents, state, tolerate_tail, found) == (FileScan::Scanned {
                records: found + written,
                good_end: contents.len() as int,
            })
        }),
    decreases written.len(),
{
    let number = segment_number as u32;
    let contents = before + batch_bytes(segment_number, before.len() as int, written);
    let len = contents.len() as int;
    if written.len() > 0 {
        let record = first_record(segment_number, before.len() as int, written);
        let more = found.push(written[0]);
        let rest = batch_bytes(segment_number, (before + record).len() as int, written.skip(1));
        assert(contents + Seq::<u8>::empty() =~= contents);
        assert(before + record + rest + Seq::<u8>::empty() =~= before + record + rest);
        let (after, further) = next_of_batch(segment_number, before, written, Seq::empty(), state);
        scanner::scan_moves_on(number, contents, len, after);
        scanner::scan_moves_on(number, contents, len, further);
        log_record_round_trip(written[0].0, written[0].1);
        batch_is_read(segment_number, path, before + record, written.skip(1), further, tolerate_tail, more);
        assert(scanned_records(number, path, contents, after, tolerate_tail, more) == scanned_records(
            number,
            path,
            contents,
            further,
            tolerate_tail,
            more,
        ));
        assert(more + written.skip(1) =~= found + written);
    } else {
        assert(found + written =~= found);
    }
}

/// The first record of a batch, with its padding.
pub open spec fn first_record(segment_number: u64, start: int, written: Seq<(u64, Seq<u8>)>) -> Seq<u8> {
    record::aligned_record(
        segment_number,
        start,
        recovery::log_record(written[0].0, written[0].1),
        ALIGNMENT as int,
    )
}

/// A scan that stands before a batch finds its first record. It then goes on as
/// if it stood before the rest of the batch.
pub proof fn next_of_batch(
    segment_number: u64,
    before: Seq<u8>,
    written: Seq<(u64, Seq<u8>)>,
    tail: Seq<u8>,
    state: ScanState,
) -> (found: (ScanState, ScanState))
    requires
        segment_number <= u32::MAX,
        FILE_HEADER_SIZE <= before.len(),
        before.len() as int % ALIGNMENT as int == 0,
        written.len() > 0,
        scanner::stands_at(state, before.len() as int),
    ensures
        ({
            let number = segment_number as u32;
            let record = first_record(segment_number, before.len() as int, written);
            let next = before + record;
            let rest = written.skip(1);
            let contents = before + batch_bytes(segment_number, before.len() as int, written) + tail;
            let len = contents.len() as int;
            let bare = record::fragments(number, before.len() as int, recovery::log_record(written[0].0, written[0].1));
            &&& scanner::next_outcome(number, contents, len, state) matches ScanOutcome::Record {
                start: at,
                payload,
                state: after,
            }
            &&& at == before.len()
            &&& payload == recovery::log_record(written[0].0, written[0].1)
            &&& after == found.0
            &&& scanner::stands_at(after, (before.len() + bare.len()) as int)
            &&& align::aligned(after.position, ALIGNMENT as int) == next.len()
            &&& bytestr::is_zero(contents.subrange(after.position, next.len() as int))
            &&& state.position < after.position <= found.1.position <= len
            &&& rest.len() > 0 || tail.len() == 0 || tail.len() >= HEADER_SIZE ==> scanner::next_outcome(
                number,
                contents,
                len,
                found.0,
            ) == scanner::next_outcome(number, contents, len, found.1)
            &&& scanner::stands_at(found.1, next.len() as int)
            &&& next.len() as int % ALIGNMENT as int == 0
            &&& contents == next + batch_bytes(segment_number, next.len() as int, rest) + tail
        }),
{
    let number = segment_number as u32;
    let start = before.len() as int;
    let step = ALIGNMENT as int;
    let logs = log_records(written);
    let stream = batch_bytes(segment_number, start, written);
    let contents = before + stream + tail;
    let len = contents.len() as int;
    let log = logs[0];
    let record = record::aligned_record(segment_number, start, log, step);
    let rest = batch_bytes(segment_number, start + record.len(), written.skip(1));
    let bare = record::fragments(number, start, log);
    let stop = start + bare.len();
    let next = start + record.len();
    assert(logs.skip(1) =~= log_records(written.skip(1)));
    framing::record_is_not_empty(record::FULL, number, start - FILE_HEADER_SIZE, log, true);
    align::aligned_bounds(bare.len() as int, step);
    align::aligned_shift(bare.len() as int, start, step);
    align::multiples_add(start, record.len() as int, step);
    scanner::record_is_found(segment_number, before, log, rest + tail, state);
    assert(before + record + (rest + tail) =~= contents);
    assert(before + record + rest + tail =~= contents);
    if written.skip(1).len() > 0 {
        let later = logs.skip(1)[0];
        framing::record_is_not_empty(record::FULL, number, next - FILE_HEADER_SIZE, later, true);
        align::aligned_bounds(record::fragments(number, next, later).len() as int, step);
    }
    match scanner::next_outcome(number, contents, len, state) {
        ScanOutcome::Record { state: after, .. } => {
            assert(contents.subrange(stop, next) =~= bytestr::zeros(next - stop));
            if written.skip(1).len() > 0 || tail.len() == 0 || tail.len() >= HEADER_SIZE {
                scanner::padding_is_skipped(number, contents, len, after);
            }
            (after, scanner::skipped(after, next))
        },
        _ => (state, state),
    }
}

/// A segment file gives back the records of the batches that were written to
/// it, in order and with their payloads.
pub proof fn written_records_are_read(
    segment_number: u64,
    path: Seq<char>,
    written: Seq<(u64, Seq<u8>)>,
    tolerate_tail: bool,
)
    requires
        segment_number <= u32::MAX,
    ensures
        ({
            let contents = segment_bytes(segment_number, written);
            &&& scanner::opening_fault(contents) is None
            &&& scanner::stored_number(contents) == segment_number
            &&& scanned_file(path, contents, tolerate_tail) == (FileScan::Scanned {
                records: written,
                good_end: contents.len() as int,
            })
        }),
{
    let header = envelope::file_header(segment_number, ALIGNMENT as u32);
    let contents = segment_bytes(segment_number, written);
    envelope::header_round_trip(segment_number, ALIGNMENT, Seq::empty(), true);
    assert(header + Seq::<u8>::empty() =~= header);
    assert(contents.take(FILE_HEADER_SIZE as int) =~= header);
    batch_is_read(
        segment_number,
        path,
        header,
        written,
        scanner::fresh_state(FILE_HEADER_SIZE as int),
        tolerate_tail,
        Seq::empty(),
    );
    assert(Seq::<(u64, Seq<u8>)>::empty() + written =~= written);
}

/// A segment file of the log: its header and the batches that were written to
/// it.
pub open spec fn segment_bytes(segment_number: u64, written: Seq<(u64, Seq<u8>)>) -> Seq<u8> {
    envelope::file_header(segment_number, ALIGNMENT as u32) + batch_bytes(
        segment_number,
        FILE_HEADER_SIZE as int,
        written,
    )
}

/// The records of a range of sequences.
pub open spec fn within(records: Seq<(u64, Seq<u8>)>, from: u64, through: u64) -> Seq<(u64, Seq<u8>)>
    decreases records.len(),
{
    if records.len() == 0 {
        Seq::empty()
    } else if from <= records[0].0 <= through {
        seq![records[0]] + within(records.skip(1), from, through)
    } else {
        within(records.skip(1), from, through)
    }
}

/// The answer of a number of calls that give the records one by one.
pub open spec fn handed_out(all: Seq<(u64, Seq<u8>)>, calls: nat) -> (Seq<(u64, Seq<u8>)>, bool) {
    if calls <= all.len() {
        (all.take(calls as int), false)
    } else {
        (all, true)
    }
}

/// The sequences of records follow one another and `previous`.
pub open spec fn follows(previous: Option<u64>, records: Seq<(u64, Seq<u8>)>) -> bool
    decreases records.len(),
{
    records.len() > 0 ==> {
        &&& previous matches Some(last) ==> records[0].0 == last + 1
        &&& follows(Some(records[0].0), records.skip(1))
    }
}

/// Sequences that follow one another never come back into a range that they
/// have passed.
pub proof fn past_stays_past(last: u64, records: Seq<(u64, Seq<u8>)>, from: u64, through: u64)
    requires
        follows(Some(last), records),
        last >= through,
    ensures
        within(records, from, through).len() == 0,
    decreases records.len(),
{
    if records.len() > 0 {
        past_stays_past(records[0].0, records.skip(1), from, through);
    }
}

/// It does not matter from where at or before its first record a run is read.
pub proof fn early_starts_agree(
    last: u64,
    records: Seq<(u64, Seq<u8>)>,
    from: u64,
    other: u64,
    through: u64,
)
    requires
        follows(Some(last), records),
        from <= last + 1,
        other <= last + 1,
    ensures
        within(records, from, through) == within(records, other, through),
    decreases records.len(),
{
    if records.len() > 0 {
        early_starts_agree(records[0].0, records.skip(1), from, other, through);
    }
}

/// Records that follow one another do so in both parts of a split.
pub proof fn parts_follow(previous: Option<u64>, front: Seq<(u64, Seq<u8>)>, back: Seq<(u64, Seq<u8>)>)
    requires
        follows(previous, front + back),
    ensures
        follows(previous, front),
        follows(
            if front.len() > 0 {
                Some(front.last().0)
            } else {
                previous
            },
            back,
        ),
    decreases front.len(),
{
    if front.len() == 0 {
        assert(front + back =~= back);
    } else {
        let rest = front.skip(1);
        assert((front + back)[0] == front[0]);
        assert((front + back).skip(1) =~= rest + back);
        parts_follow(Some(front[0].0), rest, back);
        if rest.len() > 0 {
            assert(rest.last() == front.last());
        } else {
            assert(front.last() == front[0]);
        }
    }
}

/// Records that follow one another, and others that follow them, follow one
/// another all together.
pub proof fn followers_follow(previous: Option<u64>, front: Seq<(u64, Seq<u8>)>, back: Seq<(u64, Seq<u8>)>)
    requires
        follows(previous, front),
        follows(
            if front.len() > 0 {
                Some(front.last().0)
            } else {
                previous
            },
            back,
        ),
    ensures
        follows(previous, front + back),
    decreases front.len(),
{
    if front.len() == 0 {
        assert(front + back =~= back);
    } else {
        let rest = front.skip(1);
        if rest.len() > 0 {
            assert(rest.last() == front.last());
        }
        followers_follow(Some(front[0].0), rest, back);
        assert((front + back).skip(1) =~= rest + back);
    }
}

/// Records follow one another if and only if each has the sequence after the one
/// before it, and the first one the sequence after `previous`, if there is one.
pub proof fn followers_count_up(previous: Option<u64>, records: Seq<(u64, Seq<u8>)>)
    ensures
        follows(previous, records) <==> {
            &&& records.len() > 0 && previous is Some ==> records[0].0 == previous->0 + 1
            &&& forall|i: int| 0 <= i < records.len() ==> (#[trigger] records[i]).0 == records[0].0 + i
        },
    decreases records.len(),
{
    if records.len() > 0 {
        let rest = records.skip(1);
        followers_count_up(Some(records[0].0), rest);
        if follows(previous, records) {
            assert forall|i: int| 0 <= i < records.len() implies (#[trigger] records[i]).0 == records[0].0 + i by {
                if i > 0 {
                    assert(rest[i - 1] == records[i]);
                    assert(rest[0] == records[1]);
                }
            }
        }
        if forall|i: int| 0 <= i < records.len() ==> (#[trigger] records[i]).0 == records[0].0 + i {
            assert forall|i: int| 0 <= i < rest.len() implies (#[trigger] rest[i]).0 == rest[0].0 + i by {
                assert(rest[i] == records[i + 1]);
                assert(rest[0] == records[1]);
            }
            if rest.len() > 0 {
                assert(rest[0] == records[1]);
            }
        }
    }
}

/// What is read of a range are all records with sequences in it, in order, and
/// no others.
pub proof fn range_is_a_filter(records: Seq<(u64, Seq<u8>)>, from: u64, through: u64)
    ensures
        within(records, from, through) == records.filter(
            |record: (u64, Seq<u8>)| from <= record.0 && record.0 <= through,
        ),
    decreases records.len(),
{
    let pred = |record: (u64, Seq<u8>)| from <= record.0 && record.0 <= through;
    if records.len() == 0 {
        reveal(Seq::filter);
        assert(within(records, from, through) =~= records.filter(pred));
    } else {
        let first = seq![records[0]];
        range_is_a_filter(records.skip(1), from, through);
        assert(records =~= first + records.skip(1));
        vstd::seq::Seq::filter_distributes_over_add(first, records.skip(1), pred);
        assert(first.filter(pred) =~= if pred(records[0]) { first } else { Seq::empty() }) by {
            reveal(Seq::filter);
            assert(first.drop_last() =~= Seq::empty());
            assert(first.drop_last().filter(pred) =~= Seq::empty());
        }
        assert(within(records, from, through) =~= records.filter(pred));
    }
}

/// A scan that is over says where the whole records end, and stays over. It is
/// over at the end of the file, or at a torn end that it tolerates, and nowhere
/// else. A record that it gives is the sequence and the bytes behind it.
pub proof fn scan_is_over_at_the_end<V: Vfs>(
    before: &SegmentScanner,
    after: &SegmentScanner,
    vfs: &V,
    result: Option<Result<(u64, Vec<u8>), WalError>>,
)
    requires
        steps(before, after, vfs, result),
    ensures
        ({
            let outcome = scanner::next_outcome(
                before.number() as u32,
                vfs.state().contents(&before.source()),
                before.len(),
                before.state(),
            );
            &&& before.is_finished() ==> result is None && after.is_finished() && after.good_end()
                == before.good_end()
            &&& result is None ==> after.is_finished()
            &&& !before.is_finished() && result is None ==> {
                ||| outcome is End && after.good_end() == outcome->End_good_end
                ||| outcome is Tail && before.tolerates() && after.good_end() == outcome->Tail_good_end
            }
            &&& !before.is_finished() && outcome is Hard ==> result is Some && result->0 is Err
            &&& !before.is_finished() && outcome is Tail && !before.tolerates() ==> result is Some && result->0 is Err
            &&& result matches Some(Ok((sequence, rest))) ==> {
                &&& outcome is Record
                &&& outcome->payload.len() >= 8
                &&& sequence == le::u64_value(outcome->payload.take(8))
                &&& rest@ == outcome->payload.skip(8)
                &&& after.state() == outcome->Record_state
                &&& after.good_end() == outcome->Record_state.good_end
                &&& !after.is_finished()
            }
        }),
{
}

} // verus!
