//! Reading the log one whole segment at a time.

use std::collections::VecDeque;
use vstd::prelude::*;
use crate::segment::envelope::FILE_HEADER_SIZE;
use crate::segment::scanner;
use crate::text;
use crate::unit::wal::error::{WalError, WalErrorView};
use crate::unit::wal::files;
use crate::unit::wal::records;
use crate::unit::wal::records::{FileScan, SegmentRecords};
use crate::unit::wal::recovery;
use crate::unit::wal::recovery::TailRepair;
use crate::vfs::{FsState, SyncJournal, Vfs};

verus! {

/// The sequences and the newest segment of a recovered log.
#[derive(Debug)]
pub struct RecoverySummary {
    pub earliest_sequence: Option<u64>,
    pub last_sequence: Option<u64>,
    pub last_segment_number: u64,
}

/// Why the sequences of records do not follow one another and `previous`.
pub open spec fn run_error(
    path: Seq<char>,
    previous: Option<u64>,
    records: Seq<(u64, Seq<u8>)>,
) -> Option<WalErrorView>
    decreases records.len(),
{
    if records.len() == 0 {
        None
    } else {
        match recovery::sequence_error(path, previous, records[0].0) {
            Some(error) => Some(error),
            None => run_error(path, Some(records[0].0), records.skip(1)),
        }
    }
}

/// What a log comes to.
pub enum LogRecovery {
    Recovered { summary: RecoverySummary, repair: TailRepair },
    Failed(WalErrorView),
}

/// The summary with the records of one more file.
pub open spec fn with_records(
    done: RecoverySummary,
    number: u64,
    records: Seq<(u64, Seq<u8>)>,
) -> RecoverySummary {
    RecoverySummary {
        earliest_sequence: if done.last_sequence is None && records.len() > 0 {
            Some(records[0].0)
        } else {
            done.earliest_sequence
        },
        last_sequence: if records.len() > 0 {
            Some(records.last().0)
        } else {
            done.last_sequence
        },
        last_segment_number: if done.last_segment_number < number {
            number
        } else {
            done.last_segment_number
        },
    }
}

/// What files come to, after those that are done.
pub open spec fn recovered_log(state: FsState, files: Seq<(u64, Seq<char>)>, done: RecoverySummary) -> LogRecovery
    decreases files.len(),
{
    if files.len() == 0 {
        LogRecovery::Recovered { summary: done, repair: TailRepair::Keep }
    } else {
        let (number, path) = files[0];
        let last = files.len() == 1;
        let contents = state.data[state.names[path]];
        match records::scanned_file(path, contents, last) {
            FileScan::Failed(error) => LogRecovery::Failed(error),
            FileScan::Scanned { records, good_end } => if scanner::stored_number(contents) != number {
                LogRecovery::Failed(recovery::misnumbered(path, number, scanner::stored_number(contents)))
            } else {
                match run_error(path, done.last_sequence, records) {
                    Some(error) => LogRecovery::Failed(error),
                    None => if last {
                        LogRecovery::Recovered {
                            summary: with_records(done, number, records),
                            repair: if good_end < contents.len() {
                                TailRepair::Truncate(good_end)
                            } else {
                                TailRepair::Keep
                            },
                        }
                    } else {
                        recovered_log(state, files.skip(1), with_records(done, number, records))
                    },
                }
            },
        }
    }
}

/// The filesystem after the last file was repaired.
pub open spec fn repaired(state: FsState, path: Seq<char>, repair: TailRepair) -> FsState {
    match repair {
        TailRepair::Truncate(end) => state.with_data(state.names[path], state.data[state.names[path]].take(end)),
        _ => state,
    }
}

/// What is durable after the last file was repaired.
pub open spec fn repaired_journal(
    journal: SyncJournal,
    state: FsState,
    path: Seq<char>,
    repair: TailRepair,
) -> SyncJournal {
    match repair {
        TailRepair::Truncate(end) => journal.with_file(
            state.names[path],
            state.data[state.names[path]].take(end),
        ),
        _ => journal,
    }
}

/// Whether a result is what the files come to.
pub open spec fn recovers(
    before: FsState,
    after: FsState,
    durable_before: SyncJournal,
    durable_after: SyncJournal,
    dependable: bool,
    files: Seq<(u64, Seq<char>)>,
    result: Result<RecoverySummary, WalError>,
) -> bool {
    match (recovered_log(before, files, empty_log()), result) {
        (LogRecovery::Recovered { summary, repair }, Ok(found)) => {
            &&& found == summary
            &&& after == repaired(before, files.last().1, repair)
            &&& durable_after == repaired_journal(durable_before, before, files.last().1, repair)
        },
        (LogRecovery::Failed(expected), Err(error)) => {
            &&& error@ == expected || error is Io && !dependable
            &&& after == before
            &&& durable_after == durable_before
        },
        (LogRecovery::Recovered { repair, .. }, Err(error)) => {
            &&& error is Io && !dependable
            &&& after == before || after == repaired(before, files.last().1, repair)
            &&& durable_after == durable_before
        },
        _ => false,
    }
}

/// Checks that the sequences of records follow one another and `previous`.
fn check_run(path: &str, previous: Option<u64>, records: &Vec<(u64, Vec<u8>)>) -> (result: Result<(), WalError>)
    ensures
        match result {
            Ok(()) => run_error(path@, previous, records::record_views(records@)) is None,
            Err(error) => run_error(path@, previous, records::record_views(records@)) == Some(error@),
        },
{
    let ghost all = records::record_views(records@);
    let mut last: Option<u64> = previous;
    let mut at: usize = 0;
    assert(all.skip(0) =~= all);
    while at < records.len()
        invariant
            at <= records@.len(),
            all == records::record_views(records@),
            run_error(path@, previous, all) == run_error(path@, last, all.skip(at as int)),
        decreases records@.len() - at,
    {
        proof {
            assert(all.skip(at as int)[0].0 == records@[at as int].0);
            assert(all.skip(at as int).skip(1) =~= all.skip(at + 1));
        }
        match recovery::check_sequence(path, last, records[at].0) {
            Ok(()) => {},
            Err(error) => {
                return Err(error);
            },
        }
        last = Some(records[at].0);
        at += 1;
    }
    Ok(())
}

/// What a recovery starts with.
pub open spec fn empty_log() -> RecoverySummary {
    RecoverySummary { earliest_sequence: None, last_sequence: None, last_segment_number: 0 }
}

/// Reads all segment files of the log, checks that their sequences follow one
/// another, and cuts a torn last file.
pub fn recover_directory<V: Vfs>(vfs: &mut V, dir: &str) -> (result: Result<RecoverySummary, WalError>)
    ensures
        final(vfs).dependable() == old(vfs).dependable(),
        ({
            ||| {
                &&& result matches Err(error)
                &&& error is Io
                &&& !old(vfs).dependable() || !old(vfs).state().directories.contains(dir@)
                &&& final(vfs).state() == old(vfs).state()
                &&& final(vfs).journal() == old(vfs).journal()
            }
            ||| exists|listed: Seq<(u64, Seq<char>)>| #[trigger]
                files::lists_numbered(old(vfs).state().names, dir@, listed) && recovers(
                    old(vfs).state(),
                    final(vfs).state(),
                    old(vfs).journal(),
                    final(vfs).journal(),
                    old(vfs).dependable(),
                    listed,
                    result,
                )
        }),
{
    let files: Vec<(u64, String)> = match files::list_segment_files(&*vfs, dir) {
        Ok(files) => files,
        Err(error) => {
            return Err(error);
        },
    };
    let ghost before = vfs.state();
    let ghost listed = files::file_views(files@);
    let ghost recovered = recovered_log(before, listed, empty_log());
    let mut summary = RecoverySummary { earliest_sequence: None, last_sequence: None, last_segment_number: 0 };
    assert(listed.skip(0) =~= listed);
    let mut at: usize = 0;
    while at < files.len()
        invariant
            at <= files@.len(),
            before == old(vfs).state(),
            vfs.dependable() == old(vfs).dependable(),
            vfs.journal() == old(vfs).journal(),
            vfs.state() == before,
            listed == files::file_views(files@),
            files::lists_numbered(before.names, dir@, listed),
            recovered == recovered_log(before, listed, empty_log()),
            recovered == recovered_log(before, listed.skip(at as int), summary),
        decreases files@.len() - at,
    {
        let number: u64 = files[at].0;
        let path: &str = files[at].1.as_str();
        let is_last: bool = at + 1 == files.len();
        let ghost contents = before.data[before.names[path@]];
        proof {
            assert(listed.skip(at as int)[0] == (number, path@));
            assert(listed.skip(at as int).skip(1) =~= listed.skip(at + 1));
            assert(is_last ==> listed.last().1 == path@);
            assert(files::is_listed(before.names, dir@, listed[at as int].0, listed[at as int].1));
            if scanner::opening_fault(contents) is None {
                records::records_end_after_header(
                    scanner::stored_number(contents) as u32,
                    path@,
                    contents,
                    scanner::fresh_state(FILE_HEADER_SIZE as int),
                    is_last,
                    Seq::empty(),
                );
            }
        }
        let scan: SegmentRecords = match records::scan_segment(vfs, path, is_last) {
            Ok(scan) => scan,
            Err(error) => {
                assert(recovers(
                    before,
                    vfs.state(),
                    old(vfs).journal(),
                    vfs.journal(),
                    old(vfs).dependable(),
                    listed,
                    Err(error),
                ));
                return Err(error);
            },
        };
        let ghost found = records::record_views(scan.records@);
        if scan.segment_number != number {
            let mut message: String = String::from_str("segment filename number ");
            text::push_decimal(&mut message, number);
            message.append(" does not match header number ");
            text::push_decimal(&mut message, scan.segment_number);
            let error: WalError = WalError::corruption(path, message);
            assert(recovers(
                before,
                vfs.state(),
                old(vfs).journal(),
                vfs.journal(),
                old(vfs).dependable(),
                listed,
                Err(error),
            ));
            return Err(error);
        }
        match check_run(path, summary.last_sequence, &scan.records) {
            Ok(()) => {},
            Err(error) => {
                assert(recovers(
                    before,
                    vfs.state(),
                    old(vfs).journal(),
                    vfs.journal(),
                    old(vfs).dependable(),
                    listed,
                    Err(error),
                ));
                return Err(error);
            },
        }
        let ghost done = summary;
        let count: usize = scan.records.len();
        if count > 0 {
            assert(found[0].0 == scan.records@[0].0);
            assert(found.last().0 == scan.records@[count - 1].0);
            if summary.last_sequence.is_none() {
                summary.earliest_sequence = Some(scan.records[0].0);
            }
            summary.last_sequence = Some(scan.records[count - 1].0);
        }
        if summary.last_segment_number < number {
            summary.last_segment_number = number;
        }
        assert(summary == with_records(done, number, found));
        if is_last {
            match recovery::truncate_tail(vfs, path, scan.valid_len) {
                Ok(()) => {},
                Err(error) => {
                    assert(recovers(
                        before,
                        vfs.state(),
                        old(vfs).journal(),
                        vfs.journal(),
                        old(vfs).dependable(),
                        listed,
                        Err(error),
                    ));
                    return Err(error);
                },
            }
            assert(recovers(
                before,
                vfs.state(),
                old(vfs).journal(),
                vfs.journal(),
                old(vfs).dependable(),
                listed,
                Ok(summary),
            ));
            return Ok(summary);
        }
        at += 1;
    }
    assert(recovers(
        before,
        vfs.state(),
        old(vfs).journal(),
        vfs.journal(),
        old(vfs).dependable(),
        listed,
        Ok(summary),
    ));
    Ok(summary)
}

/// The first record that is not before `from`, and the records after it.
pub open spec fn next_buffered(records: Seq<(u64, Seq<u8>)>, from: u64) -> Option<(u64, Seq<u8>, Seq<(u64, Seq<u8>)>)>
    decreases records.len(),
{
    if records.len() == 0 {
        None
    } else if records[0].0 < from {
        next_buffered(records.skip(1), from)
    } else {
        Some((records[0].0, records[0].1, records.skip(1)))
    }
}

/// What a read comes to.
pub enum ReadOutcome {
    Item { sequence: u64, payload: Seq<u8>, buffered: Seq<(u64, Seq<u8>)>, files: Seq<Seq<char>> },
    /// No record of the range is left, or the next one is past it and dropped.
    End { buffered: Seq<(u64, Seq<u8>)>, files: Seq<Seq<char>> },
    /// The first of the files that are left cannot be read.
    Failed { error: WalErrorView, files: Seq<Seq<char>> },
    /// The first of the files that are left is not there.
    Missing { files: Seq<Seq<char>> },
}

/// The next record from `from` through `through`, from those that are buffered
/// and those of the files that follow.
pub open spec fn next_record(
    state: FsState,
    buffered: Seq<(u64, Seq<u8>)>,
    files: Seq<Seq<char>>,
    from: u64,
    through: u64,
) -> ReadOutcome
    decreases files.len(),
{
    match next_buffered(buffered, from) {
        Some((sequence, payload, rest)) => if sequence > through {
            ReadOutcome::End { buffered: rest, files }
        } else {
            ReadOutcome::Item { sequence, payload, buffered: rest, files }
        },
        None => if files.len() == 0 {
            ReadOutcome::End { buffered: Seq::empty(), files }
        } else if !state.names.contains_key(files[0]) {
            ReadOutcome::Missing { files }
        } else {
            let contents = state.data[state.names[files[0]]];
            match records::scanned_file(files[0], contents, files.len() == 1) {
                FileScan::Failed(error) => ReadOutcome::Failed { error, files },
                FileScan::Scanned { records, .. } => next_record(state, records, files.skip(1), from, through),
            }
        },
    }
}

/// Reads the records of some segment files in a range of sequences.
pub struct ReaderState {
    files: Vec<(u64, String)>,
    file_index: usize,
    buffered: VecDeque<(u64, Vec<u8>)>,
    from_sequence: u64,
    through_sequence: Option<u64>,
}

/// The paths of files.
pub open spec fn paths_of(files: Seq<(u64, String)>) -> Seq<Seq<char>> {
    files.map_values(|file: (u64, String)| file.1@)
}

impl ReaderState {
    /// The records that were read from a file and not handed out yet.
    pub closed spec fn waiting(&self) -> Seq<(u64, Seq<u8>)> {
        records::record_views(self.buffered@)
    }

    /// The paths of the files that are still to be read.
    pub closed spec fn paths(&self) -> Seq<Seq<char>> {
        paths_of(self.files@).skip(self.file_index as int)
    }

    pub closed spec fn from(&self) -> u64 {
        self.from_sequence
    }

    pub closed spec fn through(&self) -> Option<u64> {
        self.through_sequence
    }

    pub closed spec fn valid(&self) -> bool {
        self.file_index <= self.files@.len()
    }

    pub fn new(files: Vec<(u64, String)>, from_sequence: u64, through_sequence: Option<u64>) -> (reader: ReaderState)
        ensures
            reader.valid(),
            reader.waiting().len() == 0,
            reader.paths() == paths_of(files@),
            reader.from() == from_sequence,
            reader.through() == through_sequence,
    {
        let reader = ReaderState {
            files,
            file_index: 0,
            buffered: VecDeque::new(),
            from_sequence,
            through_sequence,
        };
        assert(reader.paths() =~= paths_of(files@));
        reader
    }

    /// The next record of the range.
    pub fn read_next<V: Vfs>(&mut self, vfs: &mut V) -> (result: Result<Option<(u64, Vec<u8>)>, WalError>)
        requires
            old(self).valid(),
        ensures
            final(self).valid(),
            final(self).through() == old(self).through(),
            final(vfs).dependable() == old(vfs).dependable(),
            final(vfs).journal() == old(vfs).journal(),
            final(vfs).state() == old(vfs).state(),
            ({
                let wanted = next_record(
                    old(vfs).state(),
                    old(self).waiting(),
                    old(self).paths(),
                    old(self).from(),
                    old(self).through()->0,
                );
                match result {
                    Ok(None) => {
                        &&& final(self).from() == old(self).from()
                        &&& if old(self).through() is None {
                            *final(self) == *old(self)
                        } else {
                            wanted == (ReadOutcome::End { buffered: final(self).waiting(), files: final(self).paths() })
                        }
                    },
                    Ok(Some((sequence, payload))) => {
                        &&& old(self).through() is Some
                        &&& wanted matches ReadOutcome::Item { sequence: next, payload: bytes, buffered, files }
                        &&& sequence == next
                        &&& payload@ == bytes
                        &&& final(self).waiting() == buffered
                        &&& final(self).paths() == files
                        &&& final(self).from() == (if sequence == u64::MAX {
                            u64::MAX as int
                        } else {
                            sequence + 1
                        })
                    },
                    Err(error) => {
                        &&& old(self).through() is Some
                        &&& final(self).from() == old(self).from()
                        &&& final(self).waiting().len() == 0
                        &&& {
                            ||| wanted == (ReadOutcome::Failed { error: error@, files: final(self).paths() })
                            ||| error is Io && wanted == (ReadOutcome::Missing { files: final(self).paths() })
                            ||| {
                                &&& error is Io
                                &&& !old(vfs).dependable()
                                &&& final(self).paths().len() > 0
                                &&& wanted == next_record(
                                    old(vfs).state(),
                                    Seq::empty(),
                                    final(self).paths(),
                                    old(self).from(),
                                    old(self).through()->0,
                                )
                            }
                        }
                    },
                }
            }),
    {
        let through: u64 = match self.through_sequence {
            Some(through) => through,
            None => {
                return Ok(None);
            },
        };
        let from: u64 = self.from_sequence;
        let ghost goal = next_record(vfs.state(), self.waiting(), self.paths(), from, through);
        loop
            invariant
                self.valid(),
                old(self).valid(),
                self.from_sequence == from,
                old(self).from_sequence == from,
                self.through_sequence == Some(through),
                old(self).through_sequence == Some(through),
                vfs.dependable() == old(vfs).dependable(),
                vfs.journal() == old(vfs).journal(),
                vfs.state() == old(vfs).state(),
                goal == next_record(vfs.state(), old(self).waiting(), old(self).paths(), from, through),
                goal == next_record(vfs.state(), self.waiting(), self.paths(), from, through),
            decreases self.files@.len() - self.file_index, self.buffered@.len(),
        {
            let ghost waiting = self.waiting();
            let ghost held = self.buffered@;
            match self.buffered.pop_front() {
                Some((sequence, payload)) => {
                    proof {
                        assert(waiting[0] == (sequence, payload@));
                        assert(self.waiting() =~= waiting.skip(1));
                    }
                    if sequence < from {
                        continue;
                    }
                    if sequence > through {
                        return Ok(None);
                    }
                    self.from_sequence = sequence.saturating_add(1);
                    return Ok(Some((sequence, payload)));
                },
                None => {},
            }
            assert(self.waiting() =~= Seq::empty());
            if self.file_index >= self.files.len() {
                assert(self.paths() =~= Seq::empty());
                return Ok(None);
            }
            let is_last: bool = self.file_index + 1 == self.files.len();
            let ghost paths = self.paths();
            assert(paths[0] == self.files@[self.file_index as int].1@);
            assert(paths.len() == self.files@.len() - self.file_index);
            let scan: SegmentRecords = match records::scan_segment(
                vfs,
                self.files[self.file_index].1.as_str(),
                is_last,
            ) {
                Ok(scan) => scan,
                Err(error) => {
                    return Err(error);
                },
            };
            self.file_index = self.file_index + 1;
            self.buffered = queued(scan.records);
            assert(self.paths() =~= paths.skip(1));
        }
    }
}

/// The records as a queue.
fn queued(records: Vec<(u64, Vec<u8>)>) -> (queue: VecDeque<(u64, Vec<u8>)>)
    ensures
        queue@ == records@,
{
    let ghost all = records@;
    let mut rest: Vec<(u64, Vec<u8>)> = records;
    let mut queue: VecDeque<(u64, Vec<u8>)> = VecDeque::new();
    assert(rest@ + queue@ =~= all);
    while rest.len() > 0
        invariant
            rest@ + queue@ == all,
        decreases rest@.len(),
    {
        let ghost before = rest@;
        let ghost after = queue@;
        match rest.pop() {
            Some(record) => {
                queue.push_front(record);
                assert(rest@ + queue@ =~= before + after);
            },
            None => {},
        }
    }
    assert(queue@ =~= all);
    queue
}

/// What a number of calls of `read_next` give: the records, and whether the end
/// was reached.
pub open spec fn read_out(
    state: FsState,
    buffered: Seq<(u64, Seq<u8>)>,
    files: Seq<Seq<char>>,
    from: u64,
    through: u64,
    calls: nat,
) -> (Seq<(u64, Seq<u8>)>, bool)
    decreases calls,
{
    if calls == 0 {
        (Seq::empty(), false)
    } else {
        match next_record(state, buffered, files, from, through) {
            ReadOutcome::Item { sequence, payload, buffered: rest, files: later } => {
                let next = if sequence == u64::MAX {
                    sequence
                } else {
                    (sequence + 1) as u64
                };
                let (more, ended) = read_out(state, rest, later, next, through, (calls - 1) as nat);
                (seq![(sequence, payload)] + more, ended)
            },
            ReadOutcome::End { .. } => (Seq::empty(), true),
            _ => (Seq::empty(), false),
        }
    }
}

/// Whether the files hold the records that were written to each of them.
pub open spec fn paths_hold(
    state: FsState,
    files: Seq<Seq<char>>,
    numbers: Seq<u64>,
    written: Seq<Seq<(u64, Seq<u8>)>>,
) -> bool {
    &&& files.len() == numbers.len() == written.len()
    &&& forall|i: int|
        #![trigger files[i]]
        0 <= i < files.len() ==> {
            &&& state.names.contains_key(files[i])
            &&& state.data[state.names[files[i]]] == records::segment_bytes(numbers[i], written[i])
            &&& numbers[i] <= u32::MAX
        }
}

proof fn buffered_are_read(
    state: FsState,
    buffered: Seq<(u64, Seq<u8>)>,
    files: Seq<Seq<char>>,
    numbers: Seq<u64>,
    written: Seq<Seq<(u64, Seq<u8>)>>,
    last: Option<u64>,
    from: u64,
    through: u64,
    calls: nat,
)
    requires
        paths_hold(state, files, numbers, written),
        records::follows(last, buffered + written.flatten()),
    ensures
        read_out(state, buffered, files, from, through, calls) == records::handed_out(
            records::within(buffered + written.flatten(), from, through),
            calls,
        ),
    decreases files.len(), buffered.len(),
{
    let all = buffered + written.flatten();
    let wanted = records::within(all, from, through);
    if calls == 0 {
        assert(wanted.take(0) =~= Seq::empty());
    } else if buffered.len() > 0 {
        let first = buffered[0];
        let rest = buffered.skip(1);
        assert(all.skip(1) =~= rest + written.flatten());
        if first.0 < from {
            buffered_are_read(state, rest, files, numbers, written, Some(first.0), from, through, calls);
            assert(next_record(state, buffered, files, from, through) == next_record(
                state,
                rest,
                files,
                from,
                through,
            ));
        } else if first.0 > through {
            records::past_stays_past(first.0, all.skip(1), from, through);
        } else {
            let next = if first.0 == u64::MAX {
                first.0
            } else {
                (first.0 + 1) as u64
            };
            let left = (calls - 1) as nat;
            let tail = records::within(all.skip(1), from, through);
            buffered_are_read(state, rest, files, numbers, written, Some(first.0), next, through, left);
            records::early_starts_agree(first.0, all.skip(1), from, next, through);
            assert(wanted == seq![first] + tail);
            assert(seq![first] + records::handed_out(tail, left).0 =~= records::handed_out(wanted, calls).0);
        }
    } else if files.len() > 0 {
        assert(all =~= written[0] + written.skip(1).flatten()) by {
            assert(written.drop_first() =~= written.skip(1));
        }
        records::written_records_are_read(numbers[0], files[0], written[0], files.len() == 1);
        assert(paths_hold(state, files.skip(1), numbers.skip(1), written.skip(1))) by {
            let later = files.skip(1);
            assert forall|i: int|
                #![trigger later[i]]
                0 <= i < later.len() implies {
                &&& state.names.contains_key(later[i])
                &&& state.data[state.names[later[i]]] == records::segment_bytes(numbers.skip(1)[i], written.skip(1)[i])
                &&& numbers.skip(1)[i] <= u32::MAX
            } by {
                assert(later[i] == files[i + 1]);
            }
        }
        buffered_are_read(
            state,
            written[0],
            files.skip(1),
            numbers.skip(1),
            written.skip(1),
            last,
            from,
            through,
            calls,
        );
        assert(next_record(state, buffered, files, from, through) == next_record(
            state,
            written[0],
            files.skip(1),
            from,
            through,
        ));
    }
}

/// A reader gives the records of its range that were written to its files, in
/// order and with their payloads, and then ends.
pub proof fn written_records_are_read_out(
    state: FsState,
    files: Seq<Seq<char>>,
    numbers: Seq<u64>,
    written: Seq<Seq<(u64, Seq<u8>)>>,
    from: u64,
    through: u64,
    calls: nat,
)
    requires
        paths_hold(state, files, numbers, written),
        records::follows(None, written.flatten()),
    ensures
        read_out(state, Seq::empty(), files, from, through, calls) == records::handed_out(
            records::within(written.flatten(), from, through),
            calls,
        ),
{
    assert(Seq::<(u64, Seq<u8>)>::empty() + written.flatten() =~= written.flatten());
    buffered_are_read(state, Seq::empty(), files, numbers, written, None, from, through, calls);
}

/// Whether the files hold the records that were written to each of them, and the
/// last one part of one more record. Their numbers ascend.
pub open spec fn files_are_torn(
    state: FsState,
    files: Seq<(u64, Seq<char>)>,
    written: Seq<Seq<(u64, Seq<u8>)>>,
    torn: (u64, Seq<u8>),
    cut: int,
) -> bool {
    let number = files.last().0;
    let whole = records::segment_bytes(number, written.last());
    &&& files.len() == written.len()
    &&& files.len() > 0
    &&& forall|i: int|
        0 <= i < files.len() ==> (#[trigger] files[i]).0 <= u32::MAX && (i < files.len() - 1
            ==> state.data[state.names[files[i].1]] == records::segment_bytes(files[i].0, written[i]))
    &&& forall|i: int, j: int| 0 <= i < j < files.len() ==> files[i].0 < files[j].0
    &&& recovery::is_cut(number, whole.len() as int, torn, cut)
    &&& state.data[state.names[files.last().1]] == whole + recovery::torn_record(
        number,
        whole.len() as int,
        torn,
        cut,
    )
}

/// Whether a recovery leaves the last file with what was written to it, without
/// part of one more record, and that is durable where anything was cut off. No
/// other file, no name and no directory changes.
pub open spec fn restores_the_last_file(
    state: FsState,
    after: FsState,
    journal: SyncJournal,
    durable: SyncJournal,
    file: (u64, Seq<char>),
    written: Seq<(u64, Seq<u8>)>,
    torn: (u64, Seq<u8>),
    cut: int,
) -> bool {
    let id = state.names[file.1];
    let whole = records::segment_bytes(file.0, written);
    let part = recovery::torn_record(file.0, whole.len() as int, torn, cut);
    let bare = recovery::records_end(file.0, FILE_HEADER_SIZE as int, written);
    &&& after.names == state.names
    &&& after.directories == state.directories
    &&& recovery::is_restored(after.data[id], whole, bare, part)
    &&& forall|other: u64| other != id && state.data.contains_key(other) ==> #[trigger] after.data[other]
        == state.data[other]
    &&& recovery::is_torn(part) ==> durable.files.contains_key(id) && durable.files[id] == after.data[id]
    &&& forall|other: u64| other != id && journal.files.contains_key(other) ==> #[trigger] durable.files[other]
        == journal.files[other]
    &&& durable.names == journal.names
}

proof fn torn_files_are_recovered(
    state: FsState,
    journal: SyncJournal,
    files: Seq<(u64, Seq<char>)>,
    written: Seq<Seq<(u64, Seq<u8>)>>,
    torn: (u64, Seq<u8>),
    cut: int,
    done: RecoverySummary,
)
    requires
        files_are_torn(state, files, written, torn, cut),
        done.last_segment_number <= files[0].0,
        records::follows(done.last_sequence, written.flatten()),
    ensures
        ({
            let all = written.flatten();
            let path = files.last().1;
            &&& recovered_log(state, files, done) matches LogRecovery::Recovered { summary, repair }
            &&& summary.earliest_sequence == (if done.last_sequence is None && all.len() > 0 {
                Some(all[0].0)
            } else {
                done.earliest_sequence
            })
            &&& summary.last_sequence == (if all.len() > 0 {
                Some(all.last().0)
            } else {
                done.last_sequence
            })
            &&& summary.last_segment_number == files.last().0
            &&& restores_the_last_file(
                state,
                repaired(state, path, repair),
                journal,
                repaired_journal(journal, state, path, repair),
                files.last(),
                written.last(),
                torn,
                cut,
            )
        }),
    decreases files.len(),
{
    let all = written.flatten();
    let (number, path) = files[0];
    let first = written[0];
    let later = files.skip(1);
    let others = written.skip(1);
    let rest = others.flatten();
    let next = with_records(done, number, first);
    assert(all =~= first + rest) by {
        assert(written.drop_first() =~= others);
    }
    records::parts_follow(done.last_sequence, first, rest);
    runs_that_follow_pass(path, done.last_sequence, first);
    if later.len() == 0 {
        assert(rest =~= Seq::empty());
        recovery::torn_segment_is_scanned(number, path, first, torn, cut, true);
        let whole = records::segment_bytes(number, first);
        let part = recovery::torn_record(number, whole.len() as int, torn, cut);
        let bare = recovery::records_end(number, FILE_HEADER_SIZE as int, first);
        recovery::records_end_behind(number, FILE_HEADER_SIZE as int, first);
        if let FileScan::Scanned { good_end, .. } = records::scanned_file(path, whole + part, true) {
            recovery::cut_at_the_whole_end_restores(whole, bare, part, good_end);
        }
    } else {
        assert(files[0].0 <= u32::MAX);
        records::written_records_are_read(number, path, first, false);
        assert(files_are_torn(state, later, others, torn, cut)) by {
            assert(later.last() == files.last());
            assert(others.last() == written.last());
            assert forall|i: int| 0 <= i < later.len() implies (#[trigger] later[i]).0 <= u32::MAX && (i < later.len()
                - 1 ==> state.data[state.names[later[i].1]] == records::segment_bytes(later[i].0, others[i])) by {
                assert(later[i] == files[i + 1]);
            }
            assert forall|i: int, j: int| 0 <= i < j < later.len() implies later[i].0 < later[j].0 by {
                assert(files[i + 1].0 < files[j + 1].0);
            }
        }
        assert(later[0] == files[1]);
        torn_files_are_recovered(state, journal, later, others, torn, cut, next);
    }
    if rest.len() > 0 {
        assert(all.last() == rest.last());
        if first.len() == 0 {
            assert(all[0] == rest[0]);
        }
    } else if first.len() > 0 {
        assert(all.last() == first.last());
    }
    if first.len() > 0 {
        assert(all[0] == first[0]);
    }
}

proof fn runs_that_follow_pass(path: Seq<char>, previous: Option<u64>, records: Seq<(u64, Seq<u8>)>)
    ensures
        run_error(path, previous, records) is None <==> records::follows(previous, records),
        run_error(path, previous, records) matches Some(error) ==> error is Corruption,
    decreases records.len(),
{
    if records.len() > 0 {
        runs_that_follow_pass(path, Some(records[0].0), records.skip(1));
    }
}

/// A log whose last file ends with part of a record is recovered with every
/// record before it, and the part is cut off: the last file then holds the
/// bytes of what was written to it, and these bytes are durable.
///
/// The part ends before the record's padding. Zeros that are less than a header
/// stay as padding, as [`recovery::is_restored`] says.
pub proof fn torn_log_is_recovered(
    state: FsState,
    journal: SyncJournal,
    files: Seq<(u64, Seq<char>)>,
    written: Seq<Seq<(u64, Seq<u8>)>>,
    torn: (u64, Seq<u8>),
    cut: int,
)
    requires
        files_are_torn(state, files, written, torn, cut),
        records::follows(None, written.flatten()),
    ensures
        ({
            let all = written.flatten();
            let path = files.last().1;
            &&& recovered_log(state, files, empty_log()) matches LogRecovery::Recovered { summary, repair }
            &&& summary.earliest_sequence == (if all.len() > 0 {
                Some(all[0].0)
            } else {
                None
            })
            &&& summary.last_sequence == (if all.len() > 0 {
                Some(all.last().0)
            } else {
                None
            })
            &&& summary.last_segment_number == files.last().0
            &&& restores_the_last_file(
                state,
                repaired(state, path, repair),
                journal,
                repaired_journal(journal, state, path, repair),
                files.last(),
                written.last(),
                torn,
                cut,
            )
        }),
{
    torn_files_are_recovered(state, journal, files, written, torn, cut, empty_log());
}

/// A recovery that gives a summary does what the files come to, and so restores
/// the last file of a torn log. One that fails on a dependable filesystem
/// changes nothing.
pub proof fn recovery_of_a_torn_log_restores_it(
    before: FsState,
    after: FsState,
    journal: SyncJournal,
    durable: SyncJournal,
    dependable: bool,
    files: Seq<(u64, Seq<char>)>,
    result: Result<RecoverySummary, WalError>,
    written: Seq<Seq<(u64, Seq<u8>)>>,
    torn: (u64, Seq<u8>),
    cut: int,
)
    requires
        recovers(before, after, journal, durable, dependable, files, result),
        files_are_torn(before, files, written, torn, cut),
        records::follows(None, written.flatten()),
    ensures
        dependable ==> result is Ok,
        result is Ok ==> restores_the_last_file(
            before,
            after,
            journal,
            durable,
            files.last(),
            written.last(),
            torn,
            cut,
        ),
        result is Err ==> durable == journal,
{
    torn_log_is_recovered(before, journal, files, written, torn, cut);
}

/// A log of whole files whose sequences do not follow one another, within a file
/// or from one to the next, is reported as corrupt.
pub proof fn gap_in_a_log_is_reported(
    state: FsState,
    files: Seq<(u64, Seq<char>)>,
    written: Seq<Seq<(u64, Seq<u8>)>>,
    done: RecoverySummary,
)
    requires
        files.len() == written.len(),
        forall|i: int|
            0 <= i < files.len() ==> (#[trigger] files[i]).0 <= u32::MAX && state.data[state.names[files[i].1]]
                == records::segment_bytes(files[i].0, written[i]),
        !records::follows(done.last_sequence, written.flatten()),
    ensures
        recovered_log(state, files, done) matches LogRecovery::Failed(error) && error is Corruption,
    decreases files.len(),
{
    if files.len() == 0 {
        assert(written.flatten() =~= Seq::empty());
    } else {
        let (number, path) = files[0];
        let first = written[0];
        let later = files.skip(1);
        let others = written.skip(1);
        let rest = others.flatten();
        assert(written.flatten() =~= first + rest) by {
            assert(written.drop_first() =~= others);
        }
        assert(files[0].0 <= u32::MAX);
        records::written_records_are_read(number, path, first, files.len() == 1);
        runs_that_follow_pass(path, done.last_sequence, first);
        if records::follows(done.last_sequence, first) {
            let next = with_records(done, number, first);
            if records::follows(next.last_sequence, rest) {
                records::followers_follow(done.last_sequence, first, rest);
            }
            if later.len() == 0 {
                assert(rest =~= Seq::empty());
            } else {
                assert forall|i: int| 0 <= i < later.len() implies (#[trigger] later[i]).0 <= u32::MAX
                    && state.data[state.names[later[i].1]] == records::segment_bytes(later[i].0, others[i]) by {
                    assert(later[i] == files[i + 1]);
                }
                gap_in_a_log_is_reported(state, later, others, next);
            }
        }
    }
}

/// Only a torn end is cut: what is cut off the last file is something, and a log
/// that is kept ends with its last file.
pub proof fn only_a_torn_end_is_cut(state: FsState, files: Seq<(u64, Seq<char>)>, done: RecoverySummary)
    ensures
        recovered_log(state, files, done) matches LogRecovery::Recovered { repair, .. } ==> {
            let contents = state.data[state.names[files.last().1]];
            &&& !(repair is Remove)
            &&& repair matches TailRepair::Truncate(end) ==> files.len() > 0 && end < contents.len()
            &&& repair is Keep && files.len() > 0 ==> (records::scanned_file(files.last().1, contents, true) matches
                FileScan::Scanned { good_end, .. } && contents.len() <= good_end)
        },
    decreases files.len(),
{
    if files.len() > 1 {
        let (number, path) = files[0];
        let contents = state.data[state.names[path]];
        if let FileScan::Scanned { records, .. } = records::scanned_file(path, contents, false) {
            only_a_torn_end_is_cut(state, files.skip(1), with_records(done, number, records));
            assert(files.skip(1).last() == files.last());
        }
    }
}

} // verus!
