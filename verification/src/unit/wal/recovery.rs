//! Recovery of the log from its segment files.

use vstd::prelude::*;
use crate::align;
use crate::bytestr;
use crate::framing;
use crate::framing::HEADER_SIZE;
use crate::segment::envelope;
use crate::segment::envelope::{ALIGNMENT, FILE_HEADER_SIZE};
use crate::segment::files;
use crate::segment::record;
use crate::segment::scanner;
use crate::segment::scanner::{ScanOutcome, ScanState};
use crate::segment_names;
use crate::text;
use crate::unit::wal::error::{WalError, WalErrorView};
use crate::unit::wal::records;
use crate::unit::wal::records::{FileScan, WalSegmentScanner};
use crate::unit::wal::retention::{SegmentMetadata, SegmentView};
use crate::vfs;
use crate::vfs::{FsState, IoErrorKind, OpenOptions, Vfs, VfsFile};

verus! {

/// The sequences that were read: the last one of the log so far, and the first
/// and the last one of the segment that is being read.
pub struct Run {
    pub previous: Option<u64>,
    pub first: Option<u64>,
    pub last: Option<u64>,
}

impl Run {
    /// The run before a segment is read.
    pub open spec fn starting(previous: Option<u64>) -> Run {
        Run { previous, first: None, last: None }
    }

    /// The run with one more sequence.
    pub open spec fn with(self, sequence: u64) -> Run {
        Run {
            previous: Some(sequence),
            first: if self.first is Some {
                self.first
            } else {
                Some(sequence)
            },
            last: Some(sequence),
        }
    }
}

/// What is reported of a record with another sequence than the next one.
pub open spec fn gap(path: Seq<char>, expected: u64, found: u64) -> WalErrorView {
    WalErrorView::Corruption {
        path,
        message: "non-contiguous WAL sequence: expected "@ + text::decimal(expected as nat) + ", found "@
            + text::decimal(found as nat),
    }
}

/// Why a sequence cannot follow `previous`.
pub open spec fn sequence_error(path: Seq<char>, previous: Option<u64>, sequence: u64) -> Option<WalErrorView> {
    match previous {
        None => None,
        Some(previous) => if previous == u64::MAX {
            Some(WalErrorView::Corruption { path, message: "WAL sequence exhausted"@ })
        } else if sequence != previous + 1 {
            Some(gap(path, (previous + 1) as u64, sequence))
        } else {
            None
        },
    }
}

/// Checks that a sequence follows the previous one.
pub fn check_sequence(path: &str, previous: Option<u64>, sequence: u64) -> (result: Result<(), WalError>)
    ensures
        match result {
            Ok(()) => sequence_error(path@, previous, sequence) is None,
            Err(error) => sequence_error(path@, previous, sequence) == Some(error@),
        },
{
    let last: u64 = match previous {
        Some(last) => last,
        None => {
            return Ok(());
        },
    };
    let expected: u64 = match last.checked_add(1) {
        Some(expected) => expected,
        None => {
            return Err(WalError::corruption(path, String::from_str("WAL sequence exhausted")));
        },
    };
    if sequence != expected {
        let mut message: String = String::from_str("non-contiguous WAL sequence: expected ");
        text::push_decimal(&mut message, expected);
        message.append(", found ");
        text::push_decimal(&mut message, sequence);
        return Err(WalError::corruption(path, message));
    }
    Ok(())
}

/// What the records of a file come to.
pub enum FileRecovery {
    /// The records, which end at `good_end`.
    Recovered { run: Run, good_end: int },
    /// The file has no valid header and is the last one.
    Discarded,
    Failed(WalErrorView),
}

/// What the records of a file come to from a state on.
pub open spec fn recovered_records(
    segment_number: u32,
    path: Seq<char>,
    contents: Seq<u8>,
    state: ScanState,
    tolerate_tail: bool,
    run: Run,
) -> FileRecovery
    decreases contents.len() - state.position,
{
    match scanner::next_outcome(segment_number, contents, contents.len() as int, state) {
        ScanOutcome::Record { payload, state: after, .. } => if state.position < after.position <= contents.len() {
            match crate::wal::recovery::record_sequence(payload) {
                None => FileRecovery::Failed(records::short_record(path)),
                Some(sequence) => match sequence_error(path, run.previous, sequence) {
                    Some(error) => FileRecovery::Failed(error),
                    None => recovered_records(segment_number, path, contents, after, tolerate_tail, run.with(sequence)),
                },
            }
        } else {
            FileRecovery::Discarded
        },
        ScanOutcome::End { good_end } => FileRecovery::Recovered { run, good_end },
        ScanOutcome::Tail { fault, good_end } => if tolerate_tail {
            FileRecovery::Recovered { run, good_end }
        } else {
            FileRecovery::Failed(WalErrorView::Corruption { path, message: fault.words() })
        },
        ScanOutcome::Hard { fault, .. } => FileRecovery::Failed(
            WalErrorView::Corruption { path, message: fault.words() },
        ),
        ScanOutcome::Starved => FileRecovery::Discarded,
    }
}

/// What is reported of a file whose name and header give different numbers.
pub open spec fn misnumbered(path: Seq<char>, file_number: u64, stored: u64) -> WalErrorView {
    WalErrorView::Corruption {
        path,
        message: "segment filename number "@ + text::decimal(file_number as nat) + " does not match header number "@
            + text::decimal(stored as nat),
    }
}

/// What a file of the log comes to.
pub open spec fn recovered_file(
    file_number: u64,
    path: Seq<char>,
    contents: Seq<u8>,
    is_last: bool,
    previous: Option<u64>,
) -> FileRecovery {
    match scanner::opening_fault(contents) {
        Some(message) => if is_last {
            FileRecovery::Discarded
        } else {
            FileRecovery::Failed(WalErrorView::Corruption { path, message })
        },
        None => if scanner::stored_number(contents) != file_number {
            FileRecovery::Failed(misnumbered(path, file_number, scanner::stored_number(contents)))
        } else {
            recovered_records(
                file_number as u32,
                path,
                contents,
                scanner::fresh_state(FILE_HEADER_SIZE as int),
                is_last,
                Run::starting(previous),
            )
        },
    }
}

/// What is done to the last file of the log.
pub enum TailRepair {
    Keep,
    Remove,
    Truncate(int),
}

/// What was recovered from the files so far.
#[verifier::ext_equal]
pub struct SummaryView {
    pub last_sequence: Option<u64>,
    pub last_segment_number: u64,
    pub segments: Seq<SegmentView>,
}

/// What a directory comes to.
pub enum DirectoryRecovery {
    Recovered { summary: SummaryView, repair: TailRepair },
    Failed(WalErrorView),
}

/// The bytes of a segment file.
pub open spec fn segment_contents(state: FsState, dir: Seq<char>, number: u64) -> Seq<u8> {
    state.data[state.names[segment_names::segment_path(dir, number as nat)]]
}

/// The summary with one more segment.
pub open spec fn with_file(done: SummaryView, dir: Seq<char>, number: u64, run: Run) -> SummaryView {
    SummaryView {
        last_sequence: run.previous,
        last_segment_number: if done.last_segment_number < number {
            number
        } else {
            done.last_segment_number
        },
        segments: done.segments.push(
            SegmentView {
                number,
                path: segment_names::segment_path(dir, number as nat),
                first: run.first,
                last: run.last,
                active: false,
                leases: 0,
            },
        ),
    }
}

/// What the files of a directory come to, after those that are done.
pub open spec fn recovered_directory(
    state: FsState,
    dir: Seq<char>,
    numbers: Seq<u64>,
    done: SummaryView,
) -> DirectoryRecovery
    decreases numbers.len(),
{
    if numbers.len() == 0 {
        DirectoryRecovery::Recovered { summary: done, repair: TailRepair::Keep }
    } else {
        let number = numbers[0];
        let last = numbers.len() == 1;
        let contents = segment_contents(state, dir, number);
        let path = segment_names::segment_path(dir, number as nat);
        match recovered_file(number, path, contents, last, done.last_sequence) {
            FileRecovery::Failed(error) => DirectoryRecovery::Failed(error),
            FileRecovery::Discarded => DirectoryRecovery::Recovered { summary: done, repair: TailRepair::Remove },
            FileRecovery::Recovered { run, good_end } => if last {
                DirectoryRecovery::Recovered {
                    summary: with_file(done, dir, number, run),
                    repair: if good_end < contents.len() {
                        TailRepair::Truncate(good_end)
                    } else {
                        TailRepair::Keep
                    },
                }
            } else {
                recovered_directory(state, dir, numbers.skip(1), with_file(done, dir, number, run))
            },
        }
    }
}

/// The filesystem after the last file was repaired.
pub open spec fn repaired(state: FsState, dir: Seq<char>, number: u64, repair: TailRepair) -> FsState {
    let path = segment_names::segment_path(dir, number as nat);
    match repair {
        TailRepair::Keep => state,
        TailRepair::Remove => state.without_name(path),
        TailRepair::Truncate(end) => state.with_data(state.names[path], state.data[state.names[path]].take(end)),
    }
}

/// What is known of a recovered log.
#[derive(Debug)]
pub struct RecoverySummary {
    pub last_sequence: Option<u64>,
    pub last_segment_number: u64,
    pub segments: Vec<SegmentMetadata>,
}

impl View for RecoverySummary {
    type V = SummaryView;

    open spec fn view(&self) -> SummaryView {
        SummaryView {
            last_sequence: self.last_sequence,
            last_segment_number: self.last_segment_number,
            segments: self.segments@.map_values(|segment: SegmentMetadata| segment@),
        }
    }
}

/// A scan of a whole file gives the records or a reason, and ends inside.
proof fn records_are_scanned(
    segment_number: u32,
    path: Seq<char>,
    contents: Seq<u8>,
    state: ScanState,
    tolerate_tail: bool,
    run: Run,
)
    requires
        FILE_HEADER_SIZE <= state.position,
    ensures
        !(recovered_records(segment_number, path, contents, state, tolerate_tail, run) is Discarded),
    decreases contents.len() - state.position,
{
    scanner::held_file_is_scanned(segment_number, contents, contents.len() as int, state);
    scanner::scan_moves_on(segment_number, contents, contents.len() as int, state);
    if let ScanOutcome::Record { payload, state: after, .. } = scanner::next_outcome(
        segment_number,
        contents,
        contents.len() as int,
        state,
    ) {
        if let Some(sequence) = crate::wal::recovery::record_sequence(payload) {
            records_are_scanned(segment_number, path, contents, after, tolerate_tail, run.with(sequence));
        }
    }
}

/// What reading the records of a file came to.
struct FileRun {
    previous: Option<u64>,
    first: Option<u64>,
    last: Option<u64>,
    valid_len: u64,
}

/// Reads all records of a file and checks their sequences.
fn read_records<V: Vfs>(vfs: &V, scanner: WalSegmentScanner, previous: Option<u64>) -> (result: Result<
    FileRun,
    WalError,
>)
    requires
        scanner.scanner.valid(vfs),
        !scanner.scanner.is_finished(),
        scanner.scanner.len() == vfs.state().contents(&scanner.scanner.source()).len(),
        FILE_HEADER_SIZE <= scanner.scanner.state().position,
    ensures
        ({
            let outcome = recovered_records(
                scanner.scanner.number() as u32,
                scanner.scanner.source().path@,
                vfs.state().contents(&scanner.scanner.source()),
                scanner.scanner.state(),
                scanner.scanner.tolerates(),
                Run::starting(previous),
            );
            match result {
                Ok(run) => outcome == (FileRecovery::Recovered {
                    run: Run { previous: run.previous, first: run.first, last: run.last },
                    good_end: run.valid_len as int,
                }),
                Err(error) => outcome == FileRecovery::Failed(error@) || error is Io && !vfs.dependable(),
            }
        }),
{
    let mut reader: WalSegmentScanner = scanner;
    let path: String = reader.scanner.path();
    let mut last_sequence: Option<u64> = previous;
    let mut segment_first: Option<u64> = None;
    let mut segment_last: Option<u64> = None;
    let ghost number = scanner.scanner.number() as u32;
    let ghost contents = vfs.state().contents(&scanner.scanner.source());
    let ghost outcome = recovered_records(
        number,
        path@,
        contents,
        scanner.scanner.state(),
        scanner.scanner.tolerates(),
        Run::starting(previous),
    );
    loop
        invariant_except_break
            !reader.scanner.is_finished(),
            FILE_HEADER_SIZE <= reader.scanner.state().position,
            outcome == recovered_records(
                number,
                path@,
                contents,
                reader.scanner.state(),
                reader.scanner.tolerates(),
                Run { previous: last_sequence, first: segment_first, last: segment_last },
            ),
        invariant
            reader.scanner.valid(vfs),
            reader.scanner.source() == scanner.scanner.source(),
            reader.scanner.number() == scanner.scanner.number(),
            reader.scanner.len() == contents.len(),
            reader.scanner.tolerates() == scanner.scanner.tolerates(),
            number == scanner.scanner.number() as u32,
            path@ == scanner.scanner.source().path@,
            contents == vfs.state().contents(&scanner.scanner.source()),
            outcome == recovered_records(
                number,
                path@,
                contents,
                scanner.scanner.state(),
                scanner.scanner.tolerates(),
                Run::starting(previous),
            ),
        ensures
            outcome == (FileRecovery::Recovered {
                run: Run { previous: last_sequence, first: segment_first, last: segment_last },
                good_end: reader.scanner.good_end(),
            }),
        decreases contents.len() - reader.scanner.state().position,
    {
        let ghost before = reader.scanner.state();
        proof {
            scanner::held_file_is_scanned(number, contents, contents.len() as int, before);
            scanner::scan_moves_on(number, contents, contents.len() as int, before);
        }
        match reader.next(vfs) {
            None => {
                break;
            },
            Some(Err(error)) => {
                return Err(error);
            },
            Some(Ok((sequence, _))) => {
                match check_sequence(path.as_str(), last_sequence, sequence) {
                    Ok(()) => {},
                    Err(error) => {
                        return Err(error);
                    },
                }
                last_sequence = Some(sequence);
                if segment_first.is_none() {
                    segment_first = Some(sequence);
                }
                segment_last = Some(sequence);
            },
        }
    }
    Ok(
        FileRun {
            previous: last_sequence,
            first: segment_first,
            last: segment_last,
            valid_len: reader.valid_len(),
        },
    )
}

/// Removes the last file of the log, whose header was never written.
fn remove_uncommitted_tail<V: Vfs>(vfs: &mut V, dir: &str, path: &str) -> (result: Result<(), WalError>)
    ensures
        final(vfs).dependable() == old(vfs).dependable(),
        ({
            ||| final(vfs).state() == old(vfs).state().without_name(path@)
            ||| final(vfs).state() == old(vfs).state() && (old(vfs).dependable() ==> !old(
                vfs,
            ).state().names.contains_key(path@))
        }),
        result is Ok ==> final(vfs).journal() == old(vfs).journal().with_names(dir@, final(vfs).state().names),
        result matches Err(error) ==> error is Io && final(vfs).journal() == old(vfs).journal(),
        old(vfs).dependable() && old(vfs).state().directories.contains(dir@) ==> result is Ok,
{
    match vfs.remove(path) {
        Ok(()) => {},
        Err(error) => {
            if error.kind != IoErrorKind::NotFound {
                let mut message: String = text::joined("failed to remove torn WAL tail segment ", path);
                message.append(": ");
                message.append(error.message.as_str());
                return Err(WalError::Io(message));
            }
        },
    }
    match vfs.sync_dir(dir) {
        Ok(()) => Ok(()),
        Err(error) => Err(WalError::io(error)),
    }
}

/// Cuts the last file of the log where its records end.
pub(crate) fn truncate_tail<V: Vfs>(vfs: &mut V, path: &str, valid_len: u64) -> (result: Result<(), WalError>)
    requires
        old(vfs).state().names.contains_key(path@),
        FILE_HEADER_SIZE <= valid_len,
    ensures
        final(vfs).dependable() == old(vfs).dependable(),
        ({
            let state = old(vfs).state();
            let id = state.names[path@];
            let contents = state.data[id];
            match result {
                Ok(()) => if valid_len < contents.len() {
                    &&& final(vfs).state() == state.with_data(id, contents.take(valid_len as int))
                    &&& final(vfs).journal() == old(vfs).journal().with_file(id, contents.take(valid_len as int))
                } else {
                    &&& final(vfs).state() == state
                    &&& final(vfs).journal() == old(vfs).journal()
                },
                Err(error) => {
                    &&& error is Io && !old(vfs).dependable()
                    &&& final(vfs).journal() == old(vfs).journal()
                    &&& {
                        ||| final(vfs).state() == state
                        ||| valid_len < contents.len() && final(vfs).state() == state.with_data(
                            id,
                            contents.take(valid_len as int),
                        )
                    }
                },
            }
        }),
{
    let file: VfsFile = match vfs.open(path, OpenOptions::Existing) {
        Ok(file) => file,
        Err(error) => {
            return Err(WalError::io(error));
        },
    };
    let actual_len: u64 = match vfs.size(&file) {
        Ok(size) => size,
        Err(error) => {
            return Err(WalError::io(error));
        },
    };
    if valid_len < actual_len {
        let end: u64 = if valid_len < FILE_HEADER_SIZE as u64 { FILE_HEADER_SIZE as u64 } else { valid_len };
        let ghost state = vfs.state();
        match vfs.truncate(&file, end) {
            Ok(()) => {},
            Err(error) => {
                return Err(WalError::io(error));
            },
        }
        proof {
            let cut = state.with_data(file.id, state.data[file.id].take(valid_len as int));
            assert(vfs.state().data =~= cut.data);
            assert(vfs.state() =~= cut);
        }
        match vfs.sync(&file) {
            Ok(()) => {},
            Err(error) => {
                return Err(WalError::io(error));
            },
        }
    }
    Ok(())
}

/// The records of a file end inside it, after the header.
proof fn records_end_inside(
    segment_number: u32,
    path: Seq<char>,
    contents: Seq<u8>,
    state: ScanState,
    tolerate_tail: bool,
    run: Run,
)
    requires
        FILE_HEADER_SIZE <= state.position,
        FILE_HEADER_SIZE <= state.good_end,
    ensures
        recovered_records(segment_number, path, contents, state, tolerate_tail, run) matches FileRecovery::Recovered {
            good_end,
            ..
        } ==> FILE_HEADER_SIZE <= good_end,
    decreases contents.len() - state.position,
{
    scanner::scan_keeps_header(segment_number, contents, contents.len() as int, state);
    scanner::scan_moves_on(segment_number, contents, contents.len() as int, state);
    if let ScanOutcome::Record { payload, state: after, .. } = scanner::next_outcome(
        segment_number,
        contents,
        contents.len() as int,
        state,
    ) {
        if let Some(sequence) = crate::wal::recovery::record_sequence(payload) {
            records_end_inside(segment_number, path, contents, after, tolerate_tail, run.with(sequence));
        }
    }
}

/// What a recovery starts with.
pub open spec fn empty_summary() -> SummaryView {
    SummaryView { last_sequence: None, last_segment_number: 0, segments: Seq::empty() }
}

/// Reads all segment files of the log, checks that their sequences follow one
/// another, and cuts or removes a torn last file.
pub fn recover_directory<V: Vfs>(vfs: &mut V, dir: &str) -> (result: Result<RecoverySummary, WalError>)
    ensures
        final(vfs).dependable() == old(vfs).dependable(),
        ({
            let before = old(vfs).state();
            let numbers = crate::wal::recovery::segment_numbers(before.names, dir@);
            let recovery = recovered_directory(before, dir@, numbers, empty_summary());
            match result {
                Ok(summary) => {
                    &&& forall|name: Seq<char>| !#[trigger] segment_names::is_malformed(before.names, dir@, name)
                    &&& recovery matches DirectoryRecovery::Recovered { summary: recovered, repair }
                    &&& summary@ == recovered
                    &&& final(vfs).state() == repaired(before, dir@, numbers.last(), repair) || repair is Remove && !old(
                        vfs,
                    ).dependable() && final(vfs).state() == before
                    &&& final(vfs).journal() == match repair {
                        TailRepair::Keep => old(vfs).journal(),
                        TailRepair::Remove => old(vfs).journal().with_names(dir@, final(vfs).state().names),
                        TailRepair::Truncate(end) => old(vfs).journal().with_file(
                            before.names[segment_names::segment_path(dir@, numbers.last() as nat)],
                            segment_contents(before, dir@, numbers.last()).take(end),
                        ),
                    }
                },
                Err(error) => {
                    &&& final(vfs).journal() == old(vfs).journal()
                    &&& {
                        ||| final(vfs).state() == before
                        ||| {
                            &&& !old(vfs).dependable()
                            &&& recovery matches DirectoryRecovery::Recovered { repair, .. }
                            &&& final(vfs).state() == repaired(before, dir@, numbers.last(), repair)
                        }
                    }
                    &&& {
                        ||| error is Io && (!old(vfs).dependable() || !before.directories.contains(dir@))
                        ||| exists|name: Seq<char>| #[trigger]
                            segment_names::is_malformed(before.names, dir@, name) && error@
                                == (WalErrorView::Corruption {
                                path: vfs::path_join(dir@, name),
                                message: segment_names::malformed_name(),
                            })
                        ||| {
                            &&& forall|name: Seq<char>|
                                !#[trigger] segment_names::is_malformed(before.names, dir@, name)
                            &&& recovery == DirectoryRecovery::Failed(error@)
                        }
                    }
                },
            }
        }),
{
    let files: Vec<(u64, String)> = match files::list_segment_files(&*vfs, dir) {
        Ok(files) => files,
        Err(error) => {
            return Err(WalError::segment(error));
        },
    };
    let ghost before = vfs.state();
    let ghost numbers = crate::wal::recovery::segment_numbers(before.names, dir@);
    let ghost recovery = recovered_directory(before, dir@, numbers, empty_summary());
    let mut last_sequence: Option<u64> = None;
    let mut last_segment_number: u64 = 0;
    let mut segments: Vec<SegmentMetadata> = Vec::new();
    proof {
        crate::wal::recovery::listed_numbers(before.names, dir@, files@);
        assert(numbers.skip(0) =~= numbers);
        assert(segments@.map_values(|segment: SegmentMetadata| segment@) =~= Seq::<SegmentView>::empty());
    }
    let mut at: usize = 0;
    while at < files.len()
        invariant
            at <= files@.len(),
            before == old(vfs).state(),
            vfs.dependable() == old(vfs).dependable(),
            vfs.journal() == old(vfs).journal(),
            vfs.state() == before,
            segment_names::lists_segments(before.names, dir@, files@),
            vfs.dependable() ==> before.directories.contains(dir@),
            numbers == crate::wal::recovery::segment_numbers(before.names, dir@),
            numbers == files@.map_values(|file: (u64, String)| file.0),
            recovery == recovered_directory(before, dir@, numbers, empty_summary()),
            recovery == recovered_directory(
                before,
                dir@,
                numbers.skip(at as int),
                (RecoverySummary { last_sequence, last_segment_number, segments })@,
            ),
        decreases files@.len() - at,
    {
        let number: u64 = files[at].0;
        let path: &str = files[at].1.as_str();
        let is_last: bool = at + 1 == files.len();
        let ghost done = (RecoverySummary { last_sequence, last_segment_number, segments })@;
        let ghost contents = segment_contents(before, dir@, number);
        proof {
            assert(numbers.skip(at as int)[0] == number);
            assert(numbers.skip(at as int).skip(1) =~= numbers.skip(at + 1));
            assert(path@ == segment_names::segment_path(dir@, number as nat));
            assert(numbers.last() == files@[files@.len() - 1].0);
            if scanner::opening_fault(contents) is None {
                records_are_scanned(
                    number as u32,
                    path@,
                    contents,
                    scanner::fresh_state(FILE_HEADER_SIZE as int),
                    is_last,
                    Run::starting(last_sequence),
                );
                records_end_inside(
                    number as u32,
                    path@,
                    contents,
                    scanner::fresh_state(FILE_HEADER_SIZE as int),
                    is_last,
                    Run::starting(last_sequence),
                );
            }
        }
        let opened: WalSegmentScanner = match WalSegmentScanner::open(vfs, path, is_last) {
            Ok(opened) => opened,
            Err(WalError::Corruption { path: torn, message }) => {
                if !is_last {
                    return Err(WalError::Corruption { path: torn, message });
                }
                match remove_uncommitted_tail(vfs, dir, path) {
                    Ok(()) => {},
                    Err(error) => {
                        return Err(error);
                    },
                }
                return Ok(RecoverySummary { last_sequence, last_segment_number, segments });
            },
            Err(error) => {
                return Err(error);
            },
        };
        let stored: u64 = opened.segment_number();
        if stored != number {
            let mut message: String = String::from_str("segment filename number ");
            text::push_decimal(&mut message, number);
            message.append(" does not match header number ");
            text::push_decimal(&mut message, stored);
            return Err(WalError::corruption(path, message));
        }
        let run: FileRun = match read_records(&*vfs, opened, last_sequence) {
            Ok(run) => run,
            Err(error) => {
                return Err(error);
            },
        };
        let ghost held = segments@;
        last_sequence = run.previous;
        segments.push(
            SegmentMetadata {
                number,
                path: String::from_str(path),
                first_sequence: run.first,
                last_sequence: run.last,
            },
        );
        if last_segment_number < number {
            last_segment_number = number;
        }
        proof {
            assert(segments@.map_values(|segment: SegmentMetadata| segment@) =~= done.segments.push(
                segments@.last()@,
            ));
            assert((RecoverySummary { last_sequence, last_segment_number, segments })@ =~= with_file(
                done,
                dir@,
                number,
                Run { previous: run.previous, first: run.first, last: run.last },
            ));
        }
        if is_last {
            match truncate_tail(vfs, path, run.valid_len) {
                Ok(()) => {},
                Err(error) => {
                    return Err(error);
                },
            }
            return Ok(RecoverySummary { last_sequence, last_segment_number, segments });
        }
        at += 1;
    }
    Ok(RecoverySummary { last_sequence, last_segment_number, segments })
}

/// The run with the sequences of records.
pub open spec fn run_through(run: Run, records: Seq<(u64, Seq<u8>)>) -> Run
    decreases records.len(),
{
    if records.len() == 0 {
        run
    } else {
        run_through(run.with(records[0].0), records.skip(1))
    }
}

/// The first bytes of a record of the log that stands at a position.
pub open spec fn torn_record(segment_number: u64, position: int, log: (u64, Seq<u8>), cut: int) -> Seq<u8> {
    record::fragments(segment_number as u32, position, crate::wal::recovery::log_record(log.0, log.1)).take(cut)
}

/// Whether a number of bytes is less than a record of the log takes without its
/// padding.
pub open spec fn is_cut(segment_number: u64, position: int, log: (u64, Seq<u8>), cut: int) -> bool {
    0 <= cut < record::fragments(segment_number as u32, position, crate::wal::recovery::log_record(log.0, log.1)).len()
}

/// Where the last record of a batch ends, before its padding.
pub open spec fn records_end(segment_number: u64, start: int, written: Seq<(u64, Seq<u8>)>) -> int
    decreases written.len(),
{
    if written.len() == 0 {
        start
    } else if written.len() == 1 {
        start + record::fragments(segment_number as u32, start, crate::wal::recovery::log_record(written[0].0, written[0].1)).len()
    } else {
        let first = records::first_record(segment_number, start, written);
        records_end(segment_number, start + first.len(), written.skip(1))
    }
}

/// Where the whole part of a file ends that holds records up to `whole`, the
/// last of which ends at `bare` before its padding, and part of one more.
///
/// It ends with the padding of the last record. Zeros that are less than a
/// header are padding too, and where padding and part are together less than a
/// header, the padding may go with the part.
pub open spec fn is_whole_end(good_end: int, bare: int, whole: int, part: Seq<u8>) -> bool {
    if part.len() < HEADER_SIZE && bytestr::is_zero(part) {
        good_end == whole + part.len()
    } else if bare < whole && whole - bare + part.len() < HEADER_SIZE {
        bare <= good_end <= whole
    } else {
        good_end == whole
    }
}

/// Whether part of a record is more than padding.
pub open spec fn is_torn(part: Seq<u8>) -> bool {
    part.len() >= HEADER_SIZE || !bytestr::is_zero(part)
}

/// Records end at or behind where they start.
pub proof fn records_end_behind(segment_number: u64, start: int, written: Seq<(u64, Seq<u8>)>)
    ensures
        start <= records_end(segment_number, start, written),
    decreases written.len(),
{
    if written.len() > 1 {
        let first = records::first_record(segment_number, start, written);
        records_end_behind(segment_number, start + first.len(), written.skip(1));
    }
}

/// Padding that ends at `next` and less than a header end a scan: the whole part
/// ends where [`is_whole_end`] says.
proof fn short_remains_end_a_scan(segment_number: u32, contents: Seq<u8>, next: int, state: ScanState)
    requires
        FILE_HEADER_SIZE <= state.position <= next <= contents.len() < state.position + HEADER_SIZE,
        scanner::stands_at(state, state.position),
        align::aligned(state.position, ALIGNMENT as int) == next,
        bytestr::is_zero(contents.subrange(state.position, next)),
    ensures
        ({
            let part = contents.skip(next);
            let outcome = scanner::next_outcome(segment_number, contents, contents.len() as int, state);
            if bytestr::is_zero(part) {
                outcome matches ScanOutcome::End { good_end } && is_whole_end(good_end, state.position, next, part)
            } else {
                outcome matches ScanOutcome::Tail { good_end, .. } && is_whole_end(good_end, state.position, next, part)
            }
        }),
    decreases contents.len() - state.position,
{
    let len = contents.len() as int;
    let left = len - state.position;
    let room = framing::room(state.position - FILE_HEADER_SIZE);
    let part = contents.skip(next);
    let rest = contents.subrange(state.position, len);
    align::aligned_bounds(state.position, ALIGNMENT as int);
    assert(bytestr::is_zero(rest) == bytestr::is_zero(part)) by {
        let padding = contents.subrange(state.position, next);
        assert forall|i: int| 0 <= i < rest.len() && bytestr::is_zero(part) implies rest[i] == 0 by {
            if i < next - state.position {
                assert(padding[i] == rest[i]);
            } else {
                assert(part[i - (next - state.position)] == rest[i]);
            }
        }
        assert forall|i: int| 0 <= i < part.len() && bytestr::is_zero(rest) implies part[i] == 0 by {
            assert(rest[i + (next - state.position)] == part[i]);
        }
    }
    if left > 0 && room < HEADER_SIZE {
        assert(state.position + room == next);
        let further = scanner::skipped(state, next);
        align::aligned_bounds(next, ALIGNMENT as int);
        assert(align::aligned(next, ALIGNMENT as int) == next);
        short_remains_end_a_scan(segment_number, contents, next, further);
        assert(contents.subrange(state.position, state.position + room) =~= contents.subrange(state.position, next));
    }
}

/// Padding and less than a header end a scan: the whole part ends where
/// [`is_whole_end`] says.
proof fn padded_remains_end_a_scan(segment_number: u32, contents: Seq<u8>, state: ScanState)
    requires
        FILE_HEADER_SIZE <= state.position,
        scanner::stands_at(state, state.position),
        align::aligned(state.position, ALIGNMENT as int) <= contents.len(),
        contents.len() < align::aligned(state.position, ALIGNMENT as int) + HEADER_SIZE,
        bytestr::is_zero(contents.subrange(state.position, align::aligned(state.position, ALIGNMENT as int))),
    ensures
        ({
            let next = align::aligned(state.position, ALIGNMENT as int);
            let part = contents.skip(next);
            let outcome = scanner::next_outcome(segment_number, contents, contents.len() as int, state);
            if bytestr::is_zero(part) {
                outcome matches ScanOutcome::End { good_end } && is_whole_end(good_end, state.position, next, part)
            } else {
                outcome matches ScanOutcome::Tail { good_end, .. } && is_whole_end(good_end, state.position, next, part)
            }
        }),
{
    let len = contents.len() as int;
    let next = align::aligned(state.position, ALIGNMENT as int);
    align::aligned_bounds(state.position, ALIGNMENT as int);
    if state.position + HEADER_SIZE <= len {
        let further = scanner::skipped(state, next);
        scanner::padding_is_skipped(segment_number, contents, len, state);
        align::aligned_bounds(next, ALIGNMENT as int);
        assert(align::aligned(next, ALIGNMENT as int) == next);
        short_remains_end_a_scan(segment_number, contents, next, further);
    } else {
        short_remains_end_a_scan(segment_number, contents, next, state);
    }
}

/// Part of a record that follows whole pages ends a scan, with all that came
/// before it.
pub proof fn part_of_a_record_ends_a_scan(
    segment_number: u64,
    before: Seq<u8>,
    torn: (u64, Seq<u8>),
    cut: int,
    state: ScanState,
)
    requires
        segment_number <= u32::MAX,
        FILE_HEADER_SIZE <= before.len(),
        before.len() as int % ALIGNMENT as int == 0,
        scanner::stands_at(state, before.len() as int),
        is_cut(segment_number, before.len() as int, torn, cut),
    ensures
        ({
            let part = torn_record(segment_number, before.len() as int, torn, cut);
            let contents = before + part;
            let outcome = scanner::next_outcome(segment_number as u32, contents, contents.len() as int, state);
            if is_torn(part) {
                outcome matches ScanOutcome::Tail { good_end, .. } && good_end == before.len()
            } else {
                outcome matches ScanOutcome::End { good_end } && good_end == contents.len()
            }
        }),
{
    let part = torn_record(segment_number, before.len() as int, torn, cut);
    let contents = before + part;
    let start = before.len() as int;
    if cut >= HEADER_SIZE {
        scanner::cut_record_is_torn(
            segment_number,
            before,
            crate::wal::recovery::log_record(torn.0, torn.1),
            cut,
            state,
        );
    } else {
        align::aligned_bounds(start, ALIGNMENT as int);
        assert(align::aligned(start, ALIGNMENT as int) == start);
        assert(contents.skip(start) =~= part);
        short_remains_end_a_scan(segment_number as u32, contents, start, state);
    }
}

/// Part of a record is passed over where torn records are tolerated.
pub proof fn part_of_a_record_is_dropped(
    segment_number: u64,
    path: Seq<char>,
    before: Seq<u8>,
    torn: (u64, Seq<u8>),
    cut: int,
    state: ScanState,
    tolerate_tail: bool,
    run: Run,
)
    requires
        segment_number <= u32::MAX,
        FILE_HEADER_SIZE <= before.len(),
        before.len() as int % ALIGNMENT as int == 0,
        scanner::stands_at(state, before.len() as int),
        is_cut(segment_number, before.len() as int, torn, cut),
        cut == 0 || tolerate_tail,
    ensures
        ({
            let contents = before + torn_record(segment_number, before.len() as int, torn, cut);
            &&& recovered_records(segment_number as u32, path, contents, state, tolerate_tail, run) matches
                FileRecovery::Recovered { run: found, good_end }
            &&& found == run
            &&& before.len() <= good_end <= contents.len()
            &&& cut == 0 || cut >= HEADER_SIZE ==> good_end == before.len()
        }),
{
    part_of_a_record_ends_a_scan(segment_number, before, torn, cut, state);
}

/// Two states that come to the same outcome recover the same records.
proof fn recovered_alike(
    segment_number: u32,
    path: Seq<char>,
    contents: Seq<u8>,
    state: ScanState,
    other: ScanState,
    tolerate_tail: bool,
    run: Run,
)
    requires
        FILE_HEADER_SIZE <= state.position,
        FILE_HEADER_SIZE <= other.position,
        scanner::next_outcome(segment_number, contents, contents.len() as int, state) == scanner::next_outcome(
            segment_number,
            contents,
            contents.len() as int,
            other,
        ),
    ensures
        recovered_records(segment_number, path, contents, state, tolerate_tail, run) == recovered_records(
            segment_number,
            path,
            contents,
            other,
            tolerate_tail,
            run,
        ),
{
    scanner::scan_moves_on(segment_number, contents, contents.len() as int, state);
    scanner::scan_moves_on(segment_number, contents, contents.len() as int, other);
}

/// The first record of a batch is recovered, and then what follows it.
proof fn first_of_batch_is_recovered(
    segment_number: u64,
    path: Seq<char>,
    before: Seq<u8>,
    written: Seq<(u64, Seq<u8>)>,
    tail: Seq<u8>,
    state: ScanState,
    tolerate_tail: bool,
    run: Run,
) -> (found: (ScanState, ScanState))
    requires
        segment_number <= u32::MAX,
        FILE_HEADER_SIZE <= before.len(),
        before.len() as int % ALIGNMENT as int == 0,
        written.len() > 0,
        scanner::stands_at(state, before.len() as int),
        records::follows(run.previous, written),
    ensures
        ({
            let number = segment_number as u32;
            let start = before.len() as int;
            let next = before + records::first_record(segment_number, start, written);
            let whole = before + records::batch_bytes(segment_number, start, written);
            let contents = whole + tail;
            let longer = run.with(written[0].0);
            &&& recovered_records(number, path, contents, state, tolerate_tail, run) == recovered_records(
                number,
                path,
                contents,
                found.0,
                tolerate_tail,
                longer,
            )
            &&& written.len() > 1 || tail.len() == 0 || tail.len() >= HEADER_SIZE ==> recovered_records(
                number,
                path,
                contents,
                found.0,
                tolerate_tail,
                longer,
            ) == recovered_records(number, path, contents, found.1, tolerate_tail, longer)
            &&& scanner::stands_at(found.0, records_end(segment_number, start, written.take(1)))
            &&& scanner::stands_at(found.1, next.len() as int)
            &&& FILE_HEADER_SIZE <= found.0.position <= next.len()
            &&& align::aligned(found.0.position, ALIGNMENT as int) == next.len()
            &&& bytestr::is_zero(contents.subrange(found.0.position, next.len() as int))
            &&& next.len() as int % ALIGNMENT as int == 0
            &&& whole == next + records::batch_bytes(segment_number, next.len() as int, written.skip(1))
            &&& records::follows(longer.previous, written.skip(1))
        }),
{
    let number = segment_number as u32;
    let start = before.len() as int;
    let record = records::first_record(segment_number, start, written);
    let next = before + record;
    let whole = before + records::batch_bytes(segment_number, start, written);
    let contents = whole + tail;
    let longer = run.with(written[0].0);
    let (after, further) = records::next_of_batch(segment_number, before, written, tail, state);
    records::log_record_round_trip(written[0].0, written[0].1);
    if written.len() > 1 || tail.len() == 0 || tail.len() >= HEADER_SIZE {
        recovered_alike(number, path, contents, after, further, tolerate_tail, longer);
    }
    let rest = records::batch_bytes(segment_number, next.len() as int, written.skip(1));
    assert(whole =~= contents.take(whole.len() as int));
    assert(next + rest =~= (next + rest + tail).take((next + rest).len() as int));
    (after, further)
}

/// A batch is recovered whole, whatever part of a record follows it where torn
/// records are tolerated. Elsewhere the part is reported.
proof fn batch_is_recovered(
    segment_number: u64,
    path: Seq<char>,
    before: Seq<u8>,
    written: Seq<(u64, Seq<u8>)>,
    torn: (u64, Seq<u8>),
    cut: int,
    state: ScanState,
    tolerate_tail: bool,
    run: Run,
)
    requires
        segment_number <= u32::MAX,
        FILE_HEADER_SIZE <= before.len(),
        before.len() as int % ALIGNMENT as int == 0,
        scanner::stands_at(state, before.len() as int),
        records::follows(run.previous, written),
        is_cut(
            segment_number,
            (before + records::batch_bytes(segment_number, before.len() as int, written)).len() as int,
            torn,
            cut,
        ),
    ensures
        ({
            let whole = before + records::batch_bytes(segment_number, before.len() as int, written);
            let part = torn_record(segment_number, whole.len() as int, torn, cut);
            let contents = whole + part;
            let bare = records_end(segment_number, before.len() as int, written);
            let recovered = recovered_records(segment_number as u32, path, contents, state, tolerate_tail, run);
            &&& bare <= whole.len()
            &&& if tolerate_tail || !is_torn(part) {
                &&& recovered matches FileRecovery::Recovered { run: found, good_end }
                &&& found == run_through(run, written)
                &&& is_whole_end(good_end, bare, whole.len() as int, part)
            } else {
                recovered matches FileRecovery::Failed(WalErrorView::Corruption { path: at, .. }) && at == path
            }
        }),
    decreases written.len(),
{
    let number = segment_number as u32;
    let start = before.len() as int;
    let whole = before + records::batch_bytes(segment_number, start, written);
    let tail = torn_record(segment_number, whole.len() as int, torn, cut);
    let contents = whole + tail;
    let len = contents.len() as int;
    if written.len() == 0 {
        assert(whole =~= before);
        part_of_a_record_ends_a_scan(segment_number, before, torn, cut, state);
    } else {
        let record = records::first_record(segment_number, start, written);
        let later = written.skip(1);
        let next = before + record;
        let longer = run.with(written[0].0);
        let (after, further) = first_of_batch_is_recovered(
            segment_number,
            path,
            before,
            written,
            tail,
            state,
            tolerate_tail,
            run,
        );
        if later.len() > 0 || cut == 0 || cut >= HEADER_SIZE {
            batch_is_recovered(segment_number, path, next, later, torn, cut, further, tolerate_tail, longer);
        } else {
            assert(whole =~= next);
            assert(contents.skip(next.len() as int) =~= tail);
            padded_remains_end_a_scan(number, contents, after);
            assert(run_through(longer, later) == longer);
        }
    }
}

/// Two states that come to the same outcome find the same records.
proof fn scanned_alike(
    segment_number: u32,
    path: Seq<char>,
    contents: Seq<u8>,
    state: ScanState,
    other: ScanState,
    tolerate_tail: bool,
    found: Seq<(u64, Seq<u8>)>,
)
    requires
        FILE_HEADER_SIZE <= state.position,
        FILE_HEADER_SIZE <= other.position,
        scanner::next_outcome(segment_number, contents, contents.len() as int, state) == scanner::next_outcome(
            segment_number,
            contents,
            contents.len() as int,
            other,
        ),
    ensures
        records::scanned_records(segment_number, path, contents, state, tolerate_tail, found) == records::scanned_records(
            segment_number,
            path,
            contents,
            other,
            tolerate_tail,
            found,
        ),
{
    scanner::held_file_is_scanned(segment_number, contents, contents.len() as int, state);
    scanner::scan_moves_on(segment_number, contents, contents.len() as int, state);
    scanner::scan_moves_on(segment_number, contents, contents.len() as int, other);
}

/// The first record of a batch is found, and then what follows it.
proof fn first_of_batch_is_scanned(
    segment_number: u64,
    path: Seq<char>,
    before: Seq<u8>,
    written: Seq<(u64, Seq<u8>)>,
    tail: Seq<u8>,
    state: ScanState,
    tolerate_tail: bool,
    found: Seq<(u64, Seq<u8>)>,
) -> (reached: (ScanState, ScanState))
    requires
        segment_number <= u32::MAX,
        FILE_HEADER_SIZE <= before.len(),
        before.len() as int % ALIGNMENT as int == 0,
        written.len() > 0,
        scanner::stands_at(state, before.len() as int),
    ensures
        ({
            let number = segment_number as u32;
            let start = before.len() as int;
            let next = before + records::first_record(segment_number, start, written);
            let whole = before + records::batch_bytes(segment_number, start, written);
            let contents = whole + tail;
            let longer = found.push(written[0]);
            &&& records::scanned_records(number, path, contents, state, tolerate_tail, found) == records::scanned_records(
                number,
                path,
                contents,
                reached.0,
                tolerate_tail,
                longer,
            )
            &&& written.len() > 1 || tail.len() == 0 || tail.len() >= HEADER_SIZE ==> records::scanned_records(
                number,
                path,
                contents,
                reached.0,
                tolerate_tail,
                longer,
            ) == records::scanned_records(number, path, contents, reached.1, tolerate_tail, longer)
            &&& scanner::stands_at(reached.0, records_end(segment_number, start, written.take(1)))
            &&& scanner::stands_at(reached.1, next.len() as int)
            &&& FILE_HEADER_SIZE <= reached.0.position <= next.len()
            &&& align::aligned(reached.0.position, ALIGNMENT as int) == next.len()
            &&& bytestr::is_zero(contents.subrange(reached.0.position, next.len() as int))
            &&& next.len() as int % ALIGNMENT as int == 0
            &&& whole == next + records::batch_bytes(segment_number, next.len() as int, written.skip(1))
        }),
{
    let number = segment_number as u32;
    let start = before.len() as int;
    let record = records::first_record(segment_number, start, written);
    let next = before + record;
    let whole = before + records::batch_bytes(segment_number, start, written);
    let contents = whole + tail;
    let longer = found.push(written[0]);
    let (after, further) = records::next_of_batch(segment_number, before, written, tail, state);
    records::log_record_round_trip(written[0].0, written[0].1);
    if written.len() > 1 || tail.len() == 0 || tail.len() >= HEADER_SIZE {
        scanned_alike(number, path, contents, after, further, tolerate_tail, longer);
    }
    let rest = records::batch_bytes(segment_number, next.len() as int, written.skip(1));
    assert(whole =~= contents.take(whole.len() as int));
    assert(next + rest =~= (next + rest + tail).take((next + rest).len() as int));
    (after, further)
}

/// A batch is found whole, whatever part of a record follows it where torn
/// records are tolerated. Elsewhere the part is reported.
proof fn batch_is_scanned(
    segment_number: u64,
    path: Seq<char>,
    before: Seq<u8>,
    written: Seq<(u64, Seq<u8>)>,
    torn: (u64, Seq<u8>),
    cut: int,
    state: ScanState,
    tolerate_tail: bool,
    found: Seq<(u64, Seq<u8>)>,
)
    requires
        segment_number <= u32::MAX,
        FILE_HEADER_SIZE <= before.len(),
        before.len() as int % ALIGNMENT as int == 0,
        scanner::stands_at(state, before.len() as int),
        is_cut(
            segment_number,
            (before + records::batch_bytes(segment_number, before.len() as int, written)).len() as int,
            torn,
            cut,
        ),
    ensures
        ({
            let whole = before + records::batch_bytes(segment_number, before.len() as int, written);
            let part = torn_record(segment_number, whole.len() as int, torn, cut);
            let contents = whole + part;
            let bare = records_end(segment_number, before.len() as int, written);
            let scanned = records::scanned_records(segment_number as u32, path, contents, state, tolerate_tail, found);
            &&& bare <= whole.len()
            &&& if tolerate_tail || !is_torn(part) {
                &&& scanned matches FileScan::Scanned { records: all, good_end }
                &&& all == found + written
                &&& is_whole_end(good_end, bare, whole.len() as int, part)
            } else {
                scanned matches FileScan::Failed(WalErrorView::Corruption { path: at, .. }) && at == path
            }
        }),
    decreases written.len(),
{
    let number = segment_number as u32;
    let start = before.len() as int;
    let whole = before + records::batch_bytes(segment_number, start, written);
    let tail = torn_record(segment_number, whole.len() as int, torn, cut);
    let contents = whole + tail;
    let len = contents.len() as int;
    if written.len() == 0 {
        assert(whole =~= before);
        assert(found + written =~= found);
        part_of_a_record_ends_a_scan(segment_number, before, torn, cut, state);
    } else {
        let record = records::first_record(segment_number, start, written);
        let later = written.skip(1);
        let next = before + record;
        let longer = found.push(written[0]);
        let (after, further) = first_of_batch_is_scanned(
            segment_number,
            path,
            before,
            written,
            tail,
            state,
            tolerate_tail,
            found,
        );
        assert(longer + later =~= found + written);
        if later.len() > 0 || cut == 0 || cut >= HEADER_SIZE {
            batch_is_scanned(segment_number, path, next, later, torn, cut, further, tolerate_tail, longer);
        } else {
            assert(whole =~= next);
            assert(contents.skip(next.len() as int) =~= tail);
            padded_remains_end_a_scan(number, contents, after);
        }
    }
}

/// A record takes room.
proof fn records_take_room(segment_number: u64, position: int, log: (u64, Seq<u8>))
    ensures
        is_cut(segment_number, position, log, 0),
{
    framing::record_is_not_empty(
        record::FULL,
        segment_number as u32,
        position - FILE_HEADER_SIZE,
        crate::wal::recovery::log_record(log.0, log.1),
        true,
    );
}

/// A segment file with a header, a batch of records and part of one more is
/// scanned: it gives the whole records, and ends where [`is_whole_end`] says.
/// Where torn records are not tolerated the part is reported.
pub proof fn torn_segment_is_scanned(
    segment_number: u64,
    path: Seq<char>,
    written: Seq<(u64, Seq<u8>)>,
    torn: (u64, Seq<u8>),
    cut: int,
    tolerate_tail: bool,
)
    requires
        segment_number <= u32::MAX,
        is_cut(segment_number, records::segment_bytes(segment_number, written).len() as int, torn, cut),
    ensures
        ({
            let whole = records::segment_bytes(segment_number, written);
            let part = torn_record(segment_number, whole.len() as int, torn, cut);
            let contents = whole + part;
            let bare = records_end(segment_number, FILE_HEADER_SIZE as int, written);
            let scanned = records::scanned_file(path, contents, tolerate_tail);
            &&& bare <= whole.len()
            &&& scanner::stored_number(contents) == segment_number
            &&& if tolerate_tail || !is_torn(part) {
                &&& scanned matches FileScan::Scanned { records, good_end }
                &&& records == written
                &&& is_whole_end(good_end, bare, whole.len() as int, part)
            } else {
                scanned matches FileScan::Failed(WalErrorView::Corruption { path: at, .. }) && at == path
            }
        }),
{
    let header = envelope::file_header(segment_number, ALIGNMENT as u32);
    let whole = records::segment_bytes(segment_number, written);
    let contents = whole + torn_record(segment_number, whole.len() as int, torn, cut);
    envelope::header_round_trip(segment_number, ALIGNMENT, Seq::empty(), true);
    assert(header + Seq::<u8>::empty() =~= header);
    assert(contents.take(FILE_HEADER_SIZE as int) =~= header);
    batch_is_scanned(
        segment_number,
        path,
        header,
        written,
        torn,
        cut,
        scanner::fresh_state(FILE_HEADER_SIZE as int),
        tolerate_tail,
        Seq::empty(),
    );
    assert(Seq::<(u64, Seq<u8>)>::empty() + written =~= written);
}

/// A segment file with a header, a batch of records and part of one more is
/// recovered with the sequences of the whole records.
///
/// The part ends before the record's padding. The whole part of the file ends
/// where [`is_whole_end`] says. In a file that is not the last one the part is
/// reported.
pub proof fn torn_segment_is_recovered(
    segment_number: u64,
    path: Seq<char>,
    written: Seq<(u64, Seq<u8>)>,
    torn: (u64, Seq<u8>),
    cut: int,
    is_last: bool,
    previous: Option<u64>,
)
    requires
        segment_number <= u32::MAX,
        records::follows(previous, written),
        is_cut(segment_number, records::segment_bytes(segment_number, written).len() as int, torn, cut),
    ensures
        ({
            let whole = records::segment_bytes(segment_number, written);
            let part = torn_record(segment_number, whole.len() as int, torn, cut);
            let contents = whole + part;
            let bare = records_end(segment_number, FILE_HEADER_SIZE as int, written);
            let recovered = recovered_file(segment_number, path, contents, is_last, previous);
            &&& bare <= whole.len()
            &&& if is_last || !is_torn(part) {
                &&& recovered matches FileRecovery::Recovered { run, good_end }
                &&& run == run_through(Run::starting(previous), written)
                &&& is_whole_end(good_end, bare, whole.len() as int, part)
                &&& bare <= good_end <= contents.len()
                &&& cut == 0 || cut >= HEADER_SIZE ==> good_end == whole.len()
            } else {
                recovered matches FileRecovery::Failed(WalErrorView::Corruption { path: at, .. }) && at == path
            }
        }),
{
    let header = envelope::file_header(segment_number, ALIGNMENT as u32);
    let whole = records::segment_bytes(segment_number, written);
    let contents = whole + torn_record(segment_number, whole.len() as int, torn, cut);
    envelope::header_round_trip(segment_number, ALIGNMENT, Seq::empty(), true);
    assert(header + Seq::<u8>::empty() =~= header);
    assert(contents.take(FILE_HEADER_SIZE as int) =~= header);
    batch_is_recovered(
        segment_number,
        path,
        header,
        written,
        torn,
        cut,
        scanner::fresh_state(FILE_HEADER_SIZE as int),
        is_last,
        Run::starting(previous),
    );
}

/// A segment file with a header and a batch of records is recovered whole,
/// with the sequences of its records.
pub proof fn written_segment_is_recovered(
    segment_number: u64,
    path: Seq<char>,
    written: Seq<(u64, Seq<u8>)>,
    is_last: bool,
    previous: Option<u64>,
)
    requires
        segment_number <= u32::MAX,
        records::follows(previous, written),
    ensures
        ({
            let contents = records::segment_bytes(segment_number, written);
            recovered_file(segment_number, path, contents, is_last, previous) == (FileRecovery::Recovered {
                run: run_through(Run::starting(previous), written),
                good_end: contents.len() as int,
            })
        }),
{
    let contents = records::segment_bytes(segment_number, written);
    let none = (0u64, Seq::<u8>::empty());
    records_take_room(segment_number, contents.len() as int, none);
    assert(contents + torn_record(segment_number, contents.len() as int, none, 0) =~= contents);
    torn_segment_is_recovered(segment_number, path, written, none, 0, is_last, previous);
}

/// A batch whose sequences do not follow one another is reported.
proof fn gap_in_a_batch_is_reported(
    segment_number: u64,
    path: Seq<char>,
    before: Seq<u8>,
    written: Seq<(u64, Seq<u8>)>,
    state: ScanState,
    tolerate_tail: bool,
    run: Run,
)
    requires
        segment_number <= u32::MAX,
        FILE_HEADER_SIZE <= before.len(),
        before.len() as int % ALIGNMENT as int == 0,
        scanner::stands_at(state, before.len() as int),
        !records::follows(run.previous, written),
    ensures
        ({
            let contents = before + records::batch_bytes(segment_number, before.len() as int, written);
            recovered_records(segment_number as u32, path, contents, state, tolerate_tail, run) matches
                FileRecovery::Failed(WalErrorView::Corruption { path: at, .. }) && at == path
        }),
    decreases written.len(),
{
    let number = segment_number as u32;
    let start = before.len() as int;
    let contents = before + records::batch_bytes(segment_number, start, written);
    let next = before + records::first_record(segment_number, start, written);
    let rest = records::batch_bytes(segment_number, next.len() as int, written.skip(1));
    let longer = run.with(written[0].0);
    assert(contents + Seq::<u8>::empty() =~= contents);
    assert(next + rest + Seq::<u8>::empty() =~= next + rest);
    let (after, further) = records::next_of_batch(segment_number, before, written, Seq::empty(), state);
    records::log_record_round_trip(written[0].0, written[0].1);
    if sequence_error(path, run.previous, written[0].0) is None {
        recovered_alike(number, path, contents, after, further, tolerate_tail, longer);
        gap_in_a_batch_is_reported(segment_number, path, next, written.skip(1), further, tolerate_tail, longer);
    }
}

/// A segment file whose records do not follow one another and those before it is
/// reported.
pub proof fn gap_in_a_segment_is_reported(
    segment_number: u64,
    path: Seq<char>,
    written: Seq<(u64, Seq<u8>)>,
    is_last: bool,
    previous: Option<u64>,
)
    requires
        segment_number <= u32::MAX,
        !records::follows(previous, written),
    ensures
        recovered_file(
            segment_number,
            path,
            records::segment_bytes(segment_number, written),
            is_last,
            previous,
        ) matches FileRecovery::Failed(WalErrorView::Corruption { path: at, .. }) && at == path,
{
    let header = envelope::file_header(segment_number, ALIGNMENT as u32);
    let contents = records::segment_bytes(segment_number, written);
    envelope::header_round_trip(segment_number, ALIGNMENT, Seq::empty(), true);
    assert(header + Seq::<u8>::empty() =~= header);
    assert(contents.take(FILE_HEADER_SIZE as int) =~= header);
    gap_in_a_batch_is_reported(
        segment_number,
        path,
        header,
        written,
        scanner::fresh_state(FILE_HEADER_SIZE as int),
        is_last,
        Run::starting(previous),
    );
}

proof fn run_ends_with_the_records(run: Run, records: Seq<(u64, Seq<u8>)>)
    requires
        records.len() > 0,
    ensures
        run_through(run, records) == (Run {
            previous: Some(records.last().0),
            first: if run.first is Some {
                run.first
            } else {
                Some(records[0].0)
            },
            last: Some(records.last().0),
        }),
    decreases records.len(),
{
    let rest = records.skip(1);
    if rest.len() > 0 {
        run_ends_with_the_records(run.with(records[0].0), rest);
        assert(rest.last() == records.last());
    } else {
        reveal_with_fuel(run_through, 2);
    }
}

/// What a recovery says of a segment that holds the records.
pub open spec fn recovered_segment(dir: Seq<char>, number: u64, written: Seq<(u64, Seq<u8>)>) -> SegmentView {
    SegmentView {
        number,
        path: segment_names::segment_path(dir, number as nat),
        first: if written.len() > 0 {
            Some(written[0].0)
        } else {
            None
        },
        last: if written.len() > 0 {
            Some(written.last().0)
        } else {
            None
        },
        active: false,
        leases: 0,
    }
}

/// Whether the segment files of a directory hold the records that were written
/// to each of them.
pub open spec fn directory_holds(
    state: FsState,
    dir: Seq<char>,
    numbers: Seq<u64>,
    written: Seq<Seq<(u64, Seq<u8>)>>,
) -> bool {
    &&& numbers.len() == written.len()
    &&& forall|i: int|
        0 <= i < numbers.len() ==> {
            &&& (#[trigger] numbers[i]) <= u32::MAX
            &&& segment_contents(state, dir, numbers[i]) == records::segment_bytes(numbers[i], written[i])
        }
    &&& forall|i: int, j: int| 0 <= i < j < numbers.len() ==> numbers[i] < numbers[j]
}

/// Whether the segment files of a directory hold the records that were written
/// to each of them, and the last file part of one more record.
pub open spec fn directory_is_torn(
    state: FsState,
    dir: Seq<char>,
    numbers: Seq<u64>,
    written: Seq<Seq<(u64, Seq<u8>)>>,
    torn: (u64, Seq<u8>),
    cut: int,
) -> bool {
    let whole = records::segment_bytes(numbers.last(), written.last());
    let contents = segment_contents(state, dir, numbers.last());
    &&& numbers.len() > 0
    &&& numbers.last() <= u32::MAX
    &&& is_cut(numbers.last(), whole.len() as int, torn, cut)
    &&& contents == whole + torn_record(numbers.last(), whole.len() as int, torn, cut)
    &&& directory_holds(state, dir, numbers.drop_last(), written.drop_last())
    &&& numbers.len() == written.len()
    &&& forall|i: int| 0 <= i < numbers.len() - 1 ==> (#[trigger] numbers[i]) < numbers.last()
}

/// What a recovery says of segments that hold the records.
pub open spec fn recovered_segments(
    dir: Seq<char>,
    numbers: Seq<u64>,
    written: Seq<Seq<(u64, Seq<u8>)>>,
) -> Seq<SegmentView> {
    Seq::new(numbers.len(), |i: int| recovered_segment(dir, numbers[i], written[i]))
}

/// Whether a file holds what is left of `whole`, the last record of which ends
/// at `bare` before its padding, once part of one more record is cut off.
///
/// It is `whole` itself. Zeros that are less than a header stay as padding, and
/// where the last record's padding and the part are together less than a header,
/// some of the padding may be cut off too.
pub open spec fn is_restored(contents: Seq<u8>, whole: Seq<u8>, bare: int, part: Seq<u8>) -> bool {
    if part.len() < HEADER_SIZE && bytestr::is_zero(part) {
        contents == whole + part
    } else if bare < whole.len() && whole.len() - bare + part.len() < HEADER_SIZE {
        &&& bare <= contents.len() <= whole.len()
        &&& contents == whole.take(contents.len() as int)
    } else {
        contents == whole
    }
}

/// To cut a file where its whole part ends restores it.
pub proof fn cut_at_the_whole_end_restores(whole: Seq<u8>, bare: int, part: Seq<u8>, good_end: int)
    requires
        0 <= bare <= whole.len(),
        is_whole_end(good_end, bare, whole.len() as int, part),
    ensures
        0 <= good_end <= whole.len() + part.len(),
        is_restored((whole + part).take(good_end), whole, bare, part),
        good_end == whole.len() + part.len() ==> is_restored(whole + part, whole, bare, part),
{
    let contents = whole + part;
    assert(contents.take(contents.len() as int) =~= contents);
    if good_end <= whole.len() {
        assert(contents.take(good_end) =~= whole.take(good_end));
        assert(whole.take(whole.len() as int) =~= whole);
    }
}

/// A log whose last file ends with part of a record is recovered with every
/// record before it: every segment with the sequences of the records that were
/// written to it, in order.
///
/// The part ends before the record's padding. It is cut off the last file, which
/// then holds what was written to it and nothing else.
pub proof fn torn_directory_is_recovered(
    state: FsState,
    dir: Seq<char>,
    numbers: Seq<u64>,
    written: Seq<Seq<(u64, Seq<u8>)>>,
    torn: (u64, Seq<u8>),
    cut: int,
    done: SummaryView,
)
    requires
        directory_is_torn(state, dir, numbers, written, torn, cut),
        done.last_segment_number <= numbers[0],
        records::follows(done.last_sequence, written.flatten()),
    ensures
        ({
            let all = written.flatten();
            let whole = records::segment_bytes(numbers.last(), written.last());
            &&& recovered_directory(state, dir, numbers, done) matches DirectoryRecovery::Recovered {
                summary,
                repair,
            }
            &&& cut == 0 ==> repair is Keep
            &&& cut >= HEADER_SIZE ==> repair == TailRepair::Truncate(whole.len() as int)
            &&& repair matches TailRepair::Truncate(kept) ==> records_end(
                numbers.last(),
                FILE_HEADER_SIZE as int,
                written.last(),
            ) <= kept
            &&& is_restored(
                segment_contents(repaired(state, dir, numbers.last(), repair), dir, numbers.last()),
                whole,
                records_end(numbers.last(), FILE_HEADER_SIZE as int, written.last()),
                torn_record(numbers.last(), whole.len() as int, torn, cut),
            )
            &&& !(repair is Remove)
            &&& summary.last_sequence == (if all.len() > 0 {
                Some(all.last().0)
            } else {
                done.last_sequence
            })
            &&& summary.last_segment_number == numbers.last()
            &&& summary.segments == done.segments + recovered_segments(dir, numbers, written)
        }),
    decreases numbers.len(),
{
    let all = written.flatten();
    let number = numbers[0];
    let first = written[0];
    let later = numbers.skip(1);
    let others = written.skip(1);
    let rest = others.flatten();
    let path = segment_names::segment_path(dir, number as nat);
    assert(all =~= first + rest) by {
        assert(written.drop_first() =~= others);
    }
    records::parts_follow(done.last_sequence, first, rest);
    if first.len() > 0 {
        run_ends_with_the_records(Run::starting(done.last_sequence), first);
    }
    let run = run_through(Run::starting(done.last_sequence), first);
    let next = with_file(done, dir, number, run);
    assert(next.segments == done.segments.push(recovered_segment(dir, number, first)));
    if later.len() == 0 {
        assert(rest =~= Seq::empty());
        torn_segment_is_recovered(number, path, first, torn, cut, true, done.last_sequence);
        let whole = records::segment_bytes(number, first);
        let part = torn_record(number, whole.len() as int, torn, cut);
        let bare = records_end(number, FILE_HEADER_SIZE as int, first);
        records_end_behind(number, FILE_HEADER_SIZE as int, first);
        if let FileRecovery::Recovered { good_end, .. } = recovered_file(
            number,
            path,
            whole + part,
            true,
            done.last_sequence,
        ) {
            cut_at_the_whole_end_restores(whole, bare, part, good_end);
        }
        assert(done.segments + recovered_segments(dir, numbers, written) =~= next.segments);
    } else {
        assert(numbers.drop_last()[0] == number);
        assert(written.drop_last()[0] == first);
        written_segment_is_recovered(number, path, first, false, done.last_sequence);
        assert(directory_is_torn(state, dir, later, others, torn, cut)) by {
            let fronts = later.drop_last();
            let parts = others.drop_last();
            assert(later.last() == numbers.last());
            assert(others.last() == written.last());
            assert forall|i: int| 0 <= i < fronts.len() implies {
                &&& (#[trigger] fronts[i]) <= u32::MAX
                &&& segment_contents(state, dir, fronts[i]) == records::segment_bytes(fronts[i], parts[i])
            } by {
                assert(fronts[i] == numbers.drop_last()[i + 1]);
                assert(parts[i] == written.drop_last()[i + 1]);
            }
            assert forall|i: int, j: int| 0 <= i < j < fronts.len() implies fronts[i] < fronts[j] by {
                assert(fronts[i] == numbers.drop_last()[i + 1]);
                assert(fronts[j] == numbers.drop_last()[j + 1]);
            }
            assert forall|i: int| 0 <= i < later.len() - 1 implies (#[trigger] later[i]) < later.last() by {
                assert(later[i] == numbers[i + 1]);
            }
        }
        if later.len() > 1 {
            assert(later[0] == numbers.drop_last()[1]);
        }
        torn_directory_is_recovered(state, dir, later, others, torn, cut, next);
        assert(done.segments + recovered_segments(dir, numbers, written) =~= next.segments + recovered_segments(
            dir,
            later,
            others,
        ));
    }
    if rest.len() > 0 {
        assert(all.last() == rest.last());
    } else if first.len() > 0 {
        assert(all.last() == first.last());
    }
}

/// A directory is recovered whole: every segment with the sequences of the
/// records that were written to it, in order, and nothing is cut off.
pub proof fn written_directory_is_recovered(
    state: FsState,
    dir: Seq<char>,
    numbers: Seq<u64>,
    written: Seq<Seq<(u64, Seq<u8>)>>,
    done: SummaryView,
)
    requires
        directory_holds(state, dir, numbers, written),
        numbers.len() > 0 ==> done.last_segment_number <= numbers[0],
        records::follows(done.last_sequence, written.flatten()),
    ensures
        ({
            let all = written.flatten();
            &&& recovered_directory(state, dir, numbers, done) matches DirectoryRecovery::Recovered {
                summary,
                repair,
            }
            &&& repair is Keep
            &&& summary.last_sequence == (if all.len() > 0 {
                Some(all.last().0)
            } else {
                done.last_sequence
            })
            &&& summary.last_segment_number == (if numbers.len() > 0 {
                numbers.last()
            } else {
                done.last_segment_number
            })
            &&& summary.segments == done.segments + recovered_segments(dir, numbers, written)
        }),
{
    if numbers.len() == 0 {
        assert(written.flatten() =~= Seq::empty());
        assert(done.segments + recovered_segments(dir, numbers, written) =~= done.segments);
    } else {
        let none = (0u64, Seq::<u8>::empty());
        let last = numbers.len() - 1;
        let whole = records::segment_bytes(numbers[last], written[last]);
        records_take_room(numbers.last(), whole.len() as int, none);
        assert(whole + torn_record(numbers.last(), whole.len() as int, none, 0) =~= whole);
        assert(directory_holds(state, dir, numbers.drop_last(), written.drop_last()));
        torn_directory_is_recovered(state, dir, numbers, written, none, 0, done);
    }
}

/// A log whose sequences do not follow one another, within a file or from one
/// to the next, is reported as corrupt.
pub proof fn gap_in_a_directory_is_reported(
    state: FsState,
    dir: Seq<char>,
    numbers: Seq<u64>,
    written: Seq<Seq<(u64, Seq<u8>)>>,
    done: SummaryView,
)
    requires
        directory_holds(state, dir, numbers, written),
        !records::follows(done.last_sequence, written.flatten()),
    ensures
        recovered_directory(state, dir, numbers, done) matches DirectoryRecovery::Failed(error)
            && error is Corruption,
    decreases numbers.len(),
{
    if numbers.len() == 0 {
        assert(written.flatten() =~= Seq::empty());
    } else {
        let number = numbers[0];
        let first = written[0];
        let later = numbers.skip(1);
        let others = written.skip(1);
        let rest = others.flatten();
        let last = numbers.len() == 1;
        let path = segment_names::segment_path(dir, number as nat);
        assert(written.flatten() =~= first + rest) by {
            assert(written.drop_first() =~= others);
        }
        if records::follows(done.last_sequence, first) {
            written_segment_is_recovered(number, path, first, last, done.last_sequence);
            let run = run_through(Run::starting(done.last_sequence), first);
            if first.len() > 0 {
                run_ends_with_the_records(Run::starting(done.last_sequence), first);
            }
            let previous = if first.len() > 0 {
                Some(first.last().0)
            } else {
                done.last_sequence
            };
            if records::follows(previous, rest) {
                records::followers_follow(done.last_sequence, first, rest);
            }
            if last {
                assert(rest =~= Seq::empty());
            } else {
                assert forall|i: int| 0 <= i < later.len() implies {
                    &&& (#[trigger] later[i]) <= u32::MAX
                    &&& segment_contents(state, dir, later[i]) == records::segment_bytes(later[i], others[i])
                } by {
                    assert(later[i] == numbers[i + 1]);
                }
                gap_in_a_directory_is_reported(state, dir, later, others, with_file(done, dir, number, run));
            }
        } else {
            gap_in_a_segment_is_reported(number, path, first, last, done.last_sequence);
        }
    }
}

} // verus!
