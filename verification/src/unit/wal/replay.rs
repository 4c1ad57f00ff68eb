//! Reading the records of a recovered log.

use vstd::prelude::*;
use crate::segment::envelope;
use crate::segment::envelope::{ALIGNMENT, FILE_HEADER_SIZE};
use crate::segment::scanner;
use crate::segment::scanner::{ScanOutcome, ScanState};
use crate::unit::wal::error::{WalError, WalErrorView};
use crate::unit::wal::records;
use crate::unit::wal::records::WalSegmentScanner;
use crate::unit::wal::recovery;
use crate::unit::wal::retention;
use crate::unit::wal::retention::{RecoveryLease, RecoverySegment, RecoveryView, Retention};
use crate::vfs::{FsState, Vfs};

verus! {

/// A segment file that is being read.
pub struct Reading {
    pub segment_number: u32,
    pub path: Seq<char>,
    pub contents: Seq<u8>,
    pub len: int,
    pub state: ScanState,
    pub tolerate_tail: bool,
}

/// What a segment file comes to next.
pub enum Found {
    /// A record of the range.
    Item { sequence: u64, payload: Seq<u8>, reading: Reading },
    /// A record past the range.
    Past,
    /// No more records.
    Drained,
    Failed(WalErrorView),
}

/// The next record of a segment file from `from` on.
pub open spec fn next_in_file(reading: Reading, from: u64, through: u64) -> Found
    decreases reading.len - reading.state.position,
{
    match scanner::next_outcome(reading.segment_number, reading.contents, reading.len, reading.state) {
        ScanOutcome::Record { payload, state, .. } => {
            let after = Reading { state, ..reading };
            match crate::wal::recovery::record_sequence(payload) {
                None => Found::Failed(records::short_record(reading.path)),
                Some(sequence) => if sequence > through && sequence >= from {
                    Found::Past
                } else if sequence >= from {
                    Found::Item { sequence, payload: payload.skip(8), reading: after }
                } else if reading.state.position < state.position <= reading.len {
                    next_in_file(after, from, through)
                } else {
                    Found::Drained
                },
            }
        },
        ScanOutcome::End { .. } => Found::Drained,
        ScanOutcome::Tail { fault, .. } => if reading.tolerate_tail {
            Found::Drained
        } else {
            Found::Failed(WalErrorView::Corruption { path: reading.path, message: fault.words() })
        },
        ScanOutcome::Hard { fault, .. } => Found::Failed(
            WalErrorView::Corruption { path: reading.path, message: fault.words() },
        ),
        ScanOutcome::Starved => Found::Drained,
    }
}

/// What a recovery comes to next.
pub enum Upcoming {
    Item { sequence: u64, payload: Seq<u8>, reading: Reading, files: Seq<RecoveryView> },
    End,
    Failed(WalErrorView),
    /// A file is not there.
    Missing,
}

/// A segment file before its first record is read.
pub open spec fn opened(state: FsState, file: RecoveryView) -> Reading {
    let contents = state.data[state.names[file.path]];
    Reading {
        segment_number: scanner::stored_number(contents) as u32,
        path: file.path,
        contents,
        len: contents.len() as int,
        state: scanner::fresh_state(FILE_HEADER_SIZE as int),
        tolerate_tail: file.tolerate_tail,
    }
}

/// The next record of the range, from the file that is being read and those
/// that follow it.
pub open spec fn upcoming(
    state: FsState,
    reading: Option<Reading>,
    files: Seq<RecoveryView>,
    from: u64,
    through: u64,
) -> Upcoming
    decreases
        files.len(),
        (if reading is Some {
            1int
        } else {
            0
        }),
{
    match reading {
        Some(current) => match next_in_file(current, from, through) {
            Found::Item { sequence, payload, reading: after } => Upcoming::Item {
                sequence,
                payload,
                reading: after,
                files,
            },
            Found::Past => Upcoming::End,
            Found::Failed(error) => Upcoming::Failed(error),
            Found::Drained => upcoming(state, None, files, from, through),
        },
        None => if files.len() == 0 {
            Upcoming::End
        } else if !state.names.contains_key(files[0].path) {
            Upcoming::Missing
        } else {
            let contents = state.data[state.names[files[0].path]];
            match scanner::opening_fault(contents) {
                Some(message) => Upcoming::Failed(WalErrorView::Corruption { path: files[0].path, message }),
                None => upcoming(state, Some(opened(state, files[0])), files.skip(1), from, through),
            }
        },
    }
}

/// Reads the records of the log in a range of sequences, and holds on to the
/// segments that are still to be read.
pub struct WalRecovery {
    files: Vec<RecoverySegment>,
    file_index: usize,
    scanner: Option<(u64, WalSegmentScanner)>,
    lease: RecoveryLease,
    from_sequence: u64,
    through_sequence: Option<u64>,
    finished: bool,
}

impl WalRecovery {
    /// The files that are still to be opened.
    pub closed spec fn files(&self) -> Seq<RecoveryView> {
        retention::recovery_views(self.files@).skip(self.file_index as int)
    }

    /// The file that is being read.
    pub closed spec fn reading<V: Vfs>(&self, vfs: &V) -> Option<Reading> {
        match self.scanner {
            None => None,
            Some((_, current)) => Some(
                Reading {
                    segment_number: current.scanner.number() as u32,
                    path: current.scanner.source().path@,
                    contents: vfs.state().contents(&current.scanner.source()),
                    len: current.scanner.len(),
                    state: current.scanner.state(),
                    tolerate_tail: current.scanner.tolerates(),
                },
            ),
        }
    }

    /// The segments that are held.
    pub closed spec fn held(&self) -> Seq<u64> {
        self.lease.numbers()
    }

    /// The segments that are still to be read.
    pub closed spec fn unread(&self) -> Seq<u64> {
        let rest = retention::numbers_of(self.files());
        match self.scanner {
            None => rest,
            Some((number, _)) => seq![number] + rest,
        }
    }

    pub closed spec fn range(&self) -> (u64, Option<u64>) {
        (self.from_sequence, self.through_sequence)
    }

    pub closed spec fn is_finished(&self) -> bool {
        self.finished
    }

    /// The segments that are still to be read are held, and no others.
    pub closed spec fn valid<V: Vfs>(&self, vfs: &V) -> bool {
        &&& self.file_index <= self.files@.len()
        &&& self.finished || self.through_sequence is Some
        &&& self.finished ==> self.held().len() == 0
        &&& !self.finished ==> self.held().to_multiset() == self.unread().to_multiset()
        &&& !self.finished ==> match self.scanner {
            None => true,
            Some((_, current)) => {
                &&& current.scanner.valid(vfs)
                &&& !current.scanner.is_finished()
                &&& FILE_HEADER_SIZE <= current.scanner.state().position
                &&& current.scanner.len() <= vfs.state().contents(&current.scanner.source()).len()
            },
        }
    }

    /// Starts to read the records from `from_sequence` through
    /// `through_sequence`.
    pub fn new<V: Vfs>(
        vfs: &V,
        retention: &mut Retention,
        from_sequence: u64,
        through_sequence: Option<u64>,
    ) -> (result: Result<WalRecovery, WalError>)
        requires
            old(retention).valid(),
            old(retention).leasable(),
        ensures
            final(retention).valid(),
            final(retention).keeps(old(retention)),
            ({
                let before = old(retention).segments();
                if retention::earliest(before) matches Some(first) && from_sequence < first {
                    &&& result matches Err(error)
                    &&& error@ == (WalErrorView::SequenceExpired {
                        requested: from_sequence,
                        earliest: retention::earliest(before)->0,
                    })
                    &&& final(retention).segments() == before
                } else {
                    &&& result matches Ok(recovery)
                    &&& recovery.valid(vfs)
                    &&& recovery.is_finished() == (through_sequence is None)
                    &&& recovery.range() == (from_sequence, through_sequence)
                    &&& recovery.reading(vfs) is None
                    &&& recovery.held() == retention::numbers_of(recovery.files())
                    &&& if through_sequence matches Some(through) && from_sequence <= through {
                        &&& recovery.files() == retention::selected(
                            before,
                            from_sequence,
                            through_sequence->0,
                            retention::tail_number(before),
                        )
                        &&& final(retention).segments() == retention::leased(
                            before,
                            from_sequence,
                            through_sequence->0,
                        )
                    } else {
                        &&& recovery.files().len() == 0
                        &&& final(retention).segments() == before
                    }
                }
            }),
    {
        match retention.lease_recovery(from_sequence, through_sequence) {
            Ok((files, lease)) => {
                let finished: bool = through_sequence.is_none();
                let recovery = WalRecovery {
                    files,
                    file_index: 0,
                    scanner: None,
                    lease,
                    from_sequence,
                    through_sequence,
                    finished,
                };
                assert(recovery.files() =~= retention::recovery_views(files@));
                Ok(recovery)
            },
            Err(error) => Err(error),
        }
    }

    /// Gives everything that is held back.
    fn finish(&mut self, retention: &mut Retention) -> (wanted: bool)
        requires
            old(retention).valid(),
        ensures
            final(retention).valid(),
            final(retention).keeps(old(retention)),
            final(self).finished,
            final(self).held().len() == 0,
            final(self).files == old(self).files,
            final(self).file_index == old(self).file_index,
            final(self).scanner == old(self).scanner,
            final(self).from_sequence == old(self).from_sequence,
            final(self).through_sequence == old(self).through_sequence,
            final(retention).segments() == retention::released_all(old(retention).segments(), old(self).held()),
            wanted == (retention::frees_any(old(retention).segments(), old(self).held()) && old(
                retention,
            ).trimmed_through() is Some),
    {
        self.finished = true;
        self.lease.release_all(retention)
    }

    /// The next record of the range, and whether a trim should be tried.
    pub fn next<V: Vfs>(&mut self, vfs: &mut V, retention: &mut Retention) -> (result: (
        Option<Result<(u64, Vec<u8>), WalError>>,
        bool,
    ))
        requires
            old(self).valid(old(vfs)),
            old(retention).valid(),
        ensures
            final(self).valid(final(vfs)),
            final(retention).valid(),
            final(retention).keeps(old(retention)),
            final(vfs).dependable() == old(vfs).dependable(),
            final(vfs).journal() == old(vfs).journal(),
            final(vfs).state() == old(vfs).state(),
            final(self).range() == old(self).range(),
            final(self).is_finished() ==> final(self).held().len() == 0,
            !final(self).is_finished() ==> final(self).held().to_multiset() == final(self).unread().to_multiset(),
            gave_back(old(retention), final(retention), old(self).held(), final(self).held(), result.1),
            ({
                let wanted = upcoming(
                    old(vfs).state(),
                    old(self).reading(old(vfs)),
                    old(self).files(),
                    old(self).range().0,
                    old(self).range().1->0,
                );
                match result.0 {
                    None => {
                        &&& final(self).is_finished()
                        &&& old(self).is_finished() || wanted is End
                    },
                    Some(Ok((sequence, payload))) => {
                        &&& !old(self).is_finished()
                        &&& !final(self).is_finished()
                        &&& wanted matches Upcoming::Item { sequence: next, payload: bytes, reading, files }
                        &&& sequence == next
                        &&& payload@ == bytes
                        &&& final(self).reading(final(vfs)) == Some(reading)
                        &&& final(self).files() == files
                    },
                    Some(Err(error)) => {
                        &&& !old(self).is_finished()
                        &&& final(self).is_finished()
                        &&& {
                            ||| wanted == Upcoming::Failed(error@)
                            ||| error is Io && (wanted is Missing || !old(vfs).dependable())
                        }
                    },
                }
            }),
    {
        let ghost before = retention.segments();
        let ghost held = self.held();
        let ghost trimmed = retention.trimmed_through() is Some;
        if self.finished {
            proof {
                nothing_given_back(retention, held);
            }
            return (None, false);
        }
        let from: u64 = self.from_sequence;
        let through: u64 = match self.through_sequence {
            Some(through) => through,
            None => {
                return (None, false);
            },
        };
        let mut wanted: bool = false;
        let ghost goal = upcoming(vfs.state(), self.reading(&*vfs), self.files(), from, through);
        let ghost mut given = Seq::<u64>::empty();
        proof {
            nothing_given_back(retention, held);
        }
        loop
            invariant
                self.valid(&*vfs),
                !self.finished,
                !old(self).finished,
                self.from_sequence == from,
                self.through_sequence == Some(through),
                old(self).from_sequence == from,
                old(self).through_sequence == Some(through),
                vfs.dependable() == old(vfs).dependable(),
                vfs.journal() == old(vfs).journal(),
                vfs.state() == old(vfs).state(),
                retention.valid(),
                retention.keeps(old(retention)),
                before == old(retention).segments(),
                held == old(self).held(),
                trimmed == (old(retention).trimmed_through() is Some),
                retention.segments() == retention::released_all(before, given),
                given.to_multiset().add(self.held().to_multiset()) == held.to_multiset(),
                wanted == (retention::frees_any(before, given) && trimmed),
                goal == upcoming(old(vfs).state(), old(self).reading(old(vfs)), old(self).files(), from, through),
                goal == upcoming(vfs.state(), self.reading(&*vfs), self.files(), from, through),
            decreases
                self.files@.len() - self.file_index,
                (if self.scanner is Some {
                    1int
                } else {
                    0
                }),
                (match self.scanner {
                    Some((_, current)) => current.scanner.len() - current.scanner.state().position,
                    None => 0,
                }),
        {
            let ghost here = *self;
            let current: Option<(u64, WalSegmentScanner)> = self.scanner.take();
            match current {
                Some((number, mut reader)) => {
                    let ghost reading = here.reading(&*vfs)->0;
                    let ghost position = reader.scanner.state().position;
                    proof {
                        scanner::held_file_is_scanned(
                            reading.segment_number,
                            reading.contents,
                            reading.len,
                            reading.state,
                        );
                        scanner::scan_moves_on(reading.segment_number, reading.contents, reading.len, reading.state);
                    }
                    match reader.next(&*vfs) {
                        Some(Ok((sequence, payload))) => {
                            self.scanner = Some((number, reader));
                            assert(self.unread() == here.unread());
                            if sequence < from {
                                continue;
                            }
                            if sequence > through {
                                let ghost rest = self.held();
                                if self.finish(retention) {
                                    wanted = true;
                                }
                                proof {
                                    all_given_back(before, given, rest, held);
                                    assert(is_given(old(retention), retention, held, self.held(), wanted, given + rest));
                                }
                                return (None, wanted);
                            }
                            proof {
                                assert(is_given(old(retention), retention, held, self.held(), wanted, given));
                            }
                            return (Some(Ok((sequence, payload))), wanted);
                        },
                        Some(Err(error)) => {
                            let ghost rest = self.held();
                            if self.finish(retention) {
                                wanted = true;
                            }
                            proof {
                                all_given_back(before, given, rest, held);
                                assert(is_given(old(retention), retention, held, self.held(), wanted, given + rest));
                            }
                            return (Some(Err(error)), wanted);
                        },
                        None => {
                            let ghost rest = self.held();
                            let ghost left = retention.segments();
                            proof {
                                assert(here.unread() =~= seq![number] + self.unread());
                                first_is_held(rest, number, self.unread());
                            }
                            if self.lease.release_segment(retention, number) {
                                wanted = true;
                            }
                            proof {
                                one_given_back(before, given, number, rest, self.held(), held);
                                given = given.push(number);
                            }
                        },
                    }
                },
                None => {
                    if self.file_index >= self.files.len() {
                        let ghost rest = self.held();
                        if self.finish(retention) {
                            wanted = true;
                        }
                        proof {
                            all_given_back(before, given, rest, held);
                            assert(is_given(old(retention), retention, held, self.held(), wanted, given + rest));
                        }
                        return (None, wanted);
                    }
                    let ghost file = self.files()[0];
                    let segment: &RecoverySegment = &self.files[self.file_index];
                    let number: u64 = segment.number;
                    assert(segment@ == file);
                    match WalSegmentScanner::open(vfs, segment.path.as_str(), segment.tolerate_tail) {
                        Ok(reader) => {
                            self.file_index = self.file_index + 1;
                            self.scanner = Some((number, reader));
                            proof {
                                assert(self.files() =~= here.files().skip(1));
                                assert(self.unread() =~= here.unread());
                                assert(self.reading(&*vfs) == Some(opened(vfs.state(), file)));
                            }
                        },
                        Err(error) => {
                            let ghost rest = self.held();
                            if self.finish(retention) {
                                wanted = true;
                            }
                            proof {
                                all_given_back(before, given, rest, held);
                                assert(is_given(old(retention), retention, held, self.held(), wanted, given + rest));
                            }
                            return (Some(Err(error)), wanted);
                        },
                    }
                },
            }
        }
    }
}

/// What is no longer held was given back, and nothing else, and `wanted` says
/// whether that left a segment without leases that may be trimmed.
pub open spec fn gave_back(
    before: &Retention,
    after: &Retention,
    held: Seq<u64>,
    still: Seq<u64>,
    wanted: bool,
) -> bool {
    exists|given: Seq<u64>| is_given(before, after, held, still, wanted, given)
}

/// Whether `given` is what was given back.
pub open spec fn is_given(
    before: &Retention,
    after: &Retention,
    held: Seq<u64>,
    still: Seq<u64>,
    wanted: bool,
    given: Seq<u64>,
) -> bool {
    &&& after.segments() == retention::released_all(before.segments(), given)
    &&& given.to_multiset().add(still.to_multiset()) == held.to_multiset()
    &&& wanted == (retention::frees_any(before.segments(), given) && before.trimmed_through() is Some)
}

proof fn nothing_given_back(retention: &Retention, held: Seq<u64>)
    ensures
        is_given(retention, retention, held, held, false, Seq::empty()),
        Seq::<u64>::empty().to_multiset().add(held.to_multiset()) == held.to_multiset(),
{
    broadcast use vstd::seq_lib::group_to_multiset_ensures;

    assert(Seq::<u64>::empty().to_multiset().add(held.to_multiset()) =~= held.to_multiset());
}

proof fn released_in_turn(segments: Seq<retention::SegmentView>, first: Seq<u64>, second: Seq<u64>)
    ensures
        retention::released_all(retention::released_all(segments, first), second) == retention::released_all(
            segments,
            first + second,
        ),
        retention::frees_any(segments, first + second) == (retention::frees_any(segments, first)
            || retention::frees_any(retention::released_all(segments, first), second)),
    decreases second.len(),
{
    if second.len() == 0 {
        assert(first + second =~= first);
    } else {
        released_in_turn(segments, first, second.drop_last());
        assert((first + second).drop_last() =~= first + second.drop_last());
        assert((first + second).last() == second.last());
    }
}

proof fn all_given_back(segments: Seq<retention::SegmentView>, given: Seq<u64>, rest: Seq<u64>, held: Seq<u64>)
    requires
        given.to_multiset().add(rest.to_multiset()) == held.to_multiset(),
    ensures
        retention::released_all(retention::released_all(segments, given), rest) == retention::released_all(
            segments,
            given + rest,
        ),
        retention::frees_any(segments, given + rest) == (retention::frees_any(segments, given) || retention::frees_any(
            retention::released_all(segments, given),
            rest,
        )),
        forall|none: Seq<u64>|
            none.len() == 0 ==> (given + rest).to_multiset().add(#[trigger] none.to_multiset()) == held.to_multiset(),
{
    broadcast use vstd::seq_lib::group_to_multiset_ensures;

    released_in_turn(segments, given, rest);
    vstd::seq_lib::lemma_multiset_commutative(given, rest);
    assert forall|none: Seq<u64>| none.len() == 0 implies (given + rest).to_multiset().add(
        #[trigger] none.to_multiset(),
    ) == held.to_multiset() by {
        assert(none =~= Seq::<u64>::empty());
        assert((given + rest).to_multiset().add(none.to_multiset()) =~= held.to_multiset());
    }
}

proof fn one_given_back(
    segments: Seq<retention::SegmentView>,
    given: Seq<u64>,
    number: u64,
    rest: Seq<u64>,
    still: Seq<u64>,
    held: Seq<u64>,
)
    requires
        given.to_multiset().add(rest.to_multiset()) == held.to_multiset(),
        rest.contains(number),
        still.to_multiset() == rest.to_multiset().remove(number),
    ensures
        retention::released(retention::released_all(segments, given), number) == retention::released_all(
            segments,
            given.push(number),
        ),
        retention::frees_any(segments, given.push(number)) == (retention::frees_any(segments, given)
            || retention::frees(retention::released_all(segments, given), number)),
        given.push(number).to_multiset().add(still.to_multiset()) == held.to_multiset(),
{
    broadcast use vstd::seq_lib::group_to_multiset_ensures;

    assert(given.push(number).drop_last() =~= given);
    assert(rest.to_multiset().contains(number));
    assert(given.push(number).to_multiset().add(still.to_multiset()) =~= held.to_multiset());
}

proof fn first_is_held(held: Seq<u64>, number: u64, rest: Seq<u64>)
    requires
        held.to_multiset() == (seq![number] + rest).to_multiset(),
    ensures
        held.contains(number),
        held.to_multiset().remove(number) == rest.to_multiset(),
{
    broadcast use vstd::seq_lib::group_to_multiset_ensures;

    let whole = seq![number] + rest;
    assert(whole[0] == number);
    assert(whole.contains(number));
    assert(held.to_multiset().contains(number));
    vstd::seq_lib::lemma_multiset_commutative(seq![number], rest);
    assert(seq![number] =~= Seq::<u64>::empty().push(number));
    assert(held.to_multiset().remove(number) =~= rest.to_multiset());
}

/// What a number of calls of `next` give: the records, and whether the end was
/// reached.
pub open spec fn replayed(
    state: FsState,
    reading: Option<Reading>,
    files: Seq<RecoveryView>,
    from: u64,
    through: u64,
    calls: nat,
) -> (Seq<(u64, Seq<u8>)>, bool)
    decreases calls,
{
    if calls == 0 {
        (Seq::empty(), false)
    } else {
        match upcoming(state, reading, files, from, through) {
            Upcoming::Item { sequence, payload, reading: after, files: rest } => {
                let (more, ended) = replayed(state, Some(after), rest, from, through, (calls - 1) as nat);
                (seq![(sequence, payload)] + more, ended)
            },
            Upcoming::End => (Seq::empty(), true),
            _ => (Seq::empty(), false),
        }
    }
}

/// Whether the files hold the records that were written to each of them.
pub open spec fn holds(
    state: FsState,
    files: Seq<RecoveryView>,
    numbers: Seq<u64>,
    written: Seq<Seq<(u64, Seq<u8>)>>,
) -> bool {
    &&& files.len() == numbers.len() == written.len()
    &&& forall|i: int|
        #![trigger files[i]]
        0 <= i < files.len() ==> {
            &&& state.names.contains_key(files[i].path)
            &&& state.data[state.names[files[i].path]] == records::segment_bytes(numbers[i], written[i])
            &&& numbers[i] <= u32::MAX
        }
}

/// Two states that come to the same outcome find the same record of the range.
proof fn found_alike(reading: Reading, other: ScanState, from: u64, through: u64)
    requires
        FILE_HEADER_SIZE <= reading.state.position,
        FILE_HEADER_SIZE <= other.position,
        scanner::next_outcome(reading.segment_number, reading.contents, reading.len, reading.state)
            == scanner::next_outcome(reading.segment_number, reading.contents, reading.len, other),
    ensures
        next_in_file(reading, from, through) == next_in_file(Reading { state: other, ..reading }, from, through),
{
    scanner::scan_moves_on(reading.segment_number, reading.contents, reading.len, reading.state);
    scanner::scan_moves_on(reading.segment_number, reading.contents, reading.len, other);
}

/// What is left of the file that is being read is replayed, and then the files
/// that follow it.
proof fn rest_is_replayed(
    state: FsState,
    reading: Reading,
    number: u64,
    before: Seq<u8>,
    rest: Seq<(u64, Seq<u8>)>,
    files: Seq<RecoveryView>,
    numbers: Seq<u64>,
    written: Seq<Seq<(u64, Seq<u8>)>>,
    last: Option<u64>,
    from: u64,
    through: u64,
    calls: nat,
)
    requires
        number <= u32::MAX,
        reading.segment_number == number,
        reading.contents == before + records::batch_bytes(number, before.len() as int, rest),
        reading.len == reading.contents.len(),
        FILE_HEADER_SIZE <= before.len(),
        before.len() as int % ALIGNMENT as int == 0,
        scanner::stands_at(reading.state, before.len() as int),
        holds(state, files, numbers, written),
        records::follows(last, rest + written.flatten()),
    ensures
        replayed(state, Some(reading), files, from, through, calls) == records::handed_out(
            records::within(rest + written.flatten(), from, through),
            calls,
        ),
    decreases files.len(), rest.len() + 1,
{
    let all = rest + written.flatten();
    if calls == 0 {
        assert(records::within(all, from, through).take(0) =~= Seq::empty());
    } else if rest.len() == 0 {
        assert(all =~= written.flatten());
        files_are_replayed(state, files, numbers, written, last, from, through, calls);
        assert(upcoming(state, Some(reading), files, from, through) == upcoming(state, None, files, from, through));
    } else {
        let record = records::first_record(number, before.len() as int, rest);
        let later = rest.skip(1);
        let behind = records::batch_bytes(number, (before + record).len() as int, later);
        assert(reading.contents + Seq::<u8>::empty() =~= reading.contents);
        assert(before + record + behind + Seq::<u8>::empty() =~= before + record + behind);
        let (after, further) = records::next_of_batch(number, before, rest, Seq::empty(), reading.state);
        let found = Reading { state: after, ..reading };
        let next = Reading { state: further, ..reading };
        records::log_record_round_trip(rest[0].0, rest[0].1);
        assert(all.skip(1) =~= later + written.flatten());
        found_alike(found, further, from, through);
        assert(upcoming(state, Some(found), files, from, through) == upcoming(
            state,
            Some(next),
            files,
            from,
            through,
        ));
        let inside = from <= rest[0].0 <= through;
        let left = if inside {
            (calls - 1) as nat
        } else {
            calls
        };
        rest_is_replayed(
            state,
            next,
            number,
            before + record,
            later,
            files,
            numbers,
            written,
            Some(rest[0].0),
            from,
            through,
            left,
        );
        assert(replayed(state, Some(found), files, from, through, left) == replayed(
            state,
            Some(next),
            files,
            from,
            through,
            left,
        ));
        let tail = records::within(all.skip(1), from, through);
        if inside {
            assert(records::within(all, from, through) == seq![rest[0]] + tail);
            assert(seq![rest[0]] + records::handed_out(tail, left).0 =~= records::handed_out(records::within(all, from, through), calls).0);
        } else if rest[0].0 > through && rest[0].0 >= from {
            records::past_stays_past(rest[0].0, all.skip(1), from, through);
        }
    }
}

proof fn files_are_replayed(
    state: FsState,
    files: Seq<RecoveryView>,
    numbers: Seq<u64>,
    written: Seq<Seq<(u64, Seq<u8>)>>,
    last: Option<u64>,
    from: u64,
    through: u64,
    calls: nat,
)
    requires
        holds(state, files, numbers, written),
        records::follows(last, written.flatten()),
    ensures
        replayed(state, None, files, from, through, calls) == records::handed_out(
            records::within(written.flatten(), from, through),
            calls,
        ),
    decreases files.len(), 0nat,
{
    let all = written.flatten();
    if calls == 0 {
        assert(records::within(all, from, through).take(0) =~= Seq::empty());
    } else if files.len() > 0 {
        let reading = opened(state, files[0]);
        let header = envelope::file_header(numbers[0], ALIGNMENT as u32);
        assert(all =~= written[0] + written.skip(1).flatten()) by {
            assert(written.drop_first() =~= written.skip(1));
        }
        envelope::header_round_trip(numbers[0], ALIGNMENT, Seq::empty(), true);
        records::written_records_are_read(numbers[0], files[0].path, written[0], true);
        assert(holds(state, files.skip(1), numbers.skip(1), written.skip(1))) by {
            let later = files.skip(1);
            assert forall|i: int|
                #![trigger later[i]]
                0 <= i < later.len() implies {
                &&& state.names.contains_key(later[i].path)
                &&& state.data[state.names[later[i].path]] == records::segment_bytes(
                    numbers.skip(1)[i],
                    written.skip(1)[i],
                )
                &&& numbers.skip(1)[i] <= u32::MAX
            } by {
                assert(later[i] == files[i + 1]);
            }
        }
        rest_is_replayed(
            state,
            reading,
            numbers[0],
            header,
            written[0],
            files.skip(1),
            numbers.skip(1),
            written.skip(1),
            last,
            from,
            through,
            calls,
        );
        assert(upcoming(state, None, files, from, through) == upcoming(
            state,
            Some(reading),
            files.skip(1),
            from,
            through,
        ));
    }
}

/// A recovery gives the records of its range that were written to its files,
/// in order and with their payloads, and then ends.
pub proof fn written_records_are_replayed(
    state: FsState,
    files: Seq<RecoveryView>,
    numbers: Seq<u64>,
    written: Seq<Seq<(u64, Seq<u8>)>>,
    from: u64,
    through: u64,
    calls: nat,
)
    requires
        holds(state, files, numbers, written),
        records::follows(None, written.flatten()),
    ensures
        replayed(state, None, files, from, through, calls) == records::handed_out(
            records::within(written.flatten(), from, through),
            calls,
        ),
{
    files_are_replayed(state, files, numbers, written, None, from, through, calls);
}

/// A file that ends with part of a record has no more records for a recovery
/// that tolerates a torn end. One that does not reports the file.
pub proof fn torn_end_is_tolerated_where_asked(
    reading: Reading,
    before: Seq<u8>,
    torn: (u64, Seq<u8>),
    cut: int,
    from: u64,
    through: u64,
)
    requires
        FILE_HEADER_SIZE <= before.len(),
        before.len() as int % ALIGNMENT as int == 0,
        scanner::stands_at(reading.state, before.len() as int),
        recovery::is_cut(reading.segment_number as u64, before.len() as int, torn, cut),
        reading.contents == before + recovery::torn_record(
            reading.segment_number as u64,
            before.len() as int,
            torn,
            cut,
        ),
        reading.len == reading.contents.len(),
    ensures
        if reading.tolerate_tail || !recovery::is_torn(reading.contents.skip(before.len() as int)) {
            next_in_file(reading, from, through) is Drained
        } else {
            next_in_file(reading, from, through) matches Found::Failed(WalErrorView::Corruption { path, .. }) && path
                == reading.path
        },
{
    assert(reading.contents.skip(before.len() as int) =~= recovery::torn_record(
        reading.segment_number as u64,
        before.len() as int,
        torn,
        cut,
    ));
    recovery::part_of_a_record_ends_a_scan(reading.segment_number as u64, before, torn, cut, reading.state);
}

/// A recovery without a range has nothing to read, and one whose segments are
/// all past ends.
pub proof fn nothing_follows_the_last_file(state: FsState, from: u64, through: u64, calls: nat)
    ensures
        replayed(state, None, Seq::empty(), from, through, calls) == (Seq::<(u64, Seq<u8>)>::empty(), calls > 0),
{
}

/// Every lease is given back once or still held: of each number as many leases
/// are given back and held as were held before. A trim is wanted where that left
/// a segment without leases and something is to be trimmed.
pub proof fn leases_are_given_back_once(
    before: &Retention,
    after: &Retention,
    held: Seq<u64>,
    still: Seq<u64>,
    wanted: bool,
    given: Seq<u64>,
    number: u64,
)
    requires
        is_given(before, after, held, still, wanted, given),
    ensures
        given.to_multiset().count(number) + still.to_multiset().count(number) == held.to_multiset().count(number),
        given.len() == 0 ==> after.segments() == before.segments() && !wanted,
        wanted ==> before.trimmed_through() is Some && given.len() > 0,
        after.segments() == retention::released_all(before.segments(), given),
{
    assert(given.to_multiset().add(still.to_multiset()).count(number) == held.to_multiset().count(number));
}

} // verus!
