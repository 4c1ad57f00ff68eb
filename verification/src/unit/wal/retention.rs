//! Which segments of the log are still needed.

use vstd::prelude::*;
use crate::text;
use crate::unit::wal::error::{WalError, WalErrorView};
use crate::vfs;
use crate::vfs::path;
use crate::vfs::{IoErrorKind, Vfs};

verus! {

/// What is known of a segment file: its number, its path, and the sequences
/// of its first and last record.
#[derive(Debug)]
pub struct SegmentMetadata {
    pub number: u64,
    pub path: String,
    pub first_sequence: Option<u64>,
    pub last_sequence: Option<u64>,
}

/// A segment file and who uses it.
#[derive(Debug)]
pub struct SegmentState {
    pub metadata: SegmentMetadata,
    /// Records are being appended to it.
    pub active: bool,
    /// How many recoveries read it.
    pub recovery_leases: usize,
}

/// A segment file as a mathematical value.
#[verifier::ext_equal]
pub struct SegmentView {
    pub number: u64,
    pub path: Seq<char>,
    pub first: Option<u64>,
    pub last: Option<u64>,
    pub active: bool,
    pub leases: nat,
}

impl View for SegmentMetadata {
    type V = SegmentView;

    /// A segment that nobody uses.
    open spec fn view(&self) -> SegmentView {
        SegmentView {
            number: self.number,
            path: self.path@,
            first: self.first_sequence,
            last: self.last_sequence,
            active: false,
            leases: 0,
        }
    }
}

impl View for SegmentState {
    type V = SegmentView;

    open spec fn view(&self) -> SegmentView {
        SegmentView { active: self.active, leases: self.recovery_leases as nat, ..self.metadata@ }
    }
}

/// Segments as mathematical values.
pub open spec fn views(segments: Seq<SegmentState>) -> Seq<SegmentView> {
    segments.map_values(|segment: SegmentState| segment@)
}

/// The segments stand in ascending order of their numbers.
pub open spec fn ascending(segments: Seq<SegmentView>) -> bool {
    forall|i: int, j: int| 0 <= i < j < segments.len() ==> segments[i].number < segments[j].number
}

/// How many segments, from the first on, have numbers below `number`.
pub open spec fn rank(segments: Seq<SegmentView>, number: u64) -> nat
    decreases segments.len(),
{
    if segments.len() == 0 {
        0
    } else if segments.last().number < number {
        segments.len()
    } else {
        rank(segments.drop_last(), number)
    }
}

/// The segments with one more, which takes the place of one with its number.
pub open spec fn with_segment(segments: Seq<SegmentView>, added: SegmentView) -> Seq<SegmentView> {
    let at = rank(segments, added.number) as int;
    if at < segments.len() && segments[at].number == added.number {
        segments.update(at, added)
    } else {
        segments.insert(at, added)
    }
}

/// The segments that a list of metadata stands for.
pub open spec fn collected(metadata: Seq<SegmentMetadata>) -> Seq<SegmentView>
    decreases metadata.len(),
{
    if metadata.len() == 0 {
        Seq::empty()
    } else {
        with_segment(collected(metadata.drop_last()), metadata.last()@)
    }
}

proof fn rank_is_place(segments: Seq<SegmentView>, number: u64)
    requires
        ascending(segments),
    ensures
        rank(segments, number) <= segments.len(),
        forall|i: int| 0 <= i < rank(segments, number) ==> (#[trigger] segments[i]).number < number,
        forall|i: int| rank(segments, number) <= i < segments.len() ==> (#[trigger] segments[i]).number >= number,
    decreases segments.len(),
{
    if segments.len() > 0 && segments.last().number >= number {
        let rest = segments.drop_last();
        rank_is_place(rest, number);
        assert forall|i: int| 0 <= i < rank(segments, number) implies (#[trigger] segments[i]).number < number by {
            assert(rest[i] == segments[i]);
        }
        assert forall|i: int| rank(segments, number) <= i < segments.len() implies (#[trigger] segments[i]).number
            >= number by {
            if i < rest.len() {
                assert(rest[i] == segments[i]);
            }
        }
    }
}

/// Adding a segment keeps the order.
pub proof fn added_segment_keeps_order(segments: Seq<SegmentView>, added: SegmentView)
    requires
        ascending(segments),
    ensures
        ascending(with_segment(segments, added)),
        with_segment(segments, added).contains(added),
{
    rank_is_place(segments, added.number);
    let at = rank(segments, added.number) as int;
    assert(with_segment(segments, added)[at] == added);
}

/// The segments with none of them active.
pub open spec fn deactivated(segments: Seq<SegmentView>) -> Seq<SegmentView> {
    segments.map_values(|segment: SegmentView| SegmentView { active: false, ..segment })
}

/// A segment to which nothing was appended yet.
pub open spec fn fresh_segment(number: u64, path: Seq<char>) -> SegmentView {
    SegmentView { number, path, first: None, last: None, active: true, leases: 0 }
}

/// A segment after records were appended to it.
pub open spec fn written(segment: SegmentView, first: u64, last: u64) -> SegmentView {
    SegmentView {
        first: if segment.first is Some {
            segment.first
        } else {
            Some(first)
        },
        last: Some(last),
        ..segment
    }
}

/// The segments after records were appended to one of them.
pub open spec fn with_write(segments: Seq<SegmentView>, number: u64, first: u64, last: u64) -> Seq<SegmentView> {
    segments.map_values(
        |segment: SegmentView|
            if segment.number == number {
                written(segment, first, last)
            } else {
                segment
            },
    )
}

/// Whether one of the segments has the number.
pub open spec fn has_number(segments: Seq<SegmentView>, number: u64) -> bool {
    exists|i: int| 0 <= i < segments.len() && (#[trigger] segments[i]).number == number
}

/// The sequence of the first record that is still there.
pub open spec fn earliest(segments: Seq<SegmentView>) -> Option<u64>
    decreases segments.len(),
{
    if segments.len() == 0 {
        None
    } else {
        match (earliest(segments.drop_last()), segments.last().first) {
            (Some(before), Some(first)) => if first < before {
                Some(first)
            } else {
                Some(before)
            },
            (None, first) => first,
            (before, None) => before,
        }
    }
}

/// Whether a segment may hold records from `from` through `through`.
pub open spec fn overlaps(segment: SegmentView, from: u64, through: u64) -> bool {
    segment.first matches Some(first) && (segment.last matches Some(last) && first <= through && last >= from)
}

/// The segments with a lease on each that may hold records of a range.
pub open spec fn leased(segments: Seq<SegmentView>, from: u64, through: u64) -> Seq<SegmentView> {
    segments.map_values(
        |segment: SegmentView|
            if overlaps(segment, from, through) {
                SegmentView { leases: segment.leases + 1, ..segment }
            } else {
                segment
            },
    )
}

/// A segment that a recovery is to read.
#[derive(Debug)]
pub struct RecoverySegment {
    pub number: u64,
    pub path: String,
    /// Its end may have been cut.
    pub tolerate_tail: bool,
}

/// A [`RecoverySegment`] as a mathematical value.
#[verifier::ext_equal]
pub struct RecoveryView {
    pub number: u64,
    pub path: Seq<char>,
    pub tolerate_tail: bool,
}

impl View for RecoverySegment {
    type V = RecoveryView;

    open spec fn view(&self) -> RecoveryView {
        RecoveryView { number: self.number, path: self.path@, tolerate_tail: self.tolerate_tail }
    }
}

/// The segments that may hold records of a range, in ascending order.
pub open spec fn selected(segments: Seq<SegmentView>, from: u64, through: u64, tail: Option<u64>) -> Seq<RecoveryView>
    decreases segments.len(),
{
    if segments.len() == 0 {
        Seq::empty()
    } else {
        let rest = selected(segments.drop_last(), from, through, tail);
        let segment = segments.last();
        if overlaps(segment, from, through) {
            rest.push(
                RecoveryView {
                    number: segment.number,
                    path: segment.path,
                    tolerate_tail: tail == Some(segment.number),
                },
            )
        } else {
            rest
        }
    }
}

/// The number of the newest segment.
pub open spec fn tail_number(segments: Seq<SegmentView>) -> Option<u64> {
    if segments.len() == 0 {
        None
    } else {
        Some(segments.last().number)
    }
}

/// The segments with one lease less on the one with the number.
pub open spec fn released(segments: Seq<SegmentView>, number: u64) -> Seq<SegmentView> {
    segments.map_values(
        |segment: SegmentView|
            if segment.number == number && segment.leases > 0 {
                SegmentView { leases: (segment.leases - 1) as nat, ..segment }
            } else {
                segment
            },
    )
}

/// Whether the release of one lease leaves a segment without leases.
pub open spec fn frees(segments: Seq<SegmentView>, number: u64) -> bool {
    exists|i: int| 0 <= i < segments.len() && (#[trigger] segments[i]).number == number && segments[i].leases == 1
}

/// The segments with one lease less on each of the numbers.
pub open spec fn released_all(segments: Seq<SegmentView>, numbers: Seq<u64>) -> Seq<SegmentView>
    decreases numbers.len(),
{
    if numbers.len() == 0 {
        segments
    } else {
        released(released_all(segments, numbers.drop_last()), numbers.last())
    }
}

/// Whether the release of those leases leaves a segment without leases.
pub open spec fn frees_any(segments: Seq<SegmentView>, numbers: Seq<u64>) -> bool
    decreases numbers.len(),
{
    &&& numbers.len() > 0
    &&& frees_any(segments, numbers.drop_last()) || frees(
        released_all(segments, numbers.drop_last()),
        numbers.last(),
    )
}

/// The first segment that holds the record with a sequence.
pub open spec fn anchor(segments: Seq<SegmentView>, sequence: u64) -> Option<u64>
    decreases segments.len(),
{
    if segments.len() == 0 {
        None
    } else if overlaps(segments[0], sequence, sequence) {
        Some(segments[0].number)
    } else {
        anchor(segments.skip(1), sequence)
    }
}

/// Whether a segment can be removed: nobody uses it, it is not the one with
/// the durable record, and all its records are past.
pub open spec fn is_doomed(segment: SegmentView, anchor: u64, safe: u64) -> bool {
    &&& !segment.active
    &&& segment.leases == 0
    &&& segment.number != anchor
    &&& segment.last matches Some(last)
    &&& last <= safe
}

/// The segments that cannot be removed.
pub open spec fn spared(segments: Seq<SegmentView>, anchor: u64, safe: u64) -> Seq<SegmentView>
    decreases segments.len(),
{
    if segments.len() == 0 {
        Seq::empty()
    } else {
        let rest = spared(segments.drop_last(), anchor, safe);
        if is_doomed(segments.last(), anchor, safe) {
            rest
        } else {
            rest.push(segments.last())
        }
    }
}

/// The names of files without those of segments that can be removed.
pub open spec fn spared_names(
    names: Map<Seq<char>, u64>,
    segments: Seq<SegmentView>,
    anchor: u64,
    safe: u64,
) -> Map<Seq<char>, u64>
    decreases segments.len(),
{
    if segments.len() == 0 {
        names
    } else {
        let rest = spared_names(names, segments.drop_last(), anchor, safe);
        if is_doomed(segments.last(), anchor, safe) {
            vfs::unnamed(rest, segments.last().path)
        } else {
            rest
        }
    }
}

/// Whether `after` is `before` without some segments that can be removed.
pub open spec fn is_trim(before: Seq<SegmentView>, after: Seq<SegmentView>, anchor: u64, safe: u64) -> bool
    decreases before.len(),
{
    if before.len() == 0 {
        after.len() == 0
    } else {
        ||| {
            &&& after.len() > 0
            &&& after.last() == before.last()
            &&& is_trim(before.drop_last(), after.drop_last(), anchor, safe)
        }
        ||| {
            &&& is_doomed(before.last(), anchor, safe)
            &&& is_trim(before.drop_last(), after, anchor, safe)
        }
    }
}

/// The segments of a log, which of them are in use, and up to which sequence
/// the records are no longer needed.
pub struct Retention {
    dir: String,
    segments: Vec<SegmentState>,
    trim_through: Option<u64>,
    directory_dirty: bool,
}

impl Retention {
    /// The directory of the log.
    pub closed spec fn directory(&self) -> Seq<char> {
        self.dir@
    }

    /// The segments, in ascending order of their numbers.
    pub closed spec fn segments(&self) -> Seq<SegmentView> {
        views(self.segments@)
    }

    /// The records through this sequence are no longer needed.
    pub closed spec fn trimmed_through(&self) -> Option<u64> {
        self.trim_through
    }

    /// A file was removed and the directory not made durable since.
    pub closed spec fn is_dirty(&self) -> bool {
        self.directory_dirty
    }

    pub open spec fn valid(&self) -> bool {
        ascending(self.segments())
    }

    /// Only the segments may differ.
    pub open spec fn keeps(&self, before: &Retention) -> bool {
        &&& self.directory() == before.directory()
        &&& self.trimmed_through() == before.trimmed_through()
        &&& self.is_dirty() == before.is_dirty()
    }

    pub fn new(dir: String, segments: Vec<SegmentMetadata>) -> (retention: Retention)
        ensures
            retention.valid(),
            retention.directory() == dir@,
            retention.segments() == collected(segments@),
            retention.trimmed_through() is None,
            !retention.is_dirty(),
    {
        let ghost all = segments@;
        let mut retention = Retention { dir, segments: Vec::new(), trim_through: None, directory_dirty: false };
        let mut remaining: Vec<SegmentMetadata> = reversed(segments);
        assert(views(retention.segments@) =~= Seq::<SegmentView>::empty());
        assert(all.take(0) =~= Seq::<SegmentMetadata>::empty());
        while remaining.len() > 0
            invariant
                remaining@.len() <= all.len(),
                forall|i: int| 0 <= i < remaining@.len() ==> remaining@[i] == all[all.len() - 1 - i],
                retention.valid(),
                retention.dir == dir,
                retention.trim_through is None,
                !retention.directory_dirty,
                retention.segments() == collected(all.take(all.len() - remaining@.len())),
            decreases remaining@.len(),
        {
            let ghost done = all.len() - remaining@.len();
            match remaining.pop() {
                Some(metadata) => {
                    assert(all.take(done + 1).drop_last() =~= all.take(done));
                    retention.put(SegmentState { metadata, active: false, recovery_leases: 0 });
                },
                None => {},
            }
        }
        assert(all.take(all.len() as int) =~= all);
        retention
    }

    /// Adds a segment, in place of one with its number.
    fn put(&mut self, added: SegmentState)
        requires
            old(self).valid(),
        ensures
            final(self).valid(),
            final(self).segments() == with_segment(old(self).segments(), added@),
            final(self).dir == old(self).dir,
            final(self).trim_through == old(self).trim_through,
            final(self).directory_dirty == old(self).directory_dirty,
    {
        let number: u64 = added.metadata.number;
        let ghost before = self.segments();
        let mut at: usize = self.segments.len();
        assert(before.take(at as int) =~= before);
        while at > 0 && self.segments[at - 1].metadata.number >= number
            invariant
                at <= self.segments@.len(),
                before == views(self.segments@),
                rank(before, number) == rank(before.take(at as int), number),
            decreases at,
        {
            assert(before.take(at as int).drop_last() =~= before.take(at - 1));
            at -= 1;
        }
        proof {
            rank_is_place(before, number);
            assert(at > 0 ==> before.take(at as int).last() == before[at - 1]);
            assert(rank(before, number) == at);
            added_segment_keeps_order(before, added@);
        }
        if at < self.segments.len() && self.segments[at].metadata.number == number {
            self.segments[at] = added;
        } else {
            self.segments.insert(at, added);
        }
        assert(views(self.segments@) =~= with_segment(before, added@));
    }

    /// Says that the records through a sequence are no longer needed.
    pub fn observe_trim(&mut self, trim_through: Option<u64>)
        requires
            old(self).valid(),
        ensures
            final(self).valid(),
            final(self).segments() == old(self).segments(),
            final(self).directory() == old(self).directory(),
            final(self).is_dirty() == old(self).is_dirty(),
            final(self).trimmed_through() == match (old(self).trimmed_through(), trim_through) {
                (Some(current), Some(through)) => if current < through {
                    Some(through)
                } else {
                    Some(current)
                },
                (None, through) => through,
                (current, None) => current,
            },
    {
        let through: u64 = match trim_through {
            Some(through) => through,
            None => {
                return;
            },
        };
        let latest: u64 = match self.trim_through {
            Some(current) => if current < through {
                through
            } else {
                current
            },
            None => through,
        };
        self.trim_through = Some(latest);
    }

    /// Whether a trim should be tried after something changed.
    pub fn notify_progress(&self) -> (wanted: bool)
        ensures
            wanted == (self.trimmed_through() is Some),
    {
        self.trim_through.is_some()
    }

    /// Records are now appended to the segment with the number, and to no
    /// other. Returns whether a trim should be tried.
    pub fn register_active(&mut self, number: u64, path: String) -> (wanted: bool)
        requires
            old(self).valid(),
        ensures
            final(self).valid(),
            final(self).keeps(old(self)),
            final(self).segments() == with_segment(deactivated(old(self).segments()), fresh_segment(number, path@)),
            wanted == (old(self).trimmed_through() is Some),
    {
        let ghost before = views(self.segments@);
        let mut at: usize = 0;
        while at < self.segments.len()
            invariant
                at <= self.segments@.len(),
                self.segments@.len() == before.len(),
                self.dir == old(self).dir,
                self.trim_through == old(self).trim_through,
                self.directory_dirty == old(self).directory_dirty,
                forall|i: int| 0 <= i < at ==> (#[trigger] self.segments@[i])@ == (SegmentView { active: false, ..before[i] }),
                forall|i: int| at <= i < self.segments@.len() ==> (#[trigger] self.segments@[i])@ == before[i],
            decreases self.segments@.len() - at,
        {
            self.segments[at].active = false;
            at += 1;
        }
        assert(views(self.segments@) =~= deactivated(before));
        self.put(
            SegmentState {
                metadata: SegmentMetadata { number, path, first_sequence: None, last_sequence: None },
                active: true,
                recovery_leases: 0,
            },
        );
        self.notify_progress()
    }

    /// Records were appended to the segment with the number.
    pub fn record_write(&mut self, number: u64, first_sequence: u64, last_sequence: u64) -> (result: Result<
        (),
        WalError,
    >)
        requires
            old(self).valid(),
        ensures
            final(self).valid(),
            final(self).keeps(old(self)),
            match result {
                Ok(()) => {
                    &&& has_number(old(self).segments(), number)
                    &&& final(self).segments() == with_write(
                        old(self).segments(),
                        number,
                        first_sequence,
                        last_sequence,
                    )
                },
                Err(error) => {
                    &&& !has_number(old(self).segments(), number)
                    &&& final(self).segments() == old(self).segments()
                    &&& error@ == missing_segment(number)
                },
            },
    {
        let ghost before = views(self.segments@);
        let mut at: usize = 0;
        while at < self.segments.len()
            invariant
                at <= self.segments@.len(),
                *self == *old(self),
                before == views(self.segments@),
                ascending(before),
                forall|i: int| 0 <= i < at ==> (#[trigger] before[i]).number != number,
            decreases self.segments@.len() - at,
        {
            assert(self.segments@[at as int]@ == before[at as int]);
            if self.segments[at].metadata.number == number {
                if self.segments[at].metadata.first_sequence.is_none() {
                    self.segments[at].metadata.first_sequence = Some(first_sequence);
                }
                self.segments[at].metadata.last_sequence = Some(last_sequence);
                assert(views(self.segments@) =~= with_write(before, number, first_sequence, last_sequence));
                return Ok(());
            }
            at += 1;
        }
        let mut message: String = String::from_str("active segment ");
        text::push_decimal(&mut message, number);
        message.append(" is missing from retention state");
        Err(WalError::Worker(message))
    }
}

/// What is reported of a segment that is not known.
pub open spec fn missing_segment(number: u64) -> WalErrorView {
    WalErrorView::Worker("active segment "@ + text::decimal(number as nat) + " is missing from retention state"@)
}

/// What is reported of a durable record that no segment holds.
pub open spec fn missing_sequence(sequence: u64) -> WalErrorView {
    WalErrorView::Worker(
        "durable sequence "@ + text::decimal(sequence as nat) + " is missing from retention state"@,
    )
}

/// The segments that a recovery holds on to. Whoever holds one gives it back
/// with [`RecoveryLease::release_all`].
pub struct RecoveryLease {
    segments: Vec<u64>,
}

/// The numbers of segments that a recovery is to read.
pub open spec fn numbers_of(files: Seq<RecoveryView>) -> Seq<u64> {
    files.map_values(|file: RecoveryView| file.number)
}

/// Recovery segments as mathematical values.
pub open spec fn recovery_views(files: Seq<RecoverySegment>) -> Seq<RecoveryView> {
    files.map_values(|file: RecoverySegment| file@)
}

impl Retention {
    /// The number of leases on each segment can be raised.
    pub open spec fn leasable(&self) -> bool {
        forall|i: int| 0 <= i < self.segments().len() ==> (#[trigger] self.segments()[i]).leases < usize::MAX
    }

    fn earliest_sequence(&self) -> (first: Option<u64>)
        ensures
            first == earliest(self.segments()),
    {
        let ghost all = views(self.segments@);
        let mut first: Option<u64> = None;
        let mut at: usize = 0;
        assert(all.take(0) =~= Seq::<SegmentView>::empty());
        while at < self.segments.len()
            invariant
                at <= self.segments@.len(),
                all == views(self.segments@),
                first == earliest(all.take(at as int)),
            decreases self.segments@.len() - at,
        {
            proof {
                assert(all.take(at + 1).drop_last() =~= all.take(at as int));
                assert(all.take(at + 1).last() == self.segments@[at as int]@);
            }
            first = match (first, self.segments[at].metadata.first_sequence) {
                (Some(before), Some(candidate)) => if candidate < before {
                    Some(candidate)
                } else {
                    Some(before)
                },
                (None, candidate) => candidate,
                (before, None) => before,
            };
            at += 1;
        }
        assert(all.take(all.len() as int) =~= all);
        first
    }

    /// Holds on to the segments that may hold the records from `from_sequence`
    /// through `through_sequence`.
    pub fn lease_recovery(&mut self, from_sequence: u64, through_sequence: Option<u64>) -> (result: Result<
        (Vec<RecoverySegment>, RecoveryLease),
        WalError,
    >)
        requires
            old(self).valid(),
            old(self).leasable(),
        ensures
            final(self).valid(),
            final(self).keeps(old(self)),
            ({
                let before = old(self).segments();
                if earliest(before) matches Some(first) && from_sequence < first {
                    &&& result matches Err(error)
                    &&& error@ == (WalErrorView::SequenceExpired {
                        requested: from_sequence,
                        earliest: earliest(before)->0,
                    })
                    &&& final(self).segments() == before
                } else {
                    &&& result matches Ok((files, lease))
                    &&& lease.numbers() == numbers_of(recovery_views(files@))
                    &&& if through_sequence matches Some(through) && from_sequence <= through {
                        &&& recovery_views(files@) == selected(
                            before,
                            from_sequence,
                            through_sequence->0,
                            tail_number(before),
                        )
                        &&& final(self).segments() == leased(before, from_sequence, through_sequence->0)
                    } else {
                        &&& files@.len() == 0
                        &&& final(self).segments() == before
                    }
                }
            }),
    {
        let ghost before = views(self.segments@);
        match self.earliest_sequence() {
            Some(first) => {
                if from_sequence < first {
                    return Err(WalError::SequenceExpired { requested: from_sequence, earliest: first });
                }
            },
            None => {},
        }
        let mut files: Vec<RecoverySegment> = Vec::new();
        let mut numbers: Vec<u64> = Vec::new();
        assert(recovery_views(files@) =~= Seq::<RecoveryView>::empty());
        assert(numbers@ =~= numbers_of(recovery_views(files@)));
        let through: u64 = match through_sequence {
            Some(through) => through,
            None => {
                return Ok((files, RecoveryLease { segments: numbers }));
            },
        };
        if from_sequence > through {
            return Ok((files, RecoveryLease { segments: numbers }));
        }
        let count: usize = self.segments.len();
        let mut at: usize = 0;
        let ghost tail = tail_number(before);
        assert(before.take(0) =~= Seq::<SegmentView>::empty());
        assert(old(self).segments() == before);
        while at < count
            invariant
                at <= count,
                count == self.segments@.len(),
                count == before.len(),
                from_sequence <= through,
                tail == tail_number(before),
                self.dir == old(self).dir,
                self.trim_through == old(self).trim_through,
                self.directory_dirty == old(self).directory_dirty,
                forall|i: int| 0 <= i < before.len() ==> (#[trigger] before[i]).leases < usize::MAX,
                forall|i: int|
                    0 <= i < at ==> (#[trigger] self.segments@[i])@ == leased(before, from_sequence, through)[i],
                forall|i: int| at <= i < count ==> (#[trigger] self.segments@[i])@ == before[i],
                recovery_views(files@) == selected(before.take(at as int), from_sequence, through, tail),
                numbers@ == numbers_of(recovery_views(files@)),
            decreases count - at,
        {
            let ghost segment = self.segments@[at as int]@;
            proof {
                assert(before.take(at + 1).drop_last() =~= before.take(at as int));
                assert(before.take(at + 1).last() == segment);
                assert(segment.leases < usize::MAX) by {
                    assert(before[at as int] == segment);
                }
            }
            let overlap: bool = match (
                self.segments[at].metadata.first_sequence,
                self.segments[at].metadata.last_sequence,
            ) {
                (Some(first), Some(last)) => first <= through && last >= from_sequence,
                _ => false,
            };
            if overlap {
                let number: u64 = self.segments[at].metadata.number;
                let ghost found = recovery_views(files@);
                let file = RecoverySegment {
                    number,
                    path: self.segments[at].metadata.path.clone(),
                    tolerate_tail: number == self.segments[count - 1].metadata.number,
                };
                proof {
                    assert(self.segments@[count - 1]@.number == before[count - 1].number);
                    assert(file@ == (RecoveryView {
                        number: segment.number,
                        path: segment.path,
                        tolerate_tail: tail == Some(segment.number),
                    }));
                }
                files.push(file);
                numbers.push(number);
                self.segments[at].recovery_leases = self.segments[at].recovery_leases + 1;
                assert(recovery_views(files@) =~= found.push(file@));
                assert(numbers_of(recovery_views(files@)) =~= numbers@);
            }
            at += 1;
        }
        assert(before.take(count as int) =~= before);
        assert(views(self.segments@) =~= leased(before, from_sequence, through));
        Ok((files, RecoveryLease { segments: numbers }))
    }

    /// Gives one lease on each of the segments back. Returns whether a trim
    /// should be tried.
    fn release(&mut self, numbers: &Vec<u64>) -> (wanted: bool)
        requires
            old(self).valid(),
        ensures
            final(self).valid(),
            final(self).keeps(old(self)),
            final(self).segments() == released_all(old(self).segments(), numbers@),
            wanted == (frees_any(old(self).segments(), numbers@) && old(self).trimmed_through() is Some),
    {
        let ghost before = views(self.segments@);
        let mut freed: bool = false;
        let mut at: usize = 0;
        assert(numbers@.take(0) =~= Seq::<u64>::empty());
        while at < numbers.len()
            invariant
                at <= numbers@.len(),
                self.valid(),
                self.dir == old(self).dir,
                self.trim_through == old(self).trim_through,
                self.directory_dirty == old(self).directory_dirty,
                before == old(self).segments(),
                self.segments() == released_all(before, numbers@.take(at as int)),
                freed == frees_any(before, numbers@.take(at as int)),
            decreases numbers@.len() - at,
        {
            proof {
                assert(numbers@.take(at + 1).drop_last() =~= numbers@.take(at as int));
                assert(numbers@.take(at + 1).last() == numbers@[at as int]);
            }
            if self.release_one(numbers[at]) {
                freed = true;
            }
            at += 1;
        }
        assert(numbers@.take(numbers@.len() as int) =~= numbers@);
        freed && self.notify_progress()
    }

    fn release_one(&mut self, number: u64) -> (freed: bool)
        requires
            old(self).valid(),
        ensures
            final(self).valid(),
            final(self).dir == old(self).dir,
            final(self).trim_through == old(self).trim_through,
            final(self).directory_dirty == old(self).directory_dirty,
            final(self).segments() == released(old(self).segments(), number),
            freed == frees(old(self).segments(), number),
    {
        let ghost before = views(self.segments@);
        let mut at: usize = 0;
        while at < self.segments.len()
            invariant
                at <= self.segments@.len(),
                *self == *old(self),
                before == views(self.segments@),
                ascending(before),
                forall|i: int| 0 <= i < at ==> (#[trigger] before[i]).number != number,
            decreases self.segments@.len() - at,
        {
            assert(self.segments@[at as int]@ == before[at as int]);
            if self.segments[at].metadata.number == number {
                let leases: usize = self.segments[at].recovery_leases;
                let freed: bool = leases == 1;
                if leases > 0 {
                    self.segments[at].recovery_leases = leases - 1;
                }
                proof {
                    assert(views(self.segments@) =~= released(before, number));
                    if freed {
                        assert(before[at as int].number == number && before[at as int].leases == 1);
                    }
                }
                return freed;
            }
            at += 1;
        }
        assert(views(self.segments@) =~= released(before, number));
        false
    }
}

impl RecoveryLease {
    /// The segments that are held.
    pub closed spec fn numbers(&self) -> Seq<u64> {
        self.segments@
    }

    /// Gives one segment back, if it is held. Returns whether a trim should be
    /// tried.
    pub fn release_segment(&mut self, retention: &mut Retention, number: u64) -> (wanted: bool)
        requires
            old(retention).valid(),
        ensures
            final(retention).valid(),
            final(retention).keeps(old(retention)),
            ({
                let held = old(self).numbers();
                if held.contains(number) {
                    &&& final(self).numbers().to_multiset() == held.to_multiset().remove(number)
                    &&& final(retention).segments() == released(old(retention).segments(), number)
                    &&& wanted == (frees(old(retention).segments(), number) && old(retention).trimmed_through() is Some)
                } else {
                    &&& final(self).numbers() == held
                    &&& final(retention).segments() == old(retention).segments()
                    &&& !wanted
                }
            }),
    {
        let mut at: usize = 0;
        while at < self.segments.len()
            invariant
                at <= self.segments@.len(),
                *self == *old(self),
                *retention == *old(retention),
                retention.valid(),
                forall|i: int| 0 <= i < at ==> self.segments@[i] != number,
            decreases self.segments@.len() - at,
        {
            if self.segments[at] == number {
                let ghost held = self.segments@;
                self.segments.swap_remove(at);
                proof {
                    swap_removed(held, at as int);
                    assert(held.contains(number));
                    reveal_with_fuel(released_all, 2);
                    reveal_with_fuel(frees_any, 2);
                }
                let numbers: Vec<u64> = vec![number];
                assert(numbers@ =~= seq![number]);
                assert(numbers@.drop_last() =~= Seq::<u64>::empty());
                return retention.release(&numbers);
            }
            at += 1;
        }
        false
    }

    /// Gives all segments back. Returns whether a trim should be tried.
    pub fn release_all(&mut self, retention: &mut Retention) -> (wanted: bool)
        requires
            old(retention).valid(),
        ensures
            final(retention).valid(),
            final(retention).keeps(old(retention)),
            final(self).numbers().len() == 0,
            final(retention).segments() == released_all(old(retention).segments(), old(self).numbers()),
            wanted == (frees_any(old(retention).segments(), old(self).numbers()) && old(retention).trimmed_through() is Some),
    {
        let mut segments: Vec<u64> = Vec::new();
        segments.append(&mut self.segments);
        assert(segments@ =~= old(self).segments@);
        retention.release(&segments)
    }
}

proof fn swap_removed(held: Seq<u64>, at: int)
    requires
        0 <= at < held.len(),
    ensures
        held.update(at, held.last()).drop_last().to_multiset() == held.to_multiset().remove(held[at]),
{
    broadcast use vstd::seq_lib::group_to_multiset_ensures;

    let last = held.len() - 1;
    let rest = held.drop_last();
    assert(held =~= rest.push(held.last()));
    if at < last {
        assert(held.update(at, held.last()).drop_last() =~= rest.update(at, held.last()));
        vstd::seq_lib::to_multiset_update(rest, at, held.last());
    } else {
        assert(held.update(at, held.last()).drop_last() =~= rest);
    }
    assert(held.update(at, held.last()).drop_last().to_multiset() =~= held.to_multiset().remove(held[at]));
}

/// The smaller of the two sequences: records through it are durable and no
/// longer needed.
pub open spec fn safe_sequence(requested: u64, durable: u64) -> u64 {
    if requested < durable {
        requested
    } else {
        durable
    }
}

impl Retention {
    fn anchor_segment(&self, sequence: u64) -> (number: Option<u64>)
        ensures
            number == anchor(self.segments(), sequence),
    {
        let ghost all = views(self.segments@);
        let mut at: usize = 0;
        assert(all.skip(0) =~= all);
        while at < self.segments.len()
            invariant
                at <= self.segments@.len(),
                all == views(self.segments@),
                anchor(all, sequence) == anchor(all.skip(at as int), sequence),
            decreases self.segments@.len() - at,
        {
            proof {
                assert(all.skip(at as int)[0] == self.segments@[at as int]@);
                assert(all.skip(at as int).skip(1) =~= all.skip(at + 1));
            }
            let holds: bool = match (
                self.segments[at].metadata.first_sequence,
                self.segments[at].metadata.last_sequence,
            ) {
                (Some(first), Some(last)) => first <= sequence && sequence <= last,
                _ => false,
            };
            if holds {
                return Some(self.segments[at].metadata.number);
            }
            at += 1;
        }
        None
    }

    /// Removes the segments that are no longer needed, once the records
    /// through `durable_sequence` are durable.
    pub fn trim<V: Vfs>(&mut self, vfs: &mut V, durable_sequence: Option<u64>) -> (result: Result<(), WalError>)
        requires
            old(self).valid(),
        ensures
            final(self).valid(),
            final(self).directory() == old(self).directory(),
            final(self).trimmed_through() == old(self).trimmed_through(),
            final(vfs).dependable() == old(vfs).dependable(),
            final(vfs).state().directories == old(vfs).state().directories,
            final(vfs).state().data == old(vfs).state().data,
            ({
                let before = old(self).segments();
                let held = anchor(before, durable_sequence->0);
                let safe = safe_sequence(old(self).trimmed_through()->0, durable_sequence->0);
                if durable_sequence is None || old(self).trimmed_through() is None || held is None {
                    &&& final(self).segments() == before
                    &&& final(self).is_dirty() == old(self).is_dirty()
                    &&& final(vfs).state() == old(vfs).state()
                    &&& final(vfs).journal() == old(vfs).journal()
                    &&& match result {
                        Ok(()) => durable_sequence is None || old(self).trimmed_through() is None,
                        Err(error) => {
                            &&& durable_sequence is Some
                            &&& old(self).trimmed_through() is Some
                            &&& error@ == missing_sequence(durable_sequence->0)
                        },
                    }
                } else {
                    &&& is_trim(before, final(self).segments(), held->0, safe)
                    &&& names_are_trimmed(
                        old(vfs).state().names,
                        final(vfs).state().names,
                        before,
                        held->0,
                        safe,
                    )
                    &&& result is Err ==> result->Err_0 is Io
                    &&& result is Ok ==> {
                        &&& !final(self).is_dirty()
                        &&& final(self).segments() == spared(before, held->0, safe)
                        &&& final(vfs).journal() == (if old(self).is_dirty() || final(self).segments() != before {
                            old(vfs).journal().with_names(old(self).directory(), final(vfs).state().names)
                        } else {
                            old(vfs).journal()
                        })
                    }
                    &&& old(vfs).dependable() ==> {
                        &&& final(self).segments() == spared(before, held->0, safe)
                        &&& final(vfs).state().names == spared_names(
                            old(vfs).state().names,
                            before,
                            held->0,
                            safe,
                        )
                        &&& old(vfs).state().directories.contains(old(self).directory()) ==> result is Ok
                    }
                }
            }),
    {
        let durable: u64 = match durable_sequence {
            Some(durable) => durable,
            None => {
                return Ok(());
            },
        };
        let requested: u64 = match self.trim_through {
            Some(requested) => requested,
            None => {
                return Ok(());
            },
        };
        let safe: u64 = if requested < durable { requested } else { durable };
        let anchored: u64 = match self.anchor_segment(durable) {
            Some(number) => number,
            None => {
                let mut message: String = String::from_str("durable sequence ");
                text::push_decimal(&mut message, durable);
                message.append(" is missing from retention state");
                return Err(WalError::Worker(message));
            },
        };
        let ghost before = views(self.segments@);
        let ghost names = vfs.state().names;
        let (removed, failure) = self.remove_doomed(vfs, anchored, safe);
        let mut first_error: Option<WalError> = failure;
        if removed {
            self.directory_dirty = true;
        }
        if self.directory_dirty {
            match vfs.sync_dir(self.dir.as_str()) {
                Ok(()) => {
                    self.directory_dirty = false;
                },
                Err(error) => {
                    if first_error.is_none() {
                        first_error = Some(WalError::io(error));
                    }
                },
            }
        }
        match first_error {
            Some(error) => Err(error),
            None => Ok(()),
        }
    }

    /// Removes the files of the segments that can be removed. Says whether one
    /// was removed, and why the first of those that were not was not.
    fn remove_doomed<V: Vfs>(&mut self, vfs: &mut V, anchored: u64, safe: u64) -> (result: (bool, Option<WalError>))
        requires
            old(self).valid(),
        ensures
            final(self).valid(),
            final(self).dir == old(self).dir,
            final(self).trim_through == old(self).trim_through,
            final(self).directory_dirty == old(self).directory_dirty,
            final(vfs).dependable() == old(vfs).dependable(),
            final(vfs).state().directories == old(vfs).state().directories,
            final(vfs).state().data == old(vfs).state().data,
            final(vfs).journal() == old(vfs).journal(),
            is_trim(old(self).segments(), final(self).segments(), anchored, safe),
            names_are_trimmed(
                old(vfs).state().names,
                final(vfs).state().names,
                old(self).segments(),
                anchored,
                safe,
            ),
            result.0 == (final(self).segments() != old(self).segments()),
            result.1 matches Some(error) ==> error is Io,
            result.1 is None ==> final(self).segments() == spared(old(self).segments(), anchored, safe),
            old(vfs).dependable() ==> {
                &&& result.1 is None
                &&& final(vfs).state().names == spared_names(
                    old(vfs).state().names,
                    old(self).segments(),
                    anchored,
                    safe,
                )
            },
    {
        let ghost before = views(self.segments@);
        let ghost names = vfs.state().names;
        let mut waiting: Vec<SegmentState> = Vec::new();
        waiting.append(&mut self.segments);
        let ghost all = waiting@;
        assert(views(all) =~= before);
        let mut queue: Vec<SegmentState> = reversed(waiting);
        let mut removed: bool = false;
        let mut first_error: Option<WalError> = None;
        assert(views(self.segments@) =~= Seq::<SegmentView>::empty());
        let ghost mut finished = Seq::<SegmentView>::empty();
        assert(before.take(0) =~= finished);
        while queue.len() > 0
            invariant
                queue@.len() <= all.len(),
                all.len() == before.len(),
                before == views(all),
                forall|i: int| 0 <= i < queue@.len() ==> queue@[i] == all[all.len() - 1 - i],
                self.dir == old(self).dir,
                self.trim_through == old(self).trim_through,
                self.directory_dirty == old(self).directory_dirty,
                vfs.dependable() == old(vfs).dependable(),
                vfs.state().directories == old(vfs).state().directories,
                vfs.state().data == old(vfs).state().data,
                vfs.journal() == old(vfs).journal(),
                names == old(vfs).state().names,
                finished == before.take(before.len() - queue@.len()),
                is_trim(finished, self.segments(), anchored, safe),
                names_are_trimmed(names, vfs.state().names, finished, anchored, safe),
                removed == (self.segments().len() < finished.len()),
                !removed ==> self.segments() == finished,
                first_error is None ==> self.segments() == spared(finished, anchored, safe),
                vfs.dependable() ==> vfs.state().names == spared_names(names, finished, anchored, safe),
                first_error matches Some(error) ==> error is Io,
                vfs.dependable() ==> first_error is None,
            decreases queue@.len(),
        {
            let ghost done = finished;
            let ghost kept = views(self.segments@);
            let ghost more = before.take(before.len() - queue@.len() + 1);
            match queue.pop() {
                Some(segment) => {
                    proof {
                        assert(more.drop_last() =~= done);
                        assert(more.last() == segment@);
                        trim_is_shorter(done, kept, anchored, safe);
                    }
                    let past: bool = match segment.metadata.last_sequence {
                        Some(last) => last <= safe,
                        None => false,
                    };
                    let doomed: bool = !segment.active && segment.recovery_leases == 0 && segment.metadata.number
                        != anchored && past;
                    assert(doomed == is_doomed(segment@, anchored, safe));
                    let ghost left = vfs.state().names;
                    if doomed {
                        let gone: bool = match vfs.remove(segment.metadata.path.as_str()) {
                            Ok(()) => true,
                            Err(error) => {
                                if error.kind == IoErrorKind::NotFound {
                                    true
                                } else {
                                    if first_error.is_none() {
                                        first_error = Some(removal_failure(segment.metadata.path.as_str(), error.message.as_str()));
                                    }
                                    false
                                }
                            },
                        };
                        proof {
                            names_stay_trimmed(names, left, vfs.state().names, more, anchored, safe);
                            if old(vfs).dependable() {
                                assert(vfs.state().names =~= spared_names(names, more, anchored, safe));
                            }
                        }
                        if gone {
                            removed = true;
                        } else {
                            self.segments.push(segment);
                            assert(views(self.segments@) =~= kept.push(segment@));
                            assert(kept.push(segment@).drop_last() =~= kept);
                            assert(!removed ==> kept.push(segment@) =~= more);
                        }
                    } else {
                        proof {
                            names_stay_trimmed(names, left, vfs.state().names, more, anchored, safe);
                        }
                        self.segments.push(segment);
                        proof {
                            assert(views(self.segments@) =~= kept.push(segment@));
                            assert(kept.push(segment@).drop_last() =~= kept);
                            assert(!removed ==> kept.push(segment@) =~= more);
                        }
                    }
                    proof {
                        finished = more;
                    }
                },
                None => {},
            }
        }
        proof {
            assert(before.take(before.len() as int) =~= before);
            trim_keeps_order(before, self.segments(), anchored, safe);
        }
        (removed, first_error)
    }
}

/// What is reported of a file that cannot be removed.
fn removal_failure(path: &str, message: &str) -> (error: WalError)
    ensures
        error@ == WalErrorView::Io("failed to remove WAL segment "@ + path@ + ": "@ + message@),
{
    let mut words: String = text::joined("failed to remove WAL segment ", path);
    words.append(": ");
    words.append(message);
    WalError::Io(words)
}

/// The segments in the opposite order.
fn reversed<T>(segments: Vec<T>) -> (result: Vec<T>)
    ensures
        result@.len() == segments@.len(),
        forall|i: int| 0 <= i < result@.len() ==> result@[i] == segments@[segments@.len() - 1 - i],
{
    let ghost all = segments@;
    let mut rest: Vec<T> = segments;
    let mut result: Vec<T> = Vec::new();
    while rest.len() > 0
        invariant
            rest@.len() + result@.len() == all.len(),
            forall|i: int| 0 <= i < rest@.len() ==> rest@[i] == all[i],
            forall|i: int| 0 <= i < result@.len() ==> result@[i] == all[all.len() - 1 - i],
        decreases rest@.len(),
    {
        match rest.pop() {
            Some(segment) => {
                result.push(segment);
            },
            None => {},
        }
    }
    result
}

/// Only names of segments that can be removed are gone.
pub open spec fn names_are_trimmed(
    before: Map<Seq<char>, u64>,
    after: Map<Seq<char>, u64>,
    segments: Seq<SegmentView>,
    anchor: u64,
    safe: u64,
) -> bool {
    &&& after.submap_of(before)
    &&& forall|path: Seq<char>| #[trigger]
        before.contains_key(path) && !after.contains_key(path) ==> names_doomed(segments, path, anchor, safe)
}

/// Whether a path, however it is written, is that of a segment that can be
/// removed.
pub open spec fn names_doomed(segments: Seq<SegmentView>, path: Seq<char>, anchor: u64, safe: u64) -> bool {
    exists|i: int|
        0 <= i < segments.len() && path::same_path(path, (#[trigger] segments[i]).path) && is_doomed(
            segments[i],
            anchor,
            safe,
        )
}

proof fn names_stay_trimmed(
    names: Map<Seq<char>, u64>,
    left: Map<Seq<char>, u64>,
    less: Map<Seq<char>, u64>,
    more: Seq<SegmentView>,
    anchor: u64,
    safe: u64,
)
    requires
        more.len() > 0,
        names_are_trimmed(names, left, more.drop_last(), anchor, safe),
        less == left || is_doomed(more.last(), anchor, safe) && less == vfs::unnamed(
            left,
            more.last().path,
        ),
    ensures
        names_are_trimmed(names, less, more, anchor, safe),
{
    let done = more.drop_last();
    assert forall|path: Seq<char>| #[trigger] names.contains_key(path) && !less.contains_key(path) implies names_doomed(
        more,
        path,
        anchor,
        safe,
    ) by {
        if left.contains_key(path) {
            assert(path::same_path(path, more[more.len() - 1].path));
        } else {
            assert(names_doomed(done, path, anchor, safe));
            let i = choose|i: int|
                0 <= i < done.len() && path::same_path(path, (#[trigger] done[i]).path) && is_doomed(
                    done[i],
                    anchor,
                    safe,
                );
            assert(more[i] == done[i]);
        }
    }
}

proof fn trim_is_shorter(before: Seq<SegmentView>, after: Seq<SegmentView>, anchor: u64, safe: u64)
    requires
        is_trim(before, after, anchor, safe),
    ensures
        after.len() <= before.len(),
    decreases before.len(),
{
    if before.len() > 0 {
        if is_doomed(before.last(), anchor, safe) && is_trim(before.drop_last(), after, anchor, safe) {
            trim_is_shorter(before.drop_last(), after, anchor, safe);
        } else {
            trim_is_shorter(before.drop_last(), after.drop_last(), anchor, safe);
        }
    }
}

proof fn trim_keeps_order(before: Seq<SegmentView>, after: Seq<SegmentView>, anchor: u64, safe: u64)
    requires
        ascending(before),
        is_trim(before, after, anchor, safe),
    ensures
        ascending(after),
        forall|i: int| 0 <= i < after.len() ==> before.contains(#[trigger] after[i]),
    decreases before.len(),
{
    if before.len() > 0 {
        let rest = before.drop_last();
        assert(ascending(rest));
        if is_doomed(before.last(), anchor, safe) && is_trim(rest, after, anchor, safe) {
            trim_keeps_order(rest, after, anchor, safe);
            assert forall|i: int| 0 <= i < after.len() implies before.contains(#[trigger] after[i]) by {
                let k = choose|k: int| 0 <= k < rest.len() && rest[k] == after[i];
                assert(before[k] == after[i]);
            }
        } else {
            let front = after.drop_last();
            trim_keeps_order(rest, front, anchor, safe);
            assert forall|i: int| 0 <= i < after.len() implies before.contains(#[trigger] after[i]) by {
                if i < front.len() {
                    assert(front[i] == after[i]);
                    let k = choose|k: int| 0 <= k < rest.len() && rest[k] == front[i];
                    assert(before[k] == after[i]);
                } else {
                    assert(before[before.len() - 1] == after[i]);
                }
            }
            assert forall|i: int, j: int| 0 <= i < j < after.len() implies after[i].number < after[j].number by {
                assert(front[i] == after[i]);
                let k = choose|k: int| 0 <= k < rest.len() && rest[k] == front[i];
                assert(before[k] == after[i]);
                if j < front.len() {
                    assert(front[j] == after[j]);
                } else {
                    assert(before[before.len() - 1] == after[j]);
                }
            }
        }
    }
}

/// A trim keeps every segment that is written to, that a recovery reads, that
/// holds the durable record, or that holds a record past the sequence through
/// which records are no longer needed or past the durable one.
pub proof fn trim_keeps_what_is_needed(
    before: Seq<SegmentView>,
    after: Seq<SegmentView>,
    segment: SegmentView,
    requested: u64,
    durable: u64,
)
    requires
        anchor(before, durable) is Some,
        is_trim(before, after, anchor(before, durable)->0, safe_sequence(requested, durable)),
        before.contains(segment),
        ({
            ||| segment.active
            ||| segment.leases > 0
            ||| anchor(before, durable) == Some(segment.number)
            ||| segment.last is None
            ||| segment.last->0 > requested
            ||| segment.last->0 > durable
        }),
    ensures
        after.contains(segment),
{
    spared_segment_stays(before, after, segment, anchor(before, durable)->0, safe_sequence(requested, durable));
}

proof fn spared_segment_stays(
    before: Seq<SegmentView>,
    after: Seq<SegmentView>,
    segment: SegmentView,
    anchor: u64,
    safe: u64,
)
    requires
        is_trim(before, after, anchor, safe),
        before.contains(segment),
        !is_doomed(segment, anchor, safe),
    ensures
        after.contains(segment),
    decreases before.len(),
{
    let at = choose|i: int| 0 <= i < before.len() && before[i] == segment;
    let rest = before.drop_last();
    if at == before.len() - 1 {
        assert(after[after.len() - 1] == segment);
    } else {
        assert(rest[at] == segment);
        if is_doomed(before.last(), anchor, safe) && is_trim(rest, after, anchor, safe) {
            spared_segment_stays(rest, after, segment, anchor, safe);
        } else {
            spared_segment_stays(rest, after.drop_last(), segment, anchor, safe);
            let k = choose|k: int| 0 <= k < after.drop_last().len() && after.drop_last()[k] == segment;
            assert(after[k] == segment);
        }
    }
}

/// Giving back all leases of a recovery leaves the segments as they were
/// before the recovery took them.
pub proof fn lease_is_given_back(segments: Seq<SegmentView>, from: u64, through: u64)
    requires
        ascending(segments),
    ensures
        released_all(
            leased(segments, from, through),
            numbers_of(selected(segments, from, through, tail_number(segments))),
        ) == segments,
{
    prefix_is_given_back(segments, segments.len() as int, from, through, tail_number(segments));
    assert(segments.take(segments.len() as int) =~= segments);
    assert(segments.take(segments.len() as int) + leased(segments, from, through).skip(segments.len() as int)
        =~= segments);
}

proof fn prefix_is_given_back(segments: Seq<SegmentView>, count: int, from: u64, through: u64, tail: Option<u64>)
    requires
        ascending(segments),
        0 <= count <= segments.len(),
    ensures
        released_all(
            leased(segments, from, through),
            numbers_of(selected(segments.take(count), from, through, tail)),
        ) == segments.take(count) + leased(segments, from, through).skip(count),
    decreases count,
{
    let after = leased(segments, from, through);
    if count == 0 {
        assert(segments.take(0) + after.skip(0) =~= after);
        assert(segments.take(0) =~= Seq::<SegmentView>::empty());
        assert(numbers_of(Seq::<RecoveryView>::empty()) =~= Seq::<u64>::empty());
    } else {
        prefix_is_given_back(segments, count - 1, from, through, tail);
        let segment = segments[count - 1];
        let files = selected(segments.take(count - 1), from, through, tail);
        assert(segments.take(count).drop_last() =~= segments.take(count - 1));
        assert(segments.take(count).last() == segment);
        let whole = segments.take(count) + after.skip(count);
        if overlaps(segment, from, through) {
            let file = RecoveryView {
                number: segment.number,
                path: segment.path,
                tolerate_tail: tail == Some(segment.number),
            };
            assert(numbers_of(files.push(file)).drop_last() =~= numbers_of(files));
            let partly = segments.take(count - 1) + after.skip(count - 1);
            assert(released(partly, segment.number) =~= whole) by {
                assert forall|i: int| 0 <= i < segments.len() implies #[trigger] released(partly, segment.number)[i]
                    == whole[i] by {
                    if i != count - 1 {
                        assert(segments[i].number != segment.number);
                    }
                }
            }
        } else {
            assert(segments.take(count - 1) + after.skip(count - 1) =~= whole);
        }
    }
}

/// A recovery reads every segment that holds a record of its range.
pub proof fn selected_segments_hold_the_range(
    segments: Seq<SegmentView>,
    from: u64,
    through: u64,
    tail: Option<u64>,
    segment: SegmentView,
    sequence: u64,
)
    requires
        segments.contains(segment),
        from <= sequence <= through,
        overlaps(segment, sequence, sequence),
    ensures
        numbers_of(selected(segments, from, through, tail)).contains(segment.number),
    decreases segments.len(),
{
    let at = choose|i: int| 0 <= i < segments.len() && segments[i] == segment;
    let rest = segments.drop_last();
    let files = selected(segments, from, through, tail);
    if at == segments.len() - 1 {
        assert(numbers_of(files)[files.len() - 1] == segment.number);
    } else {
        assert(rest[at] == segment);
        selected_segments_hold_the_range(rest, from, through, tail, segment, sequence);
        let before = selected(rest, from, through, tail);
        let k = choose|k: int| 0 <= k < before.len() && numbers_of(before)[k] == segment.number;
        assert(numbers_of(files)[k] == numbers_of(before)[k]);
    }
}

/// A segment that is added is there under its number, and the segments with
/// other numbers are those that were there before.
pub proof fn added_segment_joins_the_others(segments: Seq<SegmentView>, added: SegmentView, other: SegmentView)
    requires
        ascending(segments),
    ensures
        ({
            let after = with_segment(segments, added);
            &&& ascending(after)
            &&& after.contains(added)
            &&& other.number == added.number ==> (after.contains(other) <==> other == added)
            &&& other.number != added.number ==> (after.contains(other) <==> segments.contains(other))
        }),
{
    let after = with_segment(segments, added);
    let at = rank(segments, added.number) as int;
    rank_is_place(segments, added.number);
    added_segment_keeps_order(segments, added);
    assert(after[at] == added);
    if other.number == added.number && after.contains(other) {
        let k = choose|k: int| 0 <= k < after.len() && after[k] == other;
        assert(k == at) by {
            if k < at {
                assert(after[k].number < after[at].number);
            } else if k > at {
                assert(after[at].number < after[k].number);
            }
        }
    }
    if other.number != added.number {
        let replaces = at < segments.len() && segments[at].number == added.number;
        if after.contains(other) {
            let k = choose|k: int| 0 <= k < after.len() && after[k] == other;
            if replaces || k < at {
                assert(segments[k] == other);
            } else {
                assert(segments[k - 1] == other);
            }
        }
        if segments.contains(other) {
            let k = choose|k: int| 0 <= k < segments.len() && segments[k] == other;
            if replaces || k < at {
                assert(after[k] == other);
            } else {
                assert(after[k + 1] == other);
            }
        }
    }
}

/// Retention starts with the segments of its metadata, in ascending order of
/// their numbers and each number once: that of the last metadata with the
/// number. None is active or leased.
pub proof fn retention_starts_with_its_metadata(metadata: Seq<SegmentMetadata>, segment: SegmentView)
    ensures
        ascending(collected(metadata)),
        collected(metadata).contains(segment) <==> exists|i: int| #[trigger] is_last_of(metadata, i, segment),
    decreases metadata.len(),
{
    if metadata.len() > 0 {
        let front = metadata.drop_last();
        let last = metadata.len() - 1;
        let added = metadata[last]@;
        retention_starts_with_its_metadata(front, segment);
        added_segment_joins_the_others(collected(front), added, segment);
        if segment.number == added.number {
            if segment == added {
                assert(is_last_of(metadata, last, segment));
            }
            if exists|i: int| #[trigger] is_last_of(metadata, i, segment) {
                let i = choose|i: int| #[trigger] is_last_of(metadata, i, segment);
                if i < last {
                    assert(metadata[last].number == segment.number);
                }
            }
        } else {
            if exists|i: int| #[trigger] is_last_of(front, i, segment) {
                let i = choose|i: int| #[trigger] is_last_of(front, i, segment);
                assert forall|j: int| i < j < metadata.len() implies (#[trigger] metadata[j]).number
                    != segment.number by {
                    if j < last {
                        assert(front[j] == metadata[j]);
                    }
                }
                assert(front[i] == metadata[i]);
                assert(is_last_of(metadata, i, segment));
            }
            if exists|i: int| #[trigger] is_last_of(metadata, i, segment) {
                let i = choose|i: int| #[trigger] is_last_of(metadata, i, segment);
                assert(i < last);
                assert forall|j: int| i < j < front.len() implies (#[trigger] front[j]).number != segment.number by {
                    assert(front[j] == metadata[j]);
                }
                assert(is_last_of(front, i, segment));
            }
        }
    }
}

/// Whether a segment, which nobody uses, has what the metadata at a place says,
/// and no later metadata has its number.
pub open spec fn is_last_of(metadata: Seq<SegmentMetadata>, at: int, segment: SegmentView) -> bool {
    &&& 0 <= at < metadata.len()
    &&& segment.number == metadata[at].number
    &&& segment.path == metadata[at].path@
    &&& segment.first == metadata[at].first_sequence
    &&& segment.last == metadata[at].last_sequence
    &&& !segment.active
    &&& segment.leases == 0
    &&& forall|j: int| at < j < metadata.len() ==> (#[trigger] metadata[j]).number != segment.number
}

/// Whether two segments differ at most in whether they are written to.
pub open spec fn same_but_active(left: SegmentView, right: SegmentView) -> bool {
    &&& left.number == right.number
    &&& left.path == right.path
    &&& left.first == right.first
    &&& left.last == right.last
    &&& left.leases == right.leases
}

/// After a segment is registered as active it is the only active one, under its
/// path, without records and leases. The segments with other numbers are those
/// that were there before, and none of them is active.
pub proof fn registered_segment_is_the_only_active_one(
    segments: Seq<SegmentView>,
    number: u64,
    path: Seq<char>,
    segment: SegmentView,
)
    requires
        ascending(segments),
    ensures
        ({
            let after = with_segment(deactivated(segments), fresh_segment(number, path));
            &&& ascending(after)
            &&& after.contains(segment) ==> (segment.active <==> segment.number == number)
            &&& after.contains(segment) && segment.number == number ==> segment.path == path && segment.first is None
                && segment.last is None && segment.leases == 0
            &&& has_number(after, number)
            &&& segment.number != number && after.contains(segment) ==> exists|i: int|
                0 <= i < segments.len() && same_but_active(#[trigger] segments[i], segment)
            &&& forall|i: int|
                0 <= i < segments.len() && (#[trigger] segments[i]).number != number ==> after.contains(
                    (SegmentView { active: false, ..segments[i] }),
                )
        }),
{
    let idle = deactivated(segments);
    let added = fresh_segment(number, path);
    let after = with_segment(idle, added);
    assert(ascending(idle)) by {
        assert forall|i: int, j: int| 0 <= i < j < idle.len() implies idle[i].number < idle[j].number by {
            assert(segments[i].number < segments[j].number);
        }
    }
    added_segment_joins_the_others(idle, added, segment);
    let at = choose|k: int| 0 <= k < after.len() && after[k] == added;
    assert(after[at].number == number);
    if segment.number != number && after.contains(segment) {
        let k = choose|k: int| 0 <= k < idle.len() && idle[k] == segment;
        assert(same_but_active(segments[k], segment));
    }
    assert forall|i: int| 0 <= i < segments.len() && (#[trigger] segments[i]).number != number implies after.contains(
        (SegmentView { active: false, ..segments[i] }),
    ) by {
        let kept = SegmentView { active: false, ..segments[i] };
        added_segment_joins_the_others(idle, added, kept);
        assert(idle[i] == kept);
    }
}

/// Whether two segments differ at most in their noted sequences.
pub open spec fn same_but_sequences(left: SegmentView, right: SegmentView) -> bool {
    &&& left.number == right.number
    &&& left.path == right.path
    &&& left.active == right.active
    &&& left.leases == right.leases
}

/// The writes of a segment, as their first and last sequences, one after
/// another.
pub open spec fn after_writes(segments: Seq<SegmentView>, number: u64, writes: Seq<(u64, u64)>) -> Seq<SegmentView>
    decreases writes.len(),
{
    if writes.len() == 0 {
        segments
    } else {
        with_write(after_writes(segments, number, writes.drop_last()), number, writes.last().0, writes.last().1)
    }
}

/// A segment to which records were written is noted to end with the last
/// sequence of the most recent write, and to start with the first one of the
/// earliest. Nothing else is changed by a write.
pub proof fn noted_sequences_span_the_writes(
    segments: Seq<SegmentView>,
    number: u64,
    writes: Seq<(u64, u64)>,
    at: int,
)
    requires
        0 <= at < segments.len(),
        writes.len() > 0,
    ensures
        ({
            let after = after_writes(segments, number, writes);
            &&& after.len() == segments.len()
            &&& same_but_sequences(after[at], segments[at])
            &&& if segments[at].number == number {
                &&& after[at].last == Some(writes.last().1)
                &&& after[at].first == (match segments[at].first {
                    Some(first) => Some(first),
                    None => Some(writes[0].0),
                })
            } else {
                after[at] == segments[at]
            }
        }),
    decreases writes.len(),
{
    let front = writes.drop_last();
    reveal_with_fuel(after_writes, 2);
    if front.len() > 0 {
        noted_sequences_span_the_writes(segments, number, front, at);
        assert(front[0] == writes[0]);
    } else {
        assert(after_writes(segments, number, front) == segments);
    }
}

/// After a write to a segment is noted, a recovery whose range contains one of
/// its sequences reads the segment, and holds one more lease on it.
pub proof fn noted_write_is_recovered(
    segments: Seq<SegmentView>,
    at: int,
    first: u64,
    last: u64,
    from: u64,
    through: u64,
    sequence: u64,
)
    requires
        ascending(segments),
        0 <= at < segments.len(),
        segments[at].first matches Some(earliest) ==> earliest <= first,
        first <= sequence <= last,
        from <= sequence <= through,
    ensures
        ({
            let number = segments[at].number;
            let after = with_write(segments, number, first, last);
            &&& numbers_of(selected(after, from, through, tail_number(after))).contains(number)
            &&& leased(after, from, through)[at].leases == segments[at].leases + 1
        }),
{
    let number = segments[at].number;
    let after = with_write(segments, number, first, last);
    assert(after[at].number == number);
    assert(after.contains(after[at]));
    selected_segments_hold_the_range(after, from, through, tail_number(after), after[at], sequence);
}

/// Whether a segment holds a record with a sequence from `from` through
/// `through`, going by the sequences of its first and last record.
pub open spec fn meets(segment: SegmentView, from: u64, through: u64) -> bool {
    &&& segment.first is Some
    &&& segment.last is Some
    &&& segment.first->0 <= through
    &&& from <= segment.last->0
}

/// A recovery reads exactly the segments that meet its range, in their order,
/// under their paths. Of these, the end of the newest segment of the log may be
/// torn, and no other.
pub proof fn recovery_reads_what_meets_its_range(
    segments: Seq<SegmentView>,
    from: u64,
    through: u64,
    tail: Option<u64>,
)
    ensures
        ({
            let met = segments.filter(|segment: SegmentView| meets(segment, from, through));
            let files = selected(segments, from, through, tail);
            &&& files.len() == met.len()
            &&& forall|i: int|
                0 <= i < files.len() ==> {
                    &&& (#[trigger] files[i]).number == met[i].number
                    &&& files[i].path == met[i].path
                    &&& files[i].tolerate_tail <==> tail == Some(met[i].number)
                }
        }),
        segments.len() > 0 ==> tail_number(segments) == Some(segments[segments.len() - 1].number),
    decreases segments.len(),
{
    reveal(Seq::filter);
    if segments.len() > 0 {
        let rest = segments.drop_last();
        let pred = |segment: SegmentView| meets(segment, from, through);
        recovery_reads_what_meets_its_range(rest, from, through, tail);
        let files = selected(segments, from, through, tail);
        let before = selected(rest, from, through, tail);
        let met = segments.filter(pred);
        assert forall|i: int| 0 <= i < files.len() implies {
            &&& (#[trigger] files[i]).number == met[i].number
            &&& files[i].path == met[i].path
            &&& files[i].tolerate_tail <==> tail == Some(met[i].number)
        } by {
            if i < before.len() {
                assert(files[i] == before[i]);
                assert(met[i] == rest.filter(pred)[i]);
            }
        }
    }
}

/// A recovery holds one lease more on each segment that meets its range, and
/// changes nothing else.
pub proof fn recovery_leases_what_it_reads(segments: Seq<SegmentView>, from: u64, through: u64, at: int)
    requires
        0 <= at < segments.len(),
    ensures
        ({
            let after = leased(segments, from, through);
            &&& after.len() == segments.len()
            &&& after[at].leases == segments[at].leases + (if meets(segments[at], from, through) {
                1int
            } else {
                0
            })
            &&& same_but_leases(after[at], segments[at])
        }),
{
}

/// Whether two segments differ at most in their leases.
pub open spec fn same_but_leases(left: SegmentView, right: SegmentView) -> bool {
    &&& left.number == right.number
    &&& left.path == right.path
    &&& left.first == right.first
    &&& left.last == right.last
    &&& left.active == right.active
}

/// To give a lease back lowers the leases of its segment by one, where it has
/// any, and changes nothing else. It frees a segment if and only if one has no
/// lease afterwards that had one before.
pub proof fn released_lease_is_one_less(segments: Seq<SegmentView>, number: u64, at: int)
    requires
        0 <= at < segments.len(),
    ensures
        ({
            let after = released(segments, number);
            &&& after.len() == segments.len()
            &&& same_but_leases(after[at], segments[at])
            &&& if segments[at].number == number && segments[at].leases > 0 {
                after[at].leases == segments[at].leases - 1
            } else {
                after[at].leases == segments[at].leases
            }
            &&& segments[at].leases > 0 && after[at].leases == 0 ==> frees(segments, number)
            &&& frees(segments, number) ==> exists|i: int|
                0 <= i < segments.len() && (#[trigger] segments[i]).leases > 0 && after[i].leases == 0
        }),
{
    let after = released(segments, number);
    if frees(segments, number) {
        let i = choose|i: int|
            0 <= i < segments.len() && (#[trigger] segments[i]).number == number && segments[i].leases == 1;
        assert(after[i].leases == 0);
    }
}

/// A recovery from before the first record that is still there is refused: the
/// sequence that refuses it is the smallest that a segment starts with.
pub proof fn earliest_sequence_is_the_smallest(segments: Seq<SegmentView>)
    ensures
        match earliest(segments) {
            Some(first) => {
                &&& exists|i: int| 0 <= i < segments.len() && (#[trigger] segments[i]).first == Some(first)
                &&& forall|i: int|
                    0 <= i < segments.len() && (#[trigger] segments[i]).first is Some ==> first
                        <= segments[i].first->0
            },
            None => forall|i: int| 0 <= i < segments.len() ==> (#[trigger] segments[i]).first is None,
        },
    decreases segments.len(),
{
    if segments.len() > 0 {
        let rest = segments.drop_last();
        let last = segments.len() - 1;
        earliest_sequence_is_the_smallest(rest);
        assert forall|i: int| 0 <= i < last implies segments[i] == rest[i] by {}
        match earliest(rest) {
            Some(before) => {
                let i = choose|i: int| 0 <= i < rest.len() && (#[trigger] rest[i]).first == Some(before);
                assert(segments[i].first == Some(before));
            },
            None => {},
        }
        assert(segments[last] == segments.last());
        assert forall|i: int| 0 <= i < segments.len() && (#[trigger] segments[i]).first is Some implies earliest(
            segments,
        ) is Some && earliest(segments)->0 <= segments[i].first->0 by {
            if i < last {
                assert(rest[i].first is Some);
            }
        }
    }
}

/// The segment that a trim keeps for the durable record is the first one that
/// holds it. There is none if and only if no segment holds it.
pub proof fn anchor_holds_the_durable_record(segments: Seq<SegmentView>, sequence: u64)
    ensures
        match anchor(segments, sequence) {
            Some(number) => exists|i: int|
                0 <= i < segments.len() && (#[trigger] segments[i]).number == number && meets(
                    segments[i],
                    sequence,
                    sequence,
                ) && forall|j: int| 0 <= j < i ==> !meets(#[trigger] segments[j], sequence, sequence),
            None => forall|i: int| 0 <= i < segments.len() ==> !meets(#[trigger] segments[i], sequence, sequence),
        },
    decreases segments.len(),
{
    if segments.len() > 0 {
        let rest = segments.skip(1);
        anchor_holds_the_durable_record(rest, sequence);
        if meets(segments[0], sequence, sequence) {
            assert(segments[0].number == anchor(segments, sequence)->0);
        } else {
            match anchor(segments, sequence) {
                Some(number) => {
                    let i = choose|i: int|
                        0 <= i < rest.len() && (#[trigger] rest[i]).number == number && meets(
                            rest[i],
                            sequence,
                            sequence,
                        ) && forall|j: int| 0 <= j < i ==> !meets(#[trigger] rest[j], sequence, sequence);
                    assert(segments[i + 1] == rest[i]);
                    assert forall|j: int| 0 <= j < i + 1 implies !meets(
                        #[trigger] segments[j],
                        sequence,
                        sequence,
                    ) by {
                        if j > 0 {
                            assert(rest[j - 1] == segments[j]);
                        }
                    }
                },
                None => {
                    assert forall|i: int| 0 <= i < segments.len() implies !meets(
                        #[trigger] segments[i],
                        sequence,
                        sequence,
                    ) by {
                        if i > 0 {
                            assert(rest[i - 1] == segments[i]);
                        }
                    }
                },
            }
        }
    }
}

/// A trim that succeeds removes exactly the segments that were rotated away
/// from, are not leased, are not the one kept for the durable record, and whose
/// last sequence is at most the requested and at most the durable one. The
/// others stay in their order.
pub proof fn trim_removes_what_is_past(
    segments: Seq<SegmentView>,
    kept: u64,
    requested: u64,
    durable: u64,
)
    ensures
        spared(segments, kept, safe_sequence(requested, durable)) == segments.filter(
            |segment: SegmentView|
                !(!segment.active && segment.leases == 0 && segment.number != kept && segment.last is Some
                    && segment.last->0 <= requested && segment.last->0 <= durable),
        ),
    decreases segments.len(),
{
    reveal(Seq::filter);
    if segments.len() > 0 {
        trim_removes_what_is_past(segments.drop_last(), kept, requested, durable);
    }
}

/// A trim that succeeds removes the file of every segment that it removes, and
/// no other name.
pub proof fn trim_removes_the_files(
    names: Map<Seq<char>, u64>,
    segments: Seq<SegmentView>,
    kept: u64,
    requested: u64,
    durable: u64,
    name: Seq<char>,
)
    ensures
        ({
            let after = spared_names(names, segments, kept, safe_sequence(requested, durable));
            &&& after.contains_key(name) <==> names.contains_key(name) && forall|i: int|
                0 <= i < segments.len() && path::same_path(name, (#[trigger] segments[i]).path) ==> segments[i].active
                    || segments[i].leases > 0 || segments[i].number == kept || segments[i].last is None
                    || segments[i].last->0 > requested || segments[i].last->0 > durable
            &&& after.contains_key(name) ==> after[name] == names[name]
        }),
    decreases segments.len(),
{
    if segments.len() > 0 {
        let rest = segments.drop_last();
        let last = segments.len() - 1;
        trim_removes_the_files(names, rest, kept, requested, durable, name);
        assert forall|i: int| 0 <= i < last implies segments[i] == rest[i] by {}
        assert(segments[last] == segments.last());
    }
}

/// A segment that was written to and then rotated away from is removed by a
/// trim once its records are past, though it was active before.
pub proof fn rotated_segment_is_trimmed(
    segments: Seq<SegmentView>,
    at: int,
    number: u64,
    path: Seq<char>,
    kept: u64,
    requested: u64,
    durable: u64,
)
    requires
        ascending(segments),
        0 <= at < segments.len(),
        segments[at].number != number,
        segments[at].number != kept,
        segments[at].leases == 0,
        segments[at].last is Some,
        segments[at].last->0 <= requested,
        segments[at].last->0 <= durable,
    ensures
        ({
            let after = with_segment(deactivated(segments), fresh_segment(number, path));
            &&& has_number(after, segments[at].number)
            &&& !has_number(spared(after, kept, safe_sequence(requested, durable)), segments[at].number)
        }),
{
    let after = with_segment(deactivated(segments), fresh_segment(number, path));
    let idle = SegmentView { active: false, ..segments[at] };
    let left = spared(after, kept, safe_sequence(requested, durable));
    registered_segment_is_the_only_active_one(segments, number, path, idle);
    let k = choose|k: int| 0 <= k < after.len() && after[k] == idle;
    assert(after[k].number == segments[at].number);
    trim_removes_what_is_past(after, kept, requested, durable);
    if has_number(left, segments[at].number) {
        let i = choose|i: int| 0 <= i < left.len() && (#[trigger] left[i]).number == segments[at].number;
        filtered_segment_was_there(
            after,
            |segment: SegmentView|
                !(!segment.active && segment.leases == 0 && segment.number != kept && segment.last is Some
                    && segment.last->0 <= requested && segment.last->0 <= durable),
            i,
        );
        let j = choose|j: int| 0 <= j < after.len() && after[j] == left[i];
        assert(j == k) by {
            if j < k {
                assert(after[j].number < after[k].number);
            } else if k < j {
                assert(after[k].number < after[j].number);
            }
        }
    }
}

proof fn filtered_segment_was_there(
    segments: Seq<SegmentView>,
    pred: spec_fn(SegmentView) -> bool,
    at: int,
)
    requires
        0 <= at < segments.filter(pred).len(),
    ensures
        segments.contains(segments.filter(pred)[at]),
        pred(segments.filter(pred)[at]),
    decreases segments.len(),
{
    reveal(Seq::filter);
    if segments.len() > 0 {
        let rest = segments.drop_last();
        let found = rest.filter(pred);
        if at < found.len() {
            filtered_segment_was_there(rest, pred, at);
            let k = choose|k: int| 0 <= k < rest.len() && rest[k] == found[at];
            assert(segments[k] == found[at]);
        } else {
            assert(segments[segments.len() - 1] == segments.filter(pred)[at]);
        }
    }
}

/// What happens to segments changes nothing else: neither the directory, nor what
/// is no longer needed, nor whether a removal is still to be made durable.
pub proof fn only_segments_change(before: &Retention, after: &Retention)
    requires
        after.keeps(before),
    ensures
        after.directory() == before.directory(),
        after.trimmed_through() == before.trimmed_through(),
        after.is_dirty() == before.is_dirty(),
{
}

/// A segment is freed by the release of its only lease, and by nothing else: the
/// release of no lease frees none.
pub proof fn last_lease_frees_its_segment(segments: Seq<SegmentView>, at: int, number: u64)
    requires
        ascending(segments),
        0 <= at < segments.len(),
    ensures
        !frees_any(segments, Seq::empty()),
        segments[at].leases == 1 ==> frees_any(segments, seq![segments[at].number]),
        segments[at].leases != 1 ==> !frees_any(segments, seq![segments[at].number]),
        (forall|i: int| 0 <= i < segments.len() ==> segments[i].number != number) ==> !frees_any(segments, seq![number]),
{
    reveal_with_fuel(frees_any, 2);
    reveal_with_fuel(released_all, 2);
    assert(seq![segments[at].number].drop_last() =~= Seq::<u64>::empty());
    assert(seq![number].drop_last() =~= Seq::<u64>::empty());
    assert(!frees_any(segments, Seq::empty()));
    if frees(segments, segments[at].number) {
        let i = choose|i: int|
            0 <= i < segments.len() && (#[trigger] segments[i]).number == segments[at].number && segments[i].leases
                == 1;
        assert(i == at);
    }
}

/// A trim adds no name and moves none. A name that it takes away is that of a
/// segment that nobody uses, that does not hold the durable record and whose
/// records are all past.
pub proof fn trim_takes_only_names_of_past_segments(
    before: Map<Seq<char>, u64>,
    after: Map<Seq<char>, u64>,
    segments: Seq<SegmentView>,
    anchor: u64,
    safe: u64,
    path: Seq<char>,
)
    requires
        names_are_trimmed(before, after, segments, anchor, safe),
    ensures
        after.contains_key(path) ==> before.contains_key(path) && before[path] == after[path],
        before.contains_key(path) && !after.contains_key(path) ==> exists|i: int|
            #![trigger segments[i]]
            0 <= i < segments.len() && path::plain(segments[i].path) == path::plain(path) && !segments[i].active
                && segments[i].leases == 0 && segments[i].number != anchor && segments[i].last is Some
                && segments[i].last->0 <= safe,
{
    if before.contains_key(path) && !after.contains_key(path) {
        let i = choose|i: int|
            0 <= i < segments.len() && path::same_path(path, (#[trigger] segments[i]).path) && is_doomed(
                segments[i],
                anchor,
                safe,
            );
        assert(path::plain(segments[i].path) == path::plain(path));
    }
    if after.contains_key(path) {
        assert(after.dom().contains(path));
    }
}

} // verus!
