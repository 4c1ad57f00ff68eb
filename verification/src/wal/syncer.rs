//! The syncer: groups written records into durability boundaries and tells
//! callers the outcome of their appends.

use vstd::prelude::*;
use std::collections::VecDeque;
use crate::vfs::Vfs;
use crate::wal::error::{WalError, WalErrorView};
use crate::wal::files;
use crate::wal::segment::SegmentSyncHandle;

verus! {

/// Whether the bytes of every segment, as they are now, are durable.
pub open spec fn all_durable<V: Vfs>(vfs: &V, segments: Seq<SegmentSyncHandle>) -> bool {
    forall|i: int|
        0 <= i < segments.len() ==> {
            &&& vfs.journal().files.contains_key((#[trigger] segments[i]).file.id)
            &&& vfs.journal().files[segments[i].file.id] == vfs.state().contents(&segments[i].file)
        }
}

/// Whether handles with the same number are handles of the same file.
pub open spec fn numbered_files(segments: Seq<SegmentSyncHandle>) -> bool {
    forall|i: int, j: int|
        0 <= i < segments.len() && 0 <= j < segments.len() && (#[trigger] segments[i]).number == (
        #[trigger] segments[j]).number ==> segments[i].file.id == segments[j].file.id
}

/// Makes segments durable, the last one first, and then the directory where
/// asked. A segment that follows itself is synchronized once.
pub fn perform_sync<V: Vfs>(vfs: &mut V, segments: &[SegmentSyncHandle], sync_directory: bool, dir: &str) -> (result:
    Result<(), WalError>)
    requires
        numbered_files(segments@),
        forall|i: int| 0 <= i < segments@.len() ==> old(vfs).state().holds(&(#[trigger] segments@[i]).file),
    ensures
        final(vfs).state() == old(vfs).state(),
        final(vfs).dependable() == old(vfs).dependable(),
        final(vfs).journal().advances(old(vfs).journal(), old(vfs).state()),
        match result {
            Ok(()) => {
                &&& all_durable(final(vfs), segments@)
                &&& sync_directory ==> final(vfs).journal().names.contains_key(dir@) && final(vfs).journal().names[dir@]
                    == old(vfs).state().names
            },
            Err(error) => {
                &&& error is Io
                &&& old(vfs).dependable() ==> sync_directory && !old(vfs).state().directories.contains(dir@)
            },
        },
{
    let mut left: usize = segments.len();
    while left > 0
        invariant
            left <= segments@.len(),
            vfs.state() == old(vfs).state(),
            vfs.dependable() == old(vfs).dependable(),
            vfs.journal().advances(old(vfs).journal(), old(vfs).state()),
            numbered_files(segments@),
            forall|i: int| 0 <= i < segments@.len() ==> old(vfs).state().holds(&(#[trigger] segments@[i]).file),
            forall|i: int|
                left <= i < segments@.len() ==> {
                    &&& vfs.journal().files.contains_key((#[trigger] segments@[i]).file.id)
                    &&& vfs.journal().files[segments@[i].file.id] == vfs.state().contents(&segments@[i].file)
                },
        decreases left,
    {
        let at: usize = left - 1;
        let repeated: bool = left < segments.len() && segments[left].number == segments[at].number;
        if !repeated {
            match segments[at].sync(vfs) {
                Ok(()) => {},
                Err(error) => {
                    return Err(error);
                },
            }
        }
        left = at;
    }
    if sync_directory {
        match files::sync_all(vfs, dir) {
            Ok(()) => {},
            Err(error) => {
                return Err(WalError::io(error));
            },
        }
    }
    Ok(())
}

/// A written append that waits for its outcome: its sequence and its handle.
pub struct AppendCompletion<H> {
    pub sequence: u64,
    pub handle: H,
}

/// What a caller is told.
pub struct Outcome<H> {
    pub handle: H,
    pub result: Result<u64, WalError>,
}

/// Whether each completion is told its own sequence.
pub open spec fn told_success<H>(completions: Seq<AppendCompletion<H>>, outcomes: Seq<Outcome<H>>) -> bool {
    &&& outcomes.len() == completions.len()
    &&& forall|i: int|
        0 <= i < outcomes.len() ==> {
            &&& (#[trigger] outcomes[i]).handle == completions[i].handle
            &&& outcomes[i].result == Ok::<u64, WalError>(completions[i].sequence)
        }
}

/// Whether each completion is told the error.
pub open spec fn told_failure<H>(
    completions: Seq<AppendCompletion<H>>,
    error: WalErrorView,
    outcomes: Seq<Outcome<H>>,
) -> bool {
    &&& outcomes.len() == completions.len()
    &&& forall|i: int|
        0 <= i < outcomes.len() ==> {
            &&& (#[trigger] outcomes[i]).handle == completions[i].handle
            &&& outcomes[i].result matches Err(told)
            &&& told@ == error
        }
}

fn tell_success<H>(completions: VecDeque<AppendCompletion<H>>) -> (outcomes: Vec<Outcome<H>>)
    ensures
        told_success(completions@, outcomes@),
{
    let mut left: VecDeque<AppendCompletion<H>> = completions;
    let mut outcomes: Vec<Outcome<H>> = Vec::new();
    while left.len() > 0
        invariant
            outcomes@.len() <= completions@.len(),
            left@ == completions@.skip(outcomes@.len() as int),
            forall|i: int|
                0 <= i < outcomes@.len() ==> {
                    &&& (#[trigger] outcomes@[i]).handle == completions@[i].handle
                    &&& outcomes@[i].result == Ok::<u64, WalError>(completions@[i].sequence)
                },
        decreases left@.len(),
    {
        let ghost count = outcomes@.len() as int;
        if let Some(completion) = left.pop_front() {
            outcomes.push(Outcome { handle: completion.handle, result: Ok(completion.sequence) });
        }
        assert(left@ =~= completions@.skip(count + 1));
    }
    outcomes
}

fn tell_failure<H>(completions: VecDeque<AppendCompletion<H>>, error: &WalError) -> (outcomes: Vec<Outcome<H>>)
    ensures
        told_failure(completions@, error@, outcomes@),
{
    let mut left: VecDeque<AppendCompletion<H>> = completions;
    let mut outcomes: Vec<Outcome<H>> = Vec::new();
    while left.len() > 0
        invariant
            outcomes@.len() <= completions@.len(),
            left@ == completions@.skip(outcomes@.len() as int),
            forall|i: int|
                0 <= i < outcomes@.len() ==> {
                    &&& (#[trigger] outcomes@[i]).handle == completions@[i].handle
                    &&& outcomes@[i].result matches Err(told)
                    &&& told@ == error@
                },
        decreases left@.len(),
    {
        let ghost count = outcomes@.len() as int;
        if let Some(completion) = left.pop_front() {
            outcomes.push(Outcome { handle: completion.handle, result: Err(error.clone()) });
        }
        assert(left@ =~= completions@.skip(count + 1));
    }
    outcomes
}

/// What one written append asks of the syncer.
pub struct SyncOp<H> {
    pub segments: Vec<SegmentSyncHandle>,
    pub sync_directory: bool,
    pub completion: Option<AppendCompletion<H>>,
}

/// What the syncer is asked to do.
pub enum SyncOperation<H> {
    Sync(SyncOp<H>),
    Close,
}

/// Requests that are settled together.
pub struct SyncGroup<H> {
    pub segments: Vec<SegmentSyncHandle>,
    pub sync_directory: bool,
    pub completions: VecDeque<AppendCompletion<H>>,
    pub closing: bool,
}

/// The segments of all requests, in order.
pub open spec fn grouped_segments<H>(operations: Seq<SyncOperation<H>>) -> Seq<SegmentSyncHandle>
    decreases operations.len(),
{
    if operations.len() == 0 {
        Seq::empty()
    } else {
        let before = grouped_segments(operations.drop_last());
        match operations.last() {
            SyncOperation::Sync(request) => before + request.segments@,
            SyncOperation::Close => before,
        }
    }
}

/// The completions of all requests, in order.
pub open spec fn grouped_completions<H>(operations: Seq<SyncOperation<H>>) -> Seq<AppendCompletion<H>>
    decreases operations.len(),
{
    if operations.len() == 0 {
        Seq::empty()
    } else {
        let before = grouped_completions(operations.drop_last());
        match operations.last() {
            SyncOperation::Sync(SyncOp { completion: Some(completion), .. }) => before.push(completion),
            _ => before,
        }
    }
}

/// Whether one of the requests asks for the directory.
pub open spec fn grouped_directory<H>(operations: Seq<SyncOperation<H>>) -> bool
    decreases operations.len(),
{
    operations.len() > 0 && (grouped_directory(operations.drop_last()) || (operations.last() matches SyncOperation::Sync(
        request,
    ) && request.sync_directory))
}

/// Whether one of the operations is to close.
pub open spec fn grouped_close<H>(operations: Seq<SyncOperation<H>>) -> bool
    decreases operations.len(),
{
    operations.len() > 0 && (grouped_close(operations.drop_last()) || operations.last() is Close)
}

/// Puts requests that were received together into one group.
pub fn gather<H>(operations: VecDeque<SyncOperation<H>>) -> (group: SyncGroup<H>)
    ensures
        group.segments@ == grouped_segments(operations@),
        group.completions@ == grouped_completions(operations@),
        group.sync_directory == grouped_directory(operations@),
        group.closing == grouped_close(operations@),
{
    let ghost received = operations@;
    let mut left: VecDeque<SyncOperation<H>> = operations;
    let mut segments: Vec<SegmentSyncHandle> = Vec::new();
    let mut sync_directory: bool = false;
    let mut completions: VecDeque<AppendCompletion<H>> = VecDeque::new();
    let mut closing: bool = false;
    let ghost mut read: int = 0;
    assert(received.take(0) =~= Seq::<SyncOperation<H>>::empty());
    while left.len() > 0
        invariant
            0 <= read <= received.len(),
            left@ == received.skip(read),
            segments@ == grouped_segments(received.take(read)),
            completions@ == grouped_completions(received.take(read)),
            sync_directory == grouped_directory(received.take(read)),
            closing == grouped_close(received.take(read)),
        decreases left@.len(),
    {
        let ghost after = received.take(read + 1);
        proof {
            assert(after.drop_last() =~= received.take(read));
            assert(after.last() == received[read]);
            assert(received.skip(read).skip(1) =~= received.skip(read + 1));
        }
        match left.pop_front() {
            None => {},
            Some(SyncOperation::Close) => {
                closing = true;
            },
            Some(SyncOperation::Sync(request)) => {
                let SyncOp { segments: mut more, sync_directory: directory, completion } = request;
                segments.append(&mut more);
                sync_directory = sync_directory || directory;
                if let Some(completion) = completion {
                    completions.push_back(completion);
                }
            },
        }
        proof {
            read = read + 1;
        }
    }
    assert(received.take(read) =~= received);
    SyncGroup { segments, sync_directory, completions, closing }
}

/// What a group came to.
pub struct GroupOutcome<H> {
    pub outcomes: Vec<Outcome<H>>,
    pub failure: Option<WalError>,
    /// The syncer ends.
    pub ends: bool,
}

/// Makes a group durable, and says what callers are told and whether the
/// syncer ends. Where the group names no segment there is nothing to do and
/// nobody to tell.
pub fn settle<V: Vfs, H>(vfs: &mut V, dir: &str, group: SyncGroup<H>) -> (settled: GroupOutcome<H>)
    requires
        numbered_files(group.segments@),
        forall|i: int|
            0 <= i < group.segments@.len() ==> old(vfs).state().holds(&(#[trigger] group.segments@[i]).file),
    ensures
        final(vfs).state() == old(vfs).state(),
        final(vfs).dependable() == old(vfs).dependable(),
        final(vfs).journal().advances(old(vfs).journal(), old(vfs).state()),
        group.segments@.len() == 0 ==> {
            &&& final(vfs).journal() == old(vfs).journal()
            &&& settled.outcomes@.len() == 0
            &&& settled.failure is None
        },
        settled.ends == (group.closing || settled.failure is Some),
        group.segments@.len() > 0 ==> match settled.failure {
            None => {
                &&& all_durable(final(vfs), group.segments@)
                &&& group.sync_directory ==> final(vfs).journal().names.contains_key(dir@)
                    && final(vfs).journal().names[dir@] == old(vfs).state().names
                &&& told_success(group.completions@, settled.outcomes@)
            },
            Some(error) => {
                &&& error is Io
                &&& told_failure(group.completions@, error@, settled.outcomes@)
                &&& old(vfs).dependable() ==> group.sync_directory && !old(vfs).state().directories.contains(dir@)
            },
        },
{
    let SyncGroup { segments, sync_directory, completions, closing } = group;
    if segments.len() == 0 {
        return GroupOutcome { outcomes: Vec::new(), failure: None, ends: closing };
    }
    match perform_sync(vfs, segments.as_slice(), sync_directory, dir) {
        Ok(()) => GroupOutcome { outcomes: tell_success(completions), failure: None, ends: closing },
        Err(error) => GroupOutcome {
            outcomes: tell_failure(completions, &error),
            failure: Some(error),
            ends: true,
        },
    }
}

/// The syncer's state between rounds.
pub struct SyncLoop<H> {
    pub dir: String,
    /// Whether callers wait until their records are durable.
    pub wait_for_sync: bool,
    /// The number of the segment that was active in the last round.
    pub previous_active: Option<u64>,
    /// A completion that was read but lies beyond the announced sequence.
    pub deferred: Option<AppendCompletion<H>>,
}

/// One round: what is made durable, and who is told.
pub struct SyncRound<H> {
    pub advanced: u64,
    pub segments: Vec<SegmentSyncHandle>,
    pub sync_directory: bool,
    pub completions: VecDeque<AppendCompletion<H>>,
}

/// What a round came to.
pub struct RoundOutcome<H> {
    /// What the callers that are left in the round are told.
    pub outcomes: Vec<Outcome<H>>,
    /// The failure that ends the syncer: all further completions fail with it.
    pub failure: Option<WalError>,
}

/// A completion that may be there, as a sequence.
pub open spec fn one_or_none<H>(completion: Option<AppendCompletion<H>>) -> Seq<AppendCompletion<H>> {
    match completion {
        Some(completion) => seq![completion],
        None => Seq::empty(),
    }
}

/// The completions that a round tells, and the one that waits for a later
/// round.
pub struct Gathered<H> {
    pub completions: Seq<AppendCompletion<H>>,
    pub deferred: Option<AppendCompletion<H>>,
}

/// What a round starts with: the completion that waited, where its sequence was
/// announced.
pub open spec fn started_with<H>(deferred: Option<AppendCompletion<H>>, advanced: u64) -> Gathered<H> {
    match deferred {
        Some(completion) => if completion.sequence <= advanced {
            Gathered { completions: seq![completion], deferred: None }
        } else {
            Gathered { completions: Seq::empty(), deferred }
        },
        None => Gathered { completions: Seq::empty(), deferred },
    }
}

/// What a round holds with one completion more. One whose sequence was not
/// announced waits.
pub open spec fn with_one<H>(
    gathered: Gathered<H>,
    advanced: u64,
    completion: AppendCompletion<H>,
) -> Gathered<H> {
    if completion.sequence <= advanced {
        Gathered { completions: gathered.completions.push(completion), ..gathered }
    } else {
        Gathered { deferred: Some(completion), ..gathered }
    }
}

impl<H> SyncRound<H> {
    /// What the round and its syncer hold.
    pub open spec fn gathered(&self, syncer: &SyncLoop<H>) -> Gathered<H> {
        Gathered { completions: self.completions@, deferred: syncer.deferred }
    }
}

impl<H> SyncLoop<H> {
    pub fn new(dir: String, wait_for_sync: bool) -> (syncer: SyncLoop<H>)
        ensures
            syncer.dir == dir,
            syncer.wait_for_sync == wait_for_sync,
            syncer.previous_active is None,
            syncer.deferred is None,
    {
        SyncLoop { dir, wait_for_sync, previous_active: None, deferred: None }
    }

    /// Starts a round for the announced sequence. Nothing happens where no
    /// sequence was announced.
    pub fn begin(
        &mut self,
        advanced: Option<u64>,
        active: Option<SegmentSyncHandle>,
        dirty: Vec<SegmentSyncHandle>,
    ) -> (round: Option<SyncRound<H>>)
        ensures
            final(self).dir == old(self).dir,
            final(self).wait_for_sync == old(self).wait_for_sync,
            match (advanced, round) {
                (None, None) => *final(self) == *old(self),
                (Some(sequence), Some(round)) => {
                    &&& round.advanced == sequence
                    &&& final(self).previous_active == active_number(active)
                    &&& round.sync_directory == (active_number(active) != old(self).previous_active)
                    &&& round.segments@ == (match active {
                        Some(segment) => dirty@.push(segment),
                        None => dirty@,
                    })
                    &&& round.gathered(final(self)) == started_with(old(self).deferred, sequence)
                },
                _ => false,
            },
    {
        let advanced: u64 = match advanced {
            Some(advanced) => advanced,
            None => {
                return None;
            },
        };
        let number: Option<u64> = match &active {
            Some(segment) => Some(segment.number),
            None => None,
        };
        let sync_directory: bool = match (number, self.previous_active) {
            (Some(current), Some(previous)) => current != previous,
            (None, None) => false,
            _ => true,
        };
        self.previous_active = number;
        let mut segments: Vec<SegmentSyncHandle> = dirty;
        if let Some(segment) = active {
            segments.push(segment);
        }
        let mut completions: VecDeque<AppendCompletion<H>> = VecDeque::new();
        if let Some(completion) = self.deferred.take() {
            if completion.sequence <= advanced {
                completions.push_back(completion);
                assert(completions@ =~= seq![completion]);
            } else {
                self.deferred = Some(completion);
            }
        }
        assert(completions@.len() == 0 ==> completions@ =~= Seq::<AppendCompletion<H>>::empty());
        Some(SyncRound { advanced, segments, sync_directory, completions })
    }

    /// Whether the round takes further completions.
    pub fn takes_more(&self) -> (more: bool)
        ensures
            more == self.deferred is None,
    {
        self.deferred.is_none()
    }

    /// Takes one completion into the round, or keeps it for a later one.
    pub fn take(&mut self, round: &mut SyncRound<H>, completion: AppendCompletion<H>)
        requires
            old(self).deferred is None,
        ensures
            final(self).dir == old(self).dir,
            final(self).wait_for_sync == old(self).wait_for_sync,
            final(self).previous_active == old(self).previous_active,
            final(round).advanced == old(round).advanced,
            final(round).segments == old(round).segments,
            final(round).sync_directory == old(round).sync_directory,
            final(round).gathered(final(self)) == with_one(
                old(round).gathered(old(self)),
                old(round).advanced,
                completion,
            ),
    {
        if completion.sequence <= round.advanced {
            round.completions.push_back(completion);
        } else {
            self.deferred = Some(completion);
        }
    }

    /// Says what callers are told before anything is made durable: where they
    /// do not wait for that, all of the round are told success and leave it.
    pub fn answer_early(&self, round: &mut SyncRound<H>) -> (outcomes: Vec<Outcome<H>>)
        ensures
            final(round).advanced == old(round).advanced,
            final(round).segments == old(round).segments,
            final(round).sync_directory == old(round).sync_directory,
            if self.wait_for_sync {
                &&& outcomes@.len() == 0
                &&& final(round).completions@ == old(round).completions@
            } else {
                &&& told_success(old(round).completions@, outcomes@)
                &&& final(round).completions@.len() == 0
            },
    {
        if self.wait_for_sync {
            return Vec::new();
        }
        let mut taken: VecDeque<AppendCompletion<H>> = VecDeque::new();
        taken.append(&mut round.completions);
        assert(taken@ =~= old(round).completions@);
        tell_success(taken)
    }

    /// Makes the round's segments durable and says what the callers that are
    /// left in it are told. They are told success only once every segment of
    /// the round is durable. After a failure nothing is left waiting.
    pub fn finish<V: Vfs>(&mut self, vfs: &mut V, round: SyncRound<H>) -> (outcome: RoundOutcome<H>)
        requires
            numbered_files(round.segments@),
            forall|i: int|
                0 <= i < round.segments@.len() ==> old(vfs).state().holds(&(#[trigger] round.segments@[i]).file),
        ensures
            final(self).dir == old(self).dir,
            final(self).wait_for_sync == old(self).wait_for_sync,
            final(self).previous_active == old(self).previous_active,
            final(vfs).state() == old(vfs).state(),
            final(vfs).dependable() == old(vfs).dependable(),
            final(vfs).journal().advances(old(vfs).journal(), old(vfs).state()),
            match outcome.failure {
                None => {
                    &&& all_durable(final(vfs), round.segments@)
                    &&& round.sync_directory ==> final(vfs).journal().names.contains_key(old(self).dir@)
                        && final(vfs).journal().names[old(self).dir@] == old(vfs).state().names
                    &&& final(self).deferred == old(self).deferred
                    &&& told_success(round.completions@, outcome.outcomes@)
                },
                Some(error) => {
                    &&& error is Io
                    &&& old(vfs).dependable() ==> round.sync_directory && !old(vfs).state().directories.contains(
                        old(self).dir@,
                    )
                    &&& final(self).deferred is None
                    &&& told_failure(round.completions@ + one_or_none(old(self).deferred), error@, outcome.outcomes@)
                },
            },
    {
        let SyncRound { advanced, segments, sync_directory, completions } = round;
        let mut waiting: VecDeque<AppendCompletion<H>> = completions;
        match perform_sync(vfs, segments.as_slice(), sync_directory, self.dir.as_str()) {
            Ok(()) => RoundOutcome { outcomes: tell_success(waiting), failure: None },
            Err(error) => {
                let ghost before = waiting@;
                if let Some(completion) = self.deferred.take() {
                    waiting.push_back(completion);
                    assert(waiting@ =~= before + seq![completion]);
                } else {
                    assert(waiting@ =~= before + Seq::<AppendCompletion<H>>::empty());
                }
                RoundOutcome { outcomes: tell_failure(waiting, &error), failure: Some(error) }
            },
        }
    }
}

/// The number of the active segment, if there is one.
pub open spec fn active_number(active: Option<SegmentSyncHandle>) -> Option<u64> {
    match active {
        Some(segment) => Some(segment.number),
        None => None,
    }
}

/// What a round holds once completions have arrived.
pub open spec fn gathered_from<H>(
    deferred: Option<AppendCompletion<H>>,
    advanced: u64,
    arrived: Seq<AppendCompletion<H>>,
) -> Gathered<H>
    decreases arrived.len(),
{
    if arrived.len() == 0 {
        started_with(deferred, advanced)
    } else {
        with_one(gathered_from(deferred, advanced, arrived.drop_last()), advanced, arrived.last())
    }
}

/// Whether a round takes the completions: none is taken while one waits.
pub open spec fn takes_all<H>(
    deferred: Option<AppendCompletion<H>>,
    advanced: u64,
    arrived: Seq<AppendCompletion<H>>,
) -> bool
    decreases arrived.len(),
{
    arrived.len() > 0 ==> {
        &&& takes_all(deferred, advanced, arrived.drop_last())
        &&& gathered_from(deferred, advanced, arrived.drop_last()).deferred is None
    }
}

/// A round as its callers see it: what arrived, what they were told before and
/// after segments were made durable, and what it left waiting.
pub struct Telling<H> {
    pub deferred: Option<AppendCompletion<H>>,
    pub advanced: u64,
    pub arrived: Seq<AppendCompletion<H>>,
    pub early: Seq<Outcome<H>>,
    pub late: Seq<Outcome<H>>,
    pub failure: Option<WalErrorView>,
    pub left: Option<AppendCompletion<H>>,
}

/// Whether a syncer goes through the round.
pub open spec fn is_round<H>(telling: Telling<H>, wait_for_sync: bool) -> bool {
    let gathered = gathered_from(telling.deferred, telling.advanced, telling.arrived);
    let held = if wait_for_sync {
        gathered.completions
    } else {
        Seq::empty()
    };
    &&& takes_all(telling.deferred, telling.advanced, telling.arrived)
    &&& if wait_for_sync {
        telling.early.len() == 0
    } else {
        told_success(gathered.completions, telling.early)
    }
    &&& match telling.failure {
        None => told_success(held, telling.late) && telling.left == gathered.deferred,
        Some(error) => told_failure(held + one_or_none(gathered.deferred), error, telling.late) && telling.left is None,
    }
}

/// The handles of completions, in order.
pub open spec fn handles_of<H>(completions: Seq<AppendCompletion<H>>) -> Seq<H> {
    completions.map_values(|completion: AppendCompletion<H>| completion.handle)
}

/// The handles of those that a round told something, in order.
pub open spec fn told_in<H>(telling: Telling<H>) -> Seq<H> {
    (telling.early + telling.late).map_values(|outcome: Outcome<H>| outcome.handle)
}

/// What arrives is told or waits, in the order in which it arrived. What is
/// told was announced.
proof fn nothing_is_lost<H>(deferred: Option<AppendCompletion<H>>, advanced: u64, arrived: Seq<AppendCompletion<H>>)
    requires
        takes_all(deferred, advanced, arrived),
    ensures
        ({
            let gathered = gathered_from(deferred, advanced, arrived);
            &&& gathered.completions + one_or_none(gathered.deferred) == one_or_none(deferred) + arrived
            &&& forall|i: int|
                0 <= i < gathered.completions.len() ==> (#[trigger] gathered.completions[i]).sequence <= advanced
        }),
    decreases arrived.len(),
{
    let gathered = gathered_from(deferred, advanced, arrived);
    if arrived.len() == 0 {
        assert(gathered.completions + one_or_none(gathered.deferred) =~= one_or_none(deferred) + arrived);
    } else {
        let before = gathered_from(deferred, advanced, arrived.drop_last());
        nothing_is_lost(deferred, advanced, arrived.drop_last());
        assert(before.completions + one_or_none(before.deferred) =~= before.completions);
        assert(gathered.completions + one_or_none(gathered.deferred) =~= before.completions.push(arrived.last()));
        assert(before.completions.push(arrived.last()) =~= one_or_none(deferred) + arrived);
    }
}

/// A round tells every completion that it does not leave waiting, once and in
/// the order in which they arrived. Whoever is told success is told their own
/// sequence, which was announced.
pub proof fn round_tells_in_order<H>(telling: Telling<H>, wait_for_sync: bool)
    requires
        is_round(telling, wait_for_sync),
    ensures
        ({
            let due = one_or_none(telling.deferred) + telling.arrived;
            let told = telling.early + telling.late;
            &&& told_in(telling) + handles_of(one_or_none(telling.left)) == handles_of(due)
            &&& forall|i: int|
                0 <= i < told.len() ==> {
                    &&& (#[trigger] told[i]).handle == due[i].handle
                    &&& told[i].result matches Ok(sequence) ==> sequence == due[i].sequence && sequence
                        <= telling.advanced
                    &&& told[i].result matches Err(error) ==> telling.failure == Some(error@)
                }
        }),
{
    let due = one_or_none(telling.deferred) + telling.arrived;
    let gathered = gathered_from(telling.deferred, telling.advanced, telling.arrived);
    let told = telling.early + telling.late;
    nothing_is_lost(telling.deferred, telling.advanced, telling.arrived);
    assert forall|i: int| 0 <= i < told.len() implies {
        &&& (#[trigger] told[i]).handle == due[i].handle
        &&& told[i].result matches Ok(sequence) ==> sequence == due[i].sequence && sequence <= telling.advanced
        &&& told[i].result matches Err(error) ==> telling.failure == Some(error@)
    } by {
        assert(due[i] == (gathered.completions + one_or_none(gathered.deferred))[i]);
        if i < gathered.completions.len() {
            assert(due[i] == gathered.completions[i]);
        }
        if i < telling.early.len() {
            assert(told[i] == telling.early[i]);
        } else {
            assert(told[i] == telling.late[i - telling.early.len()]);
        }
    }
    assert(told_in(telling) + handles_of(one_or_none(telling.left)) =~= handles_of(due));
}

/// The handles of all completions that arrive in the rounds.
pub open spec fn arriving<H>(rounds: Seq<Telling<H>>) -> Seq<H>
    decreases rounds.len(),
{
    if rounds.len() == 0 {
        Seq::empty()
    } else {
        arriving(rounds.drop_last()) + handles_of(rounds.last().arrived)
    }
}

/// The handles of all those that the rounds told something.
pub open spec fn told_by_all<H>(rounds: Seq<Telling<H>>) -> Seq<H>
    decreases rounds.len(),
{
    if rounds.len() == 0 {
        Seq::empty()
    } else {
        told_by_all(rounds.drop_last()) + told_in(rounds.last())
    }
}

/// Whether a syncer that has just started goes through the rounds.
pub open spec fn are_rounds<H>(rounds: Seq<Telling<H>>, wait_for_sync: bool) -> bool {
    &&& rounds.len() > 0 ==> rounds[0].deferred is None
    &&& forall|i: int| 0 <= i < rounds.len() ==> is_round(#[trigger] rounds[i], wait_for_sync)
    &&& forall|i: int| 0 < i < rounds.len() ==> (#[trigger] rounds[i]).deferred == rounds[i - 1].left
}

/// Over all its rounds a syncer tells every completion once, in the order in
/// which they arrived, but for the one that still waits to be announced.
pub proof fn every_completion_is_told_once<H>(rounds: Seq<Telling<H>>, wait_for_sync: bool)
    requires
        are_rounds(rounds, wait_for_sync),
        rounds.len() > 0,
    ensures
        told_by_all(rounds) + handles_of(one_or_none(rounds.last().left)) == arriving(rounds),
    decreases rounds.len(),
{
    let last = rounds.len() - 1;
    let front = rounds.drop_last();
    let telling = rounds[last];
    assert(is_round(telling, wait_for_sync));
    round_tells_in_order(telling, wait_for_sync);
    let due = one_or_none(telling.deferred) + telling.arrived;
    let waiting = handles_of(one_or_none(telling.left));
    assert(handles_of(due) =~= handles_of(one_or_none(telling.deferred)) + handles_of(telling.arrived));
    if last == 0 {
        assert(told_by_all(front) =~= Seq::empty());
        assert(arriving(front) =~= Seq::empty());
        assert(told_by_all(rounds) + waiting =~= arriving(rounds));
    } else {
        assert forall|i: int| 0 <= i < front.len() implies is_round(#[trigger] front[i], wait_for_sync) by {
            assert(front[i] == rounds[i]);
        }
        assert forall|i: int| 0 < i < front.len() implies (#[trigger] front[i]).deferred == front[i - 1].left by {
            assert(front[i] == rounds[i]);
        }
        every_completion_is_told_once(front, wait_for_sync);
        assert(telling.deferred == front.last().left);
        assert(told_by_all(front) + told_in(telling) + waiting =~= told_by_all(front) + (told_in(telling) + waiting));
        assert(told_by_all(rounds) + waiting =~= arriving(rounds));
    }
}

/// A group of requests asks for what all its requests ask for: the segments and
/// completions of each, in order, and the directory or the end where one of them
/// asks for it.
pub proof fn group_asks_for_all<H>(operations: Seq<SyncOperation<H>>, request: SyncOp<H>)
    ensures
        ({
            let longer = operations.push(SyncOperation::Sync(request));
            let closed = operations.push(SyncOperation::Close);
            let none = Seq::<SyncOperation<H>>::empty();
            &&& grouped_segments(none).len() == 0 && grouped_completions(none).len() == 0
            &&& !grouped_directory(none) && !grouped_close(none)
            &&& grouped_segments(longer) == grouped_segments(operations) + request.segments@
            &&& grouped_completions(longer) == grouped_completions(operations) + one_or_none(request.completion)
            &&& grouped_directory(longer) == (grouped_directory(operations) || request.sync_directory)
            &&& grouped_close(longer) == grouped_close(operations)
            &&& grouped_segments(closed) == grouped_segments(operations)
            &&& grouped_completions(closed) == grouped_completions(operations)
            &&& grouped_directory(closed) == grouped_directory(operations)
            &&& grouped_close(closed)
        }),
{
    let longer = operations.push(SyncOperation::Sync(request));
    let closed = operations.push(SyncOperation::Close);
    assert(longer.drop_last() =~= operations);
    assert(closed.drop_last() =~= operations);
    assert(grouped_completions(longer) =~= grouped_completions(operations) + one_or_none(request.completion));
}

/// Whoever is told success is told its own sequence, and whoever is told a
/// failure the failure of the sync, in the order of their completions.
pub proof fn outcomes_are_for_their_completions<H>(
    completions: Seq<AppendCompletion<H>>,
    error: WalErrorView,
    outcomes: Seq<Outcome<H>>,
    at: int,
)
    requires
        0 <= at < completions.len(),
    ensures
        told_success(completions, outcomes) ==> outcomes.len() == completions.len() && outcomes[at].handle
            == completions[at].handle && outcomes[at].result is Ok && outcomes[at].result->Ok_0
            == completions[at].sequence,
        told_failure(completions, error, outcomes) ==> outcomes.len() == completions.len() && outcomes[at].handle
            == completions[at].handle && outcomes[at].result is Err && outcomes[at].result->Err_0@ == error,
{
}

/// A sync that succeeds leaves the bytes of each segment durable, as they were
/// when it was made.
pub proof fn synced_segments_are_durable<V: Vfs>(vfs: &V, segments: Seq<SegmentSyncHandle>, at: int)
    requires
        all_durable(vfs, segments),
        0 <= at < segments.len(),
    ensures
        vfs.journal().files.contains_key(segments[at].file.id),
        vfs.journal().files[segments[at].file.id] == vfs.state().data[segments[at].file.id],
{
    assert(vfs.journal().files.contains_key(segments[at].file.id));
}

/// A round tells only callers whose sequence was announced. A completion waits
/// only where its sequence was not.
pub proof fn callers_wait_for_their_announcement<H>(
    deferred: Option<AppendCompletion<H>>,
    advanced: u64,
    arrived: Seq<AppendCompletion<H>>,
    at: int,
)
    ensures
        ({
            let gathered = gathered_from(deferred, advanced, arrived);
            &&& 0 <= at < gathered.completions.len() ==> gathered.completions[at].sequence <= advanced
            &&& gathered.deferred matches Some(waiting) ==> advanced < waiting.sequence
        }),
    decreases arrived.len(),
{
    if arrived.len() > 0 {
        callers_wait_for_their_announcement(deferred, advanced, arrived.drop_last(), at);
    }
}

} // verus!
