//! When a log accepts appends, and how it starts and closes.

use vstd::prelude::*;
use crate::vfs::{IoError, Vfs};
use crate::wal::error::{WalError, WalErrorView};
use crate::wal::history;
use crate::wal::recovery;
use crate::wal::recovery::RecoveredState;
use crate::wal::writer;
use crate::wal::writer::{AppendOp, Operation, PendingAppend, WriterLoop};

verus! {

/// Maximum number of appends buffered while the writer is busy.
pub const MAX_INFLIGHT_APPEND_NUM: usize = 4096;

/// Maximum number of written batches waiting behind the active publisher.
pub const MAX_PENDING_PUBLISH_BATCH_NUM: usize = 1;

/// Whether the log still accepts appends.
#[derive(Debug, Clone, Copy, PartialEq, Eq, Structural)]
pub enum Lifecycle {
    /// The log is open and accepts appends.
    Running,
    /// Close has begun and new appends are rejected.
    Closing,
    /// All owned workers and components have been closed.
    Closed,
}

/// What the writer's queue did with an append.
#[derive(Debug, Clone, Copy, PartialEq, Eq, Structural)]
pub enum QueueReply {
    Taken,
    Full,
    Closed,
}

impl Lifecycle {
    /// Why no append may be handed to the writer.
    pub open spec fn refusal(self) -> Option<WalErrorView> {
        if self == Lifecycle::Running {
            None
        } else {
            Some(WalErrorView::Closed)
        }
    }

    /// What it is once close has begun.
    pub open spec fn closing(self) -> Lifecycle {
        if self == Lifecycle::Closed {
            Lifecycle::Closed
        } else {
            Lifecycle::Closing
        }
    }

    /// Whether an append may be handed to the writer.
    pub fn accepts(self) -> (result: Result<(), WalError>)
        ensures
            match result {
                Ok(()) => self.refusal() is None,
                Err(error) => self.refusal() == Some(error@),
            },
    {
        if self == Lifecycle::Running {
            Ok(())
        } else {
            Err(WalError::Closed)
        }
    }

    /// Begins to close, and says whether there is anything to close.
    pub fn begin_close(&mut self) -> (begun: bool)
        ensures
            begun == (*old(self) != Lifecycle::Closed),
            *final(self) == old(self).closing(),
    {
        if *self == Lifecycle::Closed {
            return false;
        }
        *self = Lifecycle::Closing;
        true
    }

    /// Ends the close.
    pub fn finish_close(&mut self)
        ensures
            *final(self) == Lifecycle::Closed,
    {
        *self = Lifecycle::Closed;
    }
}

impl QueueReply {
    /// Why the queue did not take an append.
    pub open spec fn refusal(self) -> Option<WalErrorView> {
        match self {
            QueueReply::Taken => None,
            QueueReply::Full => Some(WalErrorView::QueueFull),
            QueueReply::Closed => Some(WalErrorView::Closed),
        }
    }
}

/// What a caller is told when the queue does not take an append.
pub fn queue_outcome(reply: QueueReply) -> (result: Result<(), WalError>)
    ensures
        match result {
            Ok(()) => reply.refusal() is None,
            Err(error) => reply.refusal() == Some(error@),
        },
{
    match reply {
        QueueReply::Taken => Ok(()),
        QueueReply::Full => Err(WalError::QueueFull),
        QueueReply::Closed => Err(WalError::Closed),
    }
}

/// What came of the attempt to lock a log directory.
pub enum LockReply {
    Taken,
    HeldElsewhere,
    Failed(IoError),
}

/// What opening a log came to.
pub enum Opened {
    /// The log starts with this writer, and keeps the lock.
    Started(WriterLoop),
    /// The log does not start. A lock that was taken is given back.
    Refused { error: WalError, release_lock: bool },
}

/// Whether a writer starts with what a recovery found.
pub open spec fn starts_with<V: Vfs>(before: &V, after: &V, dir: Seq<char>, writer: WriterLoop) -> bool {
    &&& recovery::is_recovery(
        before,
        after,
        dir,
        Ok(
            RecoveredState {
                next_sequence: writer.next_sequence,
                next_segment_number: writer.next_segment_number,
                active_segment: writer.active_segment,
            },
        ),
    )
    &&& writer.dir@ == dir
    &&& writer.dirty_segments@.len() == 0
    &&& !writer.directory_dirty
}

/// Whether a log that starts has the lock, and one that does not gives a lock
/// back that was taken for it.
pub open spec fn minds_the_lock(reply: LockReply, opened: Opened) -> bool {
    match opened {
        Opened::Started(_) => reply is Taken,
        Opened::Refused { release_lock, .. } => release_lock == (reply is Taken),
    }
}

/// Opens the log in a directory: nothing is read before the lock is taken, and
/// a log that cannot be recovered does not keep it.
pub fn open_locked<V: Vfs>(vfs: &mut V, dir: &str, reply: LockReply) -> (opened: Opened)
    ensures
        final(vfs).dependable() == old(vfs).dependable(),
        !(reply is Taken) ==> final(vfs).state() == old(vfs).state() && final(vfs).journal() == old(vfs).journal(),
        minds_the_lock(reply, opened),
        match (reply, opened) {
            (LockReply::Taken, Opened::Started(writer)) => starts_with(old(vfs), final(vfs), dir@, writer),
            (LockReply::Taken, Opened::Refused { error, .. }) => recovery::is_recovery(
                old(vfs),
                final(vfs),
                dir@,
                Err(error),
            ),
            (LockReply::HeldElsewhere, Opened::Refused { error, .. }) => error@ == WalErrorView::Locked(dir@),
            (LockReply::Failed(failure), Opened::Refused { error, .. }) => error@ == WalErrorView::Io(failure.message@),
            _ => false,
        },
{
    match reply {
        LockReply::Taken => match recovery::recover_state(vfs, dir) {
            Ok(recovered) => Opened::Started(WriterLoop::new(String::from_str(dir), recovered)),
            Err(error) => Opened::Refused { error, release_lock: true },
        },
        LockReply::HeldElsewhere => Opened::Refused {
            error: WalError::Locked(String::from_str(dir)),
            release_lock: false,
        },
        LockReply::Failed(error) => Opened::Refused { error: WalError::io(error), release_lock: false },
    }
}

/// What is said of a worker that panicked: its own words, where it left any.
pub fn panic_message(words: Option<String>) -> (message: String)
    ensures
        message@ == (match words {
            Some(words) => words@,
            None => "WAL worker thread panicked"@,
        }),
{
    match words {
        Some(words) => words,
        None => String::from_str("WAL worker thread panicked"),
    }
}

/// What is reported when the writer ends before it has started.
pub fn startup_error(panicked: Option<String>) -> (error: WalError)
    ensures
        error@ == WalErrorView::Worker(
            match panicked {
                Some(message) => message@,
                None => "WAL writer thread stopped during startup"@,
            },
        ),
{
    match panicked {
        Some(message) => WalError::Worker(message),
        None => WalError::Worker(String::from_str("WAL writer thread stopped during startup")),
    }
}

/// What callers ask of a log, one call after another.
pub enum Call<H> {
    /// An append, and what the queue would do with it.
    Append { operation: AppendOp<H>, reply: QueueReply },
    /// The log begins to close.
    BeginClose,
    /// The close ends.
    FinishClose,
}

/// A log as its callers see it: whether it accepts appends, and what it has
/// handed to the writer.
pub struct Front<H> {
    pub lifecycle: Lifecycle,
    pub queue: Seq<Operation<H>>,
}

/// A log that has just started.
pub open spec fn started<H>() -> Front<H> {
    Front { lifecycle: Lifecycle::Running, queue: Seq::empty() }
}

/// Why an append is refused: the log closes or is closed, or else the queue
/// does not take it.
pub open spec fn refusal(lifecycle: Lifecycle, reply: QueueReply) -> Option<WalErrorView> {
    match lifecycle.refusal() {
        Some(error) => Some(error),
        None => reply.refusal(),
    }
}

/// What a call leaves. One that begins to close hands the close to the writer.
pub open spec fn after_call<H>(front: Front<H>, call: Call<H>) -> Front<H> {
    match call {
        Call::Append { operation, reply } => if refusal(front.lifecycle, reply) is None {
            Front { queue: front.queue.push(Operation::Append(operation)), ..front }
        } else {
            front
        },
        Call::BeginClose => Front {
            lifecycle: front.lifecycle.closing(),
            queue: if front.lifecycle == Lifecycle::Closed {
                front.queue
            } else {
                front.queue.push(Operation::Close)
            },
        },
        Call::FinishClose => Front { lifecycle: Lifecycle::Closed, ..front },
    }
}

/// What the calls leave of a log that has just started.
pub open spec fn after_calls<H>(calls: Seq<Call<H>>) -> Front<H>
    decreases calls.len(),
{
    if calls.len() == 0 {
        started()
    } else {
        after_call(after_calls(calls.drop_last()), calls.last())
    }
}

/// Whether one of the calls closes the log.
pub open spec fn is_closed_by<H>(calls: Seq<Call<H>>) -> bool {
    exists|i: int| 0 <= i < calls.len() && !(#[trigger] calls[i] is Append)
}

/// The appends that come before every close and that the queue took, in order.
pub open spec fn accepted<H>(calls: Seq<Call<H>>) -> Seq<AppendOp<H>>
    decreases calls.len(),
{
    if calls.len() == 0 {
        Seq::empty()
    } else {
        let before = accepted(calls.drop_last());
        match calls.last() {
            Call::Append { operation, reply } => if !is_closed_by(calls.drop_last()) && reply is Taken {
                before.push(operation)
            } else {
                before
            },
            _ => before,
        }
    }
}

/// Whether no append stands behind a close.
pub open spec fn ends_with_closes<H>(queue: Seq<Operation<H>>) -> bool {
    forall|i: int, j: int| 0 <= i < j < queue.len() && #[trigger] queue[i] is Close ==> #[trigger] queue[j] is Close
}

proof fn close_is_by_one_call<H>(calls: Seq<Call<H>>)
    requires
        calls.len() > 0,
    ensures
        is_closed_by(calls) == (is_closed_by(calls.drop_last()) || !(calls.last() is Append)),
{
    let front = calls.drop_last();
    if is_closed_by(front) {
        let i = choose|i: int| 0 <= i < front.len() && !(#[trigger] front[i] is Append);
        assert(calls[i] == front[i]);
    }
    if is_closed_by(calls) && calls.last() is Append {
        let i = choose|i: int| 0 <= i < calls.len() && !(#[trigger] calls[i] is Append);
        assert(front[i] == calls[i]);
    }
}

/// However appends race with the close of a log, those that come before it and
/// that the queue takes are handed to the writer, in order and ahead of the
/// close, and no others are.
pub proof fn accepted_appends_go_ahead_of_the_close<H>(calls: Seq<Call<H>>)
    ensures
        ({
            let front = after_calls(calls);
            &&& front.lifecycle == Lifecycle::Running <==> !is_closed_by(calls)
            &&& writer::appends_of(front.queue) == accepted(calls)
            &&& ends_with_closes(front.queue)
            &&& writer::closes(front.queue) ==> is_closed_by(calls)
        }),
    decreases calls.len(),
{
    if calls.len() > 0 {
        let before = after_calls(calls.drop_last());
        let front = after_calls(calls);
        accepted_appends_go_ahead_of_the_close(calls.drop_last());
        close_is_by_one_call(calls);
        if front.queue.len() > before.queue.len() {
            assert(front.queue.drop_last() =~= before.queue);
            if front.queue.last() is Append {
                assert forall|i: int| 0 <= i < before.queue.len() implies !(#[trigger] before.queue[i] is Close) by {
                    if before.queue[i] is Close {
                        assert(writer::closes(before.queue));
                    }
                }
            }
            assert forall|i: int, j: int|
                0 <= i < j < front.queue.len() && #[trigger] front.queue[i] is Close implies #[trigger] front.queue[j] is Close by {
                assert(before.queue[i] == front.queue[i]);
                if j < before.queue.len() {
                    assert(before.queue[j] == front.queue[j]);
                }
            }
            if writer::closes(front.queue) && !(front.queue.last() is Close) {
                let i = choose|i: int| 0 <= i < front.queue.len() && #[trigger] front.queue[i] is Close;
                assert(before.queue[i] is Close);
            }
        }
    } else {
        assert(writer::appends_of(Seq::<Operation<H>>::empty()) =~= Seq::empty());
    }
}

/// An append that comes after a close has begun is told that the log is closed,
/// whatever the queue would do. One before it is told what the queue does.
pub proof fn late_appends_are_refused<H>(calls: Seq<Call<H>>, reply: QueueReply)
    ensures
        refusal(after_calls(calls).lifecycle, reply) == (if is_closed_by(calls) {
            Some(WalErrorView::Closed)
        } else {
            reply.refusal()
        }),
{
    accepted_appends_go_ahead_of_the_close(calls);
}

/// To close a log that is closed changes nothing.
pub proof fn closing_twice_is_closing_once<H>(calls: Seq<Call<H>>)
    ensures
        ({
            let closed = after_call(after_calls(calls), Call::FinishClose);
            &&& after_call(closed, Call::BeginClose) == closed
            &&& after_call(closed, Call::FinishClose) == closed
        }),
{
}

proof fn appends_in_parts<H>(operations: Seq<Operation<H>>, more: Seq<Operation<H>>)
    ensures
        writer::appends_of(operations + more) == writer::appends_of(operations) + writer::appends_of(more),
    decreases more.len(),
{
    let all = operations + more;
    if more.len() == 0 {
        assert(all =~= operations);
        assert(writer::appends_of(operations) + writer::appends_of(more) =~= writer::appends_of(operations));
    } else {
        appends_in_parts(operations, more.drop_last());
        assert(all.drop_last() =~= operations + more.drop_last());
        assert(writer::appends_of(all) =~= writer::appends_of(operations) + writer::appends_of(more));
    }
}

/// The appends of each batch of operations.
pub open spec fn appends_by_batch<H>(received: Seq<Seq<Operation<H>>>) -> Seq<Seq<AppendOp<H>>> {
    received.map_values(|operations: Seq<Operation<H>>| writer::appends_of(operations))
}

/// The batches hold the appends of all operations, in order.
pub proof fn batches_hold_the_appends<H>(received: Seq<Seq<Operation<H>>>)
    ensures
        appends_by_batch(received).flatten() == writer::appends_of(received.flatten()),
    decreases received.len(),
{
    let parts = appends_by_batch(received);
    if received.len() == 0 {
        assert(writer::appends_of(received.flatten()) =~= Seq::empty());
    } else {
        batches_hold_the_appends(received.skip(1));
        assert(received.drop_first() =~= received.skip(1));
        assert(parts.drop_first() =~= appends_by_batch(received.skip(1)));
        appends_in_parts(received[0], received.skip(1).flatten());
    }
}

/// However appends race with the close of a log, and however the writer comes
/// to batch them, each one that was accepted gets a sequence: the one that lies
/// as far from the first as the append lies from the first that was accepted.
pub proof fn accepted_appends_are_numbered_in_order<H>(
    calls: Seq<Call<H>>,
    received: Seq<Seq<Operation<H>>>,
    batches: Seq<Seq<PendingAppend<H>>>,
    first: int,
)
    requires
        received.flatten() == after_calls(calls).queue,
        history::numbered_in_turn(batches, appends_by_batch(received), first),
    ensures
        writer::numbered(batches.flatten(), first, accepted(calls)),
{
    accepted_appends_go_ahead_of_the_close(calls);
    batches_hold_the_appends(received);
    history::queue_order_is_sequence_order(batches, appends_by_batch(received), first);
}

/// What happens to the lock of a directory.
pub enum Tenure {
    /// A log is opened there, with what came of the attempt to lock it.
    Open { reply: LockReply, opened: Opened },
    /// A log that started there ends, and gives the lock back.
    End,
}

/// Whether the lock is held after what happened to it.
pub open spec fn is_held(events: Seq<Tenure>) -> bool
    decreases events.len(),
{
    if events.len() == 0 {
        false
    } else {
        match events.last() {
            Tenure::Open { reply, opened } => if reply is Taken {
                !(opened matches Opened::Refused { release_lock: true, .. })
            } else {
                is_held(events.drop_last())
            },
            Tenure::End => false,
        }
    }
}

/// How many logs have started there and not ended.
pub open spec fn running(events: Seq<Tenure>) -> int
    decreases events.len(),
{
    if events.len() == 0 {
        0
    } else {
        running(events.drop_last()) + match events.last() {
            Tenure::Open { opened: Opened::Started(_), .. } => 1int,
            Tenure::Open { .. } => 0,
            Tenure::End => -1,
        }
    }
}

/// Whether the lock is only taken while nobody holds it, only a log that runs
/// ends, and every log minds the lock.
pub open spec fn is_locking(events: Seq<Tenure>) -> bool
    decreases events.len(),
{
    events.len() > 0 ==> {
        let before = events.drop_last();
        &&& is_locking(before)
        &&& match events.last() {
            Tenure::Open { reply, opened } => {
                &&& minds_the_lock(reply, opened)
                &&& reply is Taken ==> !is_held(before)
            },
            Tenure::End => running(before) > 0,
        }
    }
}

/// Over any number of opens, one log at most runs in a directory, and the lock
/// is held while it runs and no longer: an open that fails leaves it as it was.
pub proof fn one_log_runs_in_a_directory(events: Seq<Tenure>)
    requires
        is_locking(events),
    ensures
        running(events) == (if is_held(events) {
            1int
        } else {
            0
        }),
    decreases events.len(),
{
    if events.len() > 0 {
        one_log_runs_in_a_directory(events.drop_last());
    }
}

/// A log that starts goes on where its recovery ended, and has nothing left to
/// make durable.
pub proof fn started_log_goes_on_from_its_recovery<V: Vfs>(before: &V, after: &V, dir: Seq<char>, writer: WriterLoop)
    requires
        starts_with(before, after, dir, writer),
    ensures
        writer.dir@ == dir,
        writer.dirty_segments@.len() == 0,
        !writer.directory_dirty,
        recovery::segment_numbers(before.state().names, dir).len() == 0 ==> writer.active_segment is None
            && writer.next_segment_number == 1,
        recovery::segment_numbers(before.state().names, dir).len() > 0 ==> {
            &&& writer.active_segment is Some
            &&& writer.active_segment->0.number + 1 == writer.next_segment_number
        },
{
}

} // verus!
