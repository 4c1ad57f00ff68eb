//! What a run of the writer does for its callers.

use vstd::prelude::*;
use crate::vfs::{FsState, Vfs};
use crate::wal::delivery;
use crate::wal::delivery::{Delivery, DeliveryAction, DeliveryEvent, Stage};
use crate::wal::error::WalErrorView;
use crate::wal::history;
use crate::wal::lifecycle;
use crate::wal::lifecycle::Call;
use crate::wal::syncer::AppendCompletion;
use crate::wal::writer;
use crate::wal::writer::{AppendOp, Operation, PendingAppend, WriterLoop};

verus! {

/// One step of a batch: what it started from, what it was told, what it asked
/// for and where it led.
pub struct Step<V, H> {
    pub before: Delivery<H>,
    pub earlier: WriterLoop,
    pub system: V,
    pub event: DeliveryEvent<H>,
    pub action: DeliveryAction<H>,
    pub after: Delivery<H>,
    pub writer: WriterLoop,
    pub vfs: V,
}

/// Whether a delivery takes the step.
pub open spec fn is_taken<V: Vfs, H>(step: Step<V, H>) -> bool {
    &&& step.before.valid()
    &&& step.before.expects(step.event)
    &&& step.after.follows(
        &step.writer,
        &step.vfs,
        &step.before,
        &step.earlier,
        &step.system,
        step.event,
        step.action,
    )
}

/// Whether a writer writes on where another one stands.
pub open spec fn stands_alike(writer: &WriterLoop, other: &WriterLoop) -> bool {
    &&& writer.dir == other.dir
    &&& writer.next_segment_number == other.next_segment_number
    &&& writer.active_segment == other.active_segment
}

/// Whether a completion that comes back with an event is the one that the
/// action handed out.
pub open spec fn answers<H>(event: DeliveryEvent<H>, action: DeliveryAction<H>) -> bool {
    match event {
        DeliveryEvent::Full(completion) | DeliveryEvent::Closed(completion) => {
            ||| action == DeliveryAction::Offer(completion)
            ||| action == DeliveryAction::Hand(completion)
        },
        _ => true,
    }
}

/// Whether a step follows another one. In between, segments may be made
/// durable: nothing that is written changes.
pub open spec fn goes_on<V: Vfs, H>(step: Step<V, H>, next: Step<V, H>) -> bool {
    &&& next.before == step.after
    &&& stands_alike(&next.earlier, &step.writer)
    &&& next.system.state() == step.vfs.state()
    &&& answers(next.event, step.action)
}

/// Whether a batch takes the steps, one after another, from the first on.
pub open spec fn is_run<V: Vfs, H>(steps: Seq<Step<V, H>>) -> bool {
    &&& steps.len() > 0
    &&& steps[0].before.stage is Writing
    &&& forall|i: int| 0 <= i < steps.len() ==> is_taken(#[trigger] steps[i])
    &&& forall|i: int| 0 < i < steps.len() ==> goes_on(steps[i - 1], #[trigger] steps[i])
}

/// The appends that the batch of a run starts with.
pub open spec fn batch_of<V, H>(steps: Seq<Step<V, H>>) -> Seq<PendingAppend<H>> {
    steps[0].before.batch.pending@
}

/// How many completions the steps offered.
pub open spec fn offered<V, H>(steps: Seq<Step<V, H>>) -> nat
    decreases steps.len(),
{
    if steps.len() == 0 {
        0
    } else {
        offered(steps.drop_last()) + (if steps.last().action is Offer {
            1nat
        } else {
            0
        })
    }
}

/// Whether a caller was told in one of the steps that its append failed.
pub open spec fn any_failed<V, H>(steps: Seq<Step<V, H>>) -> bool
    decreases steps.len(),
{
    steps.len() > 0 && (any_failed(steps.drop_last()) || steps.last().action is Fail)
}

/// The place in the batch of the append whose completion a step hands out: the
/// next one, or the last one again where it is offered once more.
pub open spec fn place<V, H>(steps: Seq<Step<V, H>>, i: int) -> int {
    offered(steps.take(i + 1)) - 1
}

/// The completion that a step hands out.
pub open spec fn completion_of<H>(action: DeliveryAction<H>) -> Option<AppendCompletion<H>> {
    match action {
        DeliveryAction::Offer(completion) | DeliveryAction::Hand(completion) => Some(completion),
        _ => None,
    }
}

/// The completion of an append.
pub open spec fn completes<H>(append: PendingAppend<H>) -> AppendCompletion<H> {
    AppendCompletion { sequence: append.sequence, handle: append.handle }
}

/// How many records are written whose completions were not handed out yet.
pub open spec fn written_ahead<H>(stage: Stage<H>) -> int {
    match stage {
        Stage::Delivering { left }
        | Stage::Offered { left, .. }
        | Stage::Announcing { left, .. }
        | Stage::Handed { left, .. } => left as int,
        _ => 0,
    }
}

/// Whether the log is the records of `base` and the first `count` of the
/// appends.
pub open spec fn log_is<H>(
    writer: &WriterLoop,
    state: FsState,
    numbers: Seq<u64>,
    written: Seq<Seq<Seq<u8>>>,
    base: Seq<Seq<u8>>,
    appends: Seq<PendingAppend<H>>,
    count: int,
) -> bool {
    &&& history::holds_log(writer, state, numbers, written)
    &&& 0 <= count <= appends.len()
    &&& written.flatten() == base + writer::records_of(appends).take(count)
}

/// How far a batch has come after a step, with `sent` completions offered.
spec fn has_come<V: Vfs, H>(
    step: Step<V, H>,
    appends: Seq<PendingAppend<H>>,
    sent: int,
    failed: bool,
    base: Seq<Seq<u8>>,
    numbers: Seq<u64>,
    written: Seq<Seq<Seq<u8>>>,
) -> bool {
    let state = step.vfs.state();
    let ahead = written_ahead(step.after.stage);
    match step.after.stage {
        Stage::Settled | Stage::Closing | Stage::Done => if failed {
            step.after.batch.stop_writer
        } else {
            &&& sent == appends.len()
            &&& log_is(&step.writer, state, numbers, written, base, appends, sent)
        },
        _ => {
            &&& !failed
            &&& 0 <= sent <= appends.len()
            &&& step.after.batch.pending@ == appends.skip(sent)
            &&& log_is(&step.writer, state, numbers, written, base, appends, sent + ahead)
            &&& match step.after.stage {
                Stage::Offered { sequence, .. } => {
                    &&& sent > 0
                    &&& sequence == appends[sent - 1].sequence
                    &&& step.action == DeliveryAction::Offer(completes(appends[sent - 1]))
                },
                Stage::Announcing { completion, .. } => {
                    &&& sent > 0
                    &&& completion == completes(appends[sent - 1])
                },
                Stage::Handed { sequence, .. } => {
                    &&& sent > 0
                    &&& sequence == appends[sent - 1].sequence
                    &&& step.action == DeliveryAction::Hand(completes(appends[sent - 1]))
                },
                _ => true,
            }
        },
    }
}

/// A writer that stands alike has the same log.
proof fn logs_alike(
    writer: &WriterLoop,
    other: &WriterLoop,
    state: FsState,
    numbers: Seq<u64>,
    written: Seq<Seq<Seq<u8>>>,
)
    requires
        history::holds_log(writer, state, numbers, written),
        stands_alike(other, writer),
    ensures
        history::holds_log(other, state, numbers, written),
{
}

/// A write takes the log further by the records that it wrote.
proof fn write_extends_the_log<V: Vfs, H>(
    step: Step<V, H>,
    appends: Seq<PendingAppend<H>>,
    sent: int,
    base: Seq<Seq<u8>>,
    numbers: Seq<u64>,
    written: Seq<Seq<Seq<u8>>>,
) -> (log: (Seq<u64>, Seq<Seq<Seq<u8>>>))
    requires
        is_taken(step),
        step.before.stage is Writing,
        step.before.batch.pending@ == appends.skip(sent),
        log_is(&step.earlier, step.system.state(), numbers, written, base, appends, sent),
    ensures
        has_come(step, appends, sent, step.action is Fail, base, log.0, log.1),
{
    let records = writer::records_of(appends.skip(sent));
    let all = writer::records_of(appends);
    assert(records =~= all.skip(sent));
    if let Stage::Delivering { left } = step.after.stage {
        history::written_records_extend_the_log(
            &step.earlier,
            &step.system,
            &step.writer,
            &step.vfs,
            numbers,
            written,
            records,
            left as int,
        );
        let fresh = step.earlier.is_fresh(records);
        let added = records.take(left as int);
        assert(base + all.take(sent) + added =~= base + all.take(sent + left));
        (
            history::longer_numbers(numbers, step.earlier.next_segment_number, fresh),
            history::longer(written, added, fresh),
        )
    } else {
        if step.action is Proceed {
            assert(appends.len() == sent);
        }
        (numbers, written)
    }
}

/// The steps bring a batch on: what is offered is the next append whose record
/// is written.
proof fn steps_bring_on<V: Vfs, H>(
    steps: Seq<Step<V, H>>,
    base: Seq<Seq<u8>>,
    numbers: Seq<u64>,
    written: Seq<Seq<Seq<u8>>>,
) -> (log: (Seq<u64>, Seq<Seq<Seq<u8>>>))
    requires
        is_run(steps),
        history::holds_log(&steps[0].earlier, steps[0].system.state(), numbers, written),
        written.flatten() == base,
    ensures
        has_come(
            steps.last(),
            batch_of(steps),
            offered(steps) as int,
            any_failed(steps),
            base,
            log.0,
            log.1,
        ),
    decreases steps.len(),
{
    let appends = batch_of(steps);
    let last = steps.len() - 1;
    let step = steps[last];
    assert(is_taken(step));
    reveal_with_fuel(offered, 2);
    reveal_with_fuel(any_failed, 2);
    if last == 0 {
        assert(appends.skip(0) =~= appends);
        assert(base + writer::records_of(appends).take(0) =~= base);
        write_extends_the_log(step, appends, 0, base, numbers, written)
    } else {
        let front = steps.drop_last();
        assert forall|i: int| 0 <= i < front.len() implies is_taken(#[trigger] front[i]) by {
            assert(front[i] == steps[i]);
        }
        assert forall|i: int| 0 < i < front.len() implies goes_on(front[i - 1], #[trigger] front[i]) by {
            assert(front[i] == steps[i]);
        }
        let (reached, held) = steps_bring_on(front, base, numbers, written);
        assert(goes_on(steps[last - 1], step));
        step_brings_on(
            steps[last - 1],
            step,
            appends,
            offered(front) as int,
            any_failed(front),
            base,
            reached,
            held,
        )
    }
}

proof fn step_brings_on<V: Vfs, H>(
    previous: Step<V, H>,
    step: Step<V, H>,
    appends: Seq<PendingAppend<H>>,
    sent: int,
    failed: bool,
    base: Seq<Seq<u8>>,
    numbers: Seq<u64>,
    written: Seq<Seq<Seq<u8>>>,
) -> (log: (Seq<u64>, Seq<Seq<Seq<u8>>>))
    requires
        is_taken(step),
        goes_on(previous, step),
        has_come(previous, appends, sent, failed, base, numbers, written),
    ensures
        has_come(
            step,
            appends,
            sent + (if step.action is Offer {
                1int
            } else {
                0
            }),
            failed || step.action is Fail,
            base,
            log.0,
            log.1,
        ),
{
    let state = step.system.state();
    if history::holds_log(&previous.writer, state, numbers, written) {
        logs_alike(&previous.writer, &step.earlier, state, numbers, written);
    }
    if step.before.stage is Writing {
        write_extends_the_log(step, appends, sent, base, numbers, written)
    } else {
        if step.action is Offer {
            assert(appends.skip(sent).skip(1) =~= appends.skip(sent + 1));
        }
        (numbers, written)
    }
}

/// Whether the log holds the record of the append at a place, after the records
/// of `base` and those of all appends before it.
pub open spec fn holds_record<H>(
    writer: &WriterLoop,
    state: FsState,
    base: Seq<Seq<u8>>,
    appends: Seq<PendingAppend<H>>,
    at: int,
) -> bool {
    exists|numbers: Seq<u64>, written: Seq<Seq<Seq<u8>>>, count: int| #[trigger]
        log_is(writer, state, numbers, written, base, appends, count) && at < count
}

/// Whether a step that hands a completion out hands out that of the append at a
/// place, whose record is in the log.
pub open spec fn serves<V: Vfs, H>(
    step: Step<V, H>,
    base: Seq<Seq<u8>>,
    appends: Seq<PendingAppend<H>>,
    at: int,
) -> bool {
    completion_of(step.action) matches Some(completion) ==> {
        &&& 0 <= at < appends.len()
        &&& completion == completes(appends[at])
        &&& holds_record(&step.writer, step.vfs.state(), base, appends, at)
    }
}

proof fn runs_begin_alike<V: Vfs, H>(steps: Seq<Step<V, H>>, count: int)
    requires
        is_run(steps),
        0 < count <= steps.len(),
    ensures
        is_run(steps.take(count)),
        steps.take(count).last() == steps[count - 1],
        steps.take(count)[0] == steps[0],
{
    let front = steps.take(count);
    assert forall|i: int| 0 <= i < front.len() implies is_taken(#[trigger] front[i]) by {
        assert(front[i] == steps[i]);
    }
    assert forall|i: int| 0 < i < front.len() implies goes_on(front[i - 1], #[trigger] front[i]) by {
        assert(front[i] == steps[i]);
    }
}

/// The appends of a batch are handed on in their order, each with its own
/// sequence, and each after its record is in the log.
pub proof fn batch_is_served<V: Vfs, H>(
    steps: Seq<Step<V, H>>,
    numbers: Seq<u64>,
    written: Seq<Seq<Seq<u8>>>,
    i: int,
)
    requires
        is_run(steps),
        history::holds_log(&steps[0].earlier, steps[0].system.state(), numbers, written),
        0 <= i < steps.len(),
    ensures
        serves(steps[i], written.flatten(), batch_of(steps), place(steps, i)),
{
    let front = steps.take(i + 1);
    let appends = batch_of(steps);
    let base = written.flatten();
    let sent = offered(front) as int;
    runs_begin_alike(steps, i + 1);
    let (reached, held) = steps_bring_on(front, base, numbers, written);
    let step = steps[i];
    assert(is_taken(step));
    if completion_of(step.action) is Some {
        let count = sent + written_ahead(step.after.stage);
        assert(log_is(&step.writer, step.vfs.state(), reached, held, base, appends, count));
    }
}

/// A batch after which the writer goes on has left all its records in the log.
pub proof fn batch_is_written<V: Vfs, H>(
    steps: Seq<Step<V, H>>,
    numbers: Seq<u64>,
    written: Seq<Seq<Seq<u8>>>,
) -> (log: (Seq<u64>, Seq<Seq<Seq<u8>>>))
    requires
        is_run(steps),
        history::holds_log(&steps[0].earlier, steps[0].system.state(), numbers, written),
        steps.last().action == (DeliveryAction::<H>::End { stop: false }),
    ensures
        history::holds_log(&steps.last().writer, steps.last().vfs.state(), log.0, log.1),
        log.1.flatten() == written.flatten() + writer::records_of(batch_of(steps)),
{
    let log = steps_bring_on(steps, written.flatten(), numbers, written);
    let records = writer::records_of(batch_of(steps));
    assert(is_taken(steps.last()));
    assert(records.take(records.len() as int) =~= records);
    log
}

/// Whether nothing keeps a batch from being handed on: the filesystem is
/// dependable, there is a number for every segment, and the syncer runs.
pub open spec fn runs_freely<V: Vfs, H>(step: Step<V, H>) -> bool {
    &&& step.system.dependable()
    &&& step.earlier.valid(&step.system)
    &&& step.earlier.next_segment_number <= u32::MAX
    &&& !(step.event is Closed)
    &&& !(step.event is Unheard)
}

/// Where nothing keeps it, a batch of records that fit a segment is handed on
/// whole: every append is offered once, and none fails.
pub proof fn free_batch_is_handed_on<V: Vfs, H>(
    steps: Seq<Step<V, H>>,
    numbers: Seq<u64>,
    written: Seq<Seq<Seq<u8>>>,
)
    requires
        is_run(steps),
        history::holds_log(&steps[0].earlier, steps[0].system.state(), numbers, written),
        forall|i: int| 0 <= i < steps.len() ==> runs_freely(#[trigger] steps[i]),
        forall|i: int|
            0 <= i < batch_of(steps).len() ==> history::fits_a_segment((#[trigger] batch_of(steps)[i]).record()),
    ensures
        !any_failed(steps),
        steps.last().action is End ==> {
            &&& offered(steps) == batch_of(steps).len()
            &&& steps.last().action == (DeliveryAction::<H>::End {
                stop: steps[0].before.batch.write_then_close || steps[0].before.batch.stop_writer,
            })
        },
{
    none_fails(steps, numbers, written);
    steps_bring_on(steps, written.flatten(), numbers, written);
    assert(is_taken(steps.last()));
}

proof fn none_fails<V: Vfs, H>(steps: Seq<Step<V, H>>, numbers: Seq<u64>, written: Seq<Seq<Seq<u8>>>)
    requires
        is_run(steps),
        history::holds_log(&steps[0].earlier, steps[0].system.state(), numbers, written),
        forall|i: int| 0 <= i < steps.len() ==> runs_freely(#[trigger] steps[i]),
        forall|i: int|
            0 <= i < batch_of(steps).len() ==> history::fits_a_segment((#[trigger] batch_of(steps)[i]).record()),
    ensures
        !any_failed(steps),
        steps.last().after.batch.stop_writer == steps[0].before.batch.stop_writer,
        steps.last().after.batch.write_then_close == steps[0].before.batch.write_then_close,
    decreases steps.len(),
{
    let appends = batch_of(steps);
    let last = steps.len() - 1;
    let step = steps[last];
    reveal_with_fuel(any_failed, 2);
    assert(is_taken(step));
    assert(runs_freely(step));
    if last == 0 {
        assert(appends.skip(0) =~= appends);
        write_does_not_fail(step, appends, 0, numbers, written);
    } else {
        let front = steps.take(last);
        assert(front =~= steps.drop_last());
        runs_begin_alike(steps, last);
        assert forall|i: int| 0 <= i < front.len() implies runs_freely(#[trigger] front[i]) by {
            assert(front[i] == steps[i]);
        }
        none_fails(front, numbers, written);
        let (reached, held) = steps_bring_on(front, written.flatten(), numbers, written);
        assert(goes_on(steps[last - 1], step));
        if step.before.stage is Writing {
            logs_alike(&steps[last - 1].writer, &step.earlier, step.system.state(), reached, held);
            write_does_not_fail(step, appends, offered(front) as int, reached, held);
        }
    }
}

proof fn write_does_not_fail<V: Vfs, H>(
    step: Step<V, H>,
    appends: Seq<PendingAppend<H>>,
    sent: int,
    numbers: Seq<u64>,
    written: Seq<Seq<Seq<u8>>>,
)
    requires
        is_taken(step),
        runs_freely(step),
        step.before.stage is Writing,
        0 <= sent <= appends.len(),
        step.before.batch.pending@ == appends.skip(sent),
        history::holds_log(&step.earlier, step.system.state(), numbers, written),
        forall|i: int| 0 <= i < appends.len() ==> history::fits_a_segment((#[trigger] appends[i]).record()),
    ensures
        !(step.action is Fail),
{
    if let DeliveryAction::Fail(failed) = step.action {
        let records = writer::records_of(appends.skip(sent));
        let handles = step.before.batch.waiting();
        let error = choose|error: WalErrorView| #[trigger]
            delivery::all_told(failed@, handles, error) && step.writer.has_failed(
                &step.vfs,
                &step.earlier,
                &step.system,
                records,
                error,
            );
        assert forall|i: int| 0 <= i < records.len() implies history::fits_a_segment(#[trigger] records[i]) by {
            assert(records[i] == appends[sent + i].record());
        }
        history::fitting_records_can_be_written(&step.earlier, &step.system, records);
        history::log_takes_records(
            &step.earlier,
            &step.system,
            numbers,
            written,
            records,
            error,
            &step.writer,
            &step.vfs,
        );
    }
}

/// The handles that leave for good in the steps: those that are handed out with
/// an action and do not come back with the event that answers it.
pub open spec fn left_for_good<V, H>(steps: Seq<Step<V, H>>) -> Seq<H>
    decreases steps.len(),
{
    if steps.len() == 0 {
        Seq::empty()
    } else {
        let rest = left_for_good(steps.skip(1));
        if steps.len() > 1 && delivery::handed_back(steps[1].event).len() > 0 {
            rest
        } else {
            delivery::handed_out(steps[0].action) + rest
        }
    }
}

/// Whether the steps follow one another.
spec fn are_steps<V: Vfs, H>(steps: Seq<Step<V, H>>) -> bool {
    &&& forall|i: int| 0 <= i < steps.len() ==> is_taken(#[trigger] steps[i])
    &&& forall|i: int| 0 < i < steps.len() ==> goes_on(steps[i - 1], #[trigger] steps[i])
}

proof fn everyone_leaves<V: Vfs, H>(steps: Seq<Step<V, H>>)
    requires
        are_steps(steps),
        steps.len() > 0,
        steps.last().after.outstanding().len() == 0,
    ensures
        left_for_good(steps) == delivery::handed_back(steps[0].event) + steps[0].before.outstanding(),
    decreases steps.len(),
{
    let step = steps[0];
    let owed = delivery::handed_back(step.event) + step.before.outstanding();
    let out = delivery::handed_out(step.action);
    let later = steps.skip(1);
    assert(is_taken(step));
    assert(owed == out + step.after.outstanding());
    if later.len() == 0 {
        assert(left_for_good(later) =~= Seq::empty());
        assert(left_for_good(steps) =~= owed);
    } else {
        assert forall|i: int| 0 <= i < later.len() implies is_taken(#[trigger] later[i]) by {
            assert(later[i] == steps[i + 1]);
        }
        assert forall|i: int| 0 < i < later.len() implies goes_on(later[i - 1], #[trigger] later[i]) by {
            assert(later[i] == steps[i + 1]);
        }
        assert(later.last() == steps.last());
        everyone_leaves(later);
        assert(goes_on(steps[0], steps[1]));
        assert(later[0] == steps[1]);
        let back = delivery::handed_back(steps[1].event);
        if back.len() == 0 {
            assert(back + step.after.outstanding() =~= step.after.outstanding());
        } else {
            assert(back =~= out);
        }
        assert(left_for_good(steps) =~= owed);
    }
}

/// A batch that is done let every caller leave once, in order: each was handed
/// on with its sequence or told its failure, and none is left waiting.
pub proof fn every_caller_leaves_once<V: Vfs, H>(steps: Seq<Step<V, H>>)
    requires
        is_run(steps),
        steps.last().action is End,
    ensures
        left_for_good(steps) == batch_of(steps).map_values(|append: PendingAppend<H>| append.handle),
{
    let last = steps.last();
    assert(is_taken(steps[0]));
    assert(is_taken(last));
    assert(last.after.stage is Done);
    delivery::finished_batch_owes_nothing(last.after);
    everyone_leaves(steps);
    let waiting = steps[0].before.batch.waiting();
    assert(delivery::handed_back(steps[0].event) + waiting =~= waiting);
}

/// The appends of the batches of a writer's runs.
pub open spec fn batches_of<V, H>(runs: Seq<Seq<Step<V, H>>>) -> Seq<Seq<PendingAppend<H>>> {
    runs.map_values(|steps: Seq<Step<V, H>>| batch_of(steps))
}

/// Whether the writer goes through the batches of a queue, one after another.
///
/// The appends of the queue are numbered from `first` on, in the order in which
/// they stand in it. The writer takes a batch after another one only where it
/// was not told to stop.
pub open spec fn is_writer_run<V: Vfs, H>(
    runs: Seq<Seq<Step<V, H>>>,
    queued: Seq<Seq<AppendOp<H>>>,
    first: int,
) -> bool {
    &&& history::numbered_in_turn(batches_of(runs), queued, first)
    &&& forall|b: int| 0 <= b < runs.len() ==> is_run(#[trigger] runs[b])
    &&& forall|b: int| 0 < b < runs.len() ==> takes_over(runs[b - 1], #[trigger] runs[b])
}

/// Whether a batch is taken after another one, where that one ended.
pub open spec fn takes_over<V: Vfs, H>(steps: Seq<Step<V, H>>, next: Seq<Step<V, H>>) -> bool {
    &&& steps.last().action == (DeliveryAction::<H>::End { stop: false })
    &&& stands_alike(&next[0].earlier, &steps.last().writer)
    &&& next[0].system.state() == steps.last().vfs.state()
}

/// Where the appends of a batch start in the queue.
pub open spec fn queued_before<V, H>(runs: Seq<Seq<Step<V, H>>>, b: int) -> nat {
    batches_of(runs).take(b).flatten().len()
}

/// A record that is in the log stays where it is counted with the appends of
/// earlier and later batches.
proof fn record_is_held_among_all<V: Vfs, H>(
    step: Step<V, H>,
    base: Seq<Seq<u8>>,
    front: Seq<PendingAppend<H>>,
    batch: Seq<PendingAppend<H>>,
    rest: Seq<PendingAppend<H>>,
    at: int,
)
    requires
        serves(step, base + writer::records_of(front), batch, at),
    ensures
        serves(step, base, front + batch + rest, front.len() + at),
{
    let all = front + batch + rest;
    if completion_of(step.action) is Some {
        let state = step.vfs.state();
        let before = base + writer::records_of(front);
        let (numbers, written, count) = choose|numbers: Seq<u64>, written: Seq<Seq<Seq<u8>>>, count: int| #[trigger]
            log_is(&step.writer, state, numbers, written, before, batch, count) && at < count;
        let longer = front.len() + count;
        assert(before + writer::records_of(batch).take(count) =~= base + writer::records_of(all).take(longer));
        assert(log_is(&step.writer, state, numbers, written, base, all, longer));
    }
}

proof fn records_of_one_more<H>(batches: Seq<Seq<PendingAppend<H>>>, b: int, base: Seq<Seq<u8>>)
    requires
        0 < b <= batches.len(),
    ensures
        base + writer::records_of(batches.take(b).flatten()) == base + writer::records_of(
            batches.take(b - 1).flatten(),
        ) + writer::records_of(batches[b - 1]),
{
    let front = batches.take(b - 1);
    assert(batches.take(b) =~= front.push(batches[b - 1]));
    front.lemma_flatten_push(batches[b - 1]);
    assert(base + writer::records_of(batches.take(b).flatten()) =~= base + writer::records_of(front.flatten())
        + writer::records_of(batches[b - 1]));
}

/// Where the log stands when the writer takes a batch.
proof fn batches_are_written<V: Vfs, H>(
    runs: Seq<Seq<Step<V, H>>>,
    numbers: Seq<u64>,
    written: Seq<Seq<Seq<u8>>>,
    b: int,
) -> (log: (Seq<u64>, Seq<Seq<Seq<u8>>>))
    requires
        forall|b: int| 0 <= b < runs.len() ==> is_run(#[trigger] runs[b]),
        forall|b: int| 0 < b < runs.len() ==> takes_over(runs[b - 1], #[trigger] runs[b]),
        0 <= b < runs.len(),
        history::holds_log(&runs[0][0].earlier, runs[0][0].system.state(), numbers, written),
    ensures
        history::holds_log(&runs[b][0].earlier, runs[b][0].system.state(), log.0, log.1),
        log.1.flatten() == written.flatten() + writer::records_of(batches_of(runs).take(b).flatten()),
    decreases b,
{
    let batches = batches_of(runs);
    if b == 0 {
        assert(batches.take(0).flatten() =~= Seq::empty());
        assert(written.flatten() + writer::records_of(Seq::<PendingAppend<H>>::empty()) =~= written.flatten());
        (numbers, written)
    } else {
        let steps = runs[b - 1];
        assert(is_run(steps));
        assert(takes_over(steps, runs[b]));
        let (reached, held) = batches_are_written(runs, numbers, written, b - 1);
        let (further, longer) = batch_is_written(steps, reached, held);
        logs_alike(&steps.last().writer, &runs[b][0].earlier, runs[b][0].system.state(), further, longer);
        records_of_one_more(batches, b, written.flatten());
        (further, longer)
    }
}

/// The batches are a first part, one of them and the rest.
proof fn batches_in_parts<H>(batches: Seq<Seq<PendingAppend<H>>>, b: int)
    requires
        0 <= b < batches.len(),
    ensures
        batches.flatten() == batches.take(b).flatten() + batches[b] + batches.skip(b + 1).flatten(),
    decreases b,
{
    if b == 0 {
        assert(batches.take(0).flatten() =~= Seq::empty());
        assert(batches.drop_first() =~= batches.skip(1));
        assert(batches.flatten() =~= batches.take(0).flatten() + batches[0] + batches.skip(1).flatten());
    } else {
        let later = batches.skip(1);
        assert(batches.drop_first() =~= later);
        assert(batches.take(b).drop_first() =~= later.take(b - 1));
        assert(batches.skip(b + 1) =~= later.skip(b));
        batches_in_parts(later, b - 1);
        assert(batches.flatten() =~= batches.take(b).flatten() + batches[b] + batches.skip(b + 1).flatten());
    }
}

/// Whether a step that hands a completion out hands out that of the append at a
/// place of the queue, with the sequence that lies as far from the first, and
/// after its record is in the log.
pub open spec fn served_in_order<V: Vfs, H>(
    step: Step<V, H>,
    base: Seq<Seq<u8>>,
    appends: Seq<PendingAppend<H>>,
    queued: Seq<AppendOp<H>>,
    first: int,
    at: int,
) -> bool {
    &&& serves(step, base, appends, at)
    &&& completion_of(step.action) matches Some(completion) ==> {
        &&& 0 <= at < queued.len()
        &&& completion.sequence == first + at
        &&& completion.handle == queued[at].handle
    }
}

/// The writer hands the callers of its queue on in the order of the queue. The
/// one at a place gets the sequence that lies as far from the first, and gets
/// it after its record, and those of all before it, are in the log.
///
/// Every caller leaves once, handed on or told why not, as
/// [`every_caller_leaves_once`] says of each batch.
pub proof fn queue_is_served_in_order<V: Vfs, H>(
    runs: Seq<Seq<Step<V, H>>>,
    queued: Seq<Seq<AppendOp<H>>>,
    first: int,
    numbers: Seq<u64>,
    written: Seq<Seq<Seq<u8>>>,
    b: int,
    i: int,
)
    requires
        is_writer_run(runs, queued, first),
        history::holds_log(&runs[0][0].earlier, runs[0][0].system.state(), numbers, written),
        0 <= b < runs.len(),
        0 <= i < runs[b].len(),
    ensures
        ({
            let all = batches_of(runs).flatten();
            let at = queued_before(runs, b) + place(runs[b], i);
            &&& writer::numbered(all, first, queued.flatten())
            &&& served_in_order(runs[b][i], written.flatten(), all, queued.flatten(), first, at)
        }),
{
    let batches = batches_of(runs);
    let all = batches.flatten();
    let at = queued_before(runs, b) + place(runs[b], i);
    assert(is_run(runs[b]));
    history::queue_order_is_sequence_order(batches, queued, first);
    let (reached, held) = batches_are_written(runs, numbers, written, b);
    batch_is_served(runs[b], reached, held, i);
    batches_in_parts(batches, b);
    record_is_held_among_all(
        runs[b][i],
        written.flatten(),
        batches.take(b).flatten(),
        batches[b],
        batches.skip(b + 1).flatten(),
        place(runs[b], i),
    );
    if completion_of(runs[b][i].action) is Some {
        assert(all[at].numbers(first + at, queued.flatten()[at]));
    }
}

/// The handles that leave for good in the runs.
pub open spec fn left_by_all<V, H>(runs: Seq<Seq<Step<V, H>>>) -> Seq<H> {
    runs.map_values(|steps: Seq<Step<V, H>>| left_for_good(steps)).flatten()
}

proof fn all_batches_leave<V: Vfs, H>(runs: Seq<Seq<Step<V, H>>>)
    requires
        forall|b: int| 0 <= b < runs.len() ==> is_run(#[trigger] runs[b]) && runs[b].last().action is End,
    ensures
        left_by_all(runs) == batches_of(runs).flatten().map_values(|append: PendingAppend<H>| append.handle),
    decreases runs.len(),
{
    let leaving = runs.map_values(|steps: Seq<Step<V, H>>| left_for_good(steps));
    let batches = batches_of(runs);
    let handles = batches.flatten().map_values(|append: PendingAppend<H>| append.handle);
    if runs.len() == 0 {
        assert(leaving.flatten() =~= handles);
    } else {
        let later = runs.skip(1);
        assert forall|b: int| 0 <= b < later.len() implies is_run(#[trigger] later[b]) && later[b].last().action is End by {
            assert(later[b] == runs[b + 1]);
        }
        all_batches_leave(later);
        assert(is_run(runs[0]));
        every_caller_leaves_once(runs[0]);
        assert(leaving.drop_first() =~= later.map_values(|steps: Seq<Step<V, H>>| left_for_good(steps)));
        assert(batches.drop_first() =~= batches_of(later));
        assert(leaving.flatten() =~= handles);
    }
}

/// However appends race with the close of a log, and however the writer comes
/// to batch them, no caller is left behind. Every append that was accepted
/// leaves the writer once, in order; where it is handed on, it has the sequence
/// that lies as far from the first as the append lies from the first accepted
/// one, and its record is in the log.
pub proof fn racing_appends_are_served<V: Vfs, H>(
    calls: Seq<Call<H>>,
    received: Seq<Seq<Operation<H>>>,
    runs: Seq<Seq<Step<V, H>>>,
    first: int,
    numbers: Seq<u64>,
    written: Seq<Seq<Seq<u8>>>,
)
    requires
        received.flatten() == lifecycle::after_calls(calls).queue,
        is_writer_run(runs, lifecycle::appends_by_batch(received), first),
        forall|b: int| 0 <= b < runs.len() ==> (#[trigger] runs[b]).last().action is End,
        runs.len() > 0 ==> history::holds_log(&runs[0][0].earlier, runs[0][0].system.state(), numbers, written),
    ensures
        ({
            let accepted = lifecycle::accepted(calls);
            &&& left_by_all(runs) == accepted.map_values(|operation: AppendOp<H>| operation.handle)
            &&& forall|b: int, i: int|
                0 <= b < runs.len() && 0 <= i < runs[b].len() ==> served_in_order(
                    #[trigger] runs[b][i],
                    written.flatten(),
                    batches_of(runs).flatten(),
                    accepted,
                    first,
                    queued_before(runs, b) + place(runs[b], i),
                )
        }),
{
    let accepted = lifecycle::accepted(calls);
    let queued = lifecycle::appends_by_batch(received);
    let all = batches_of(runs).flatten();
    lifecycle::accepted_appends_are_numbered_in_order(calls, received, batches_of(runs), first);
    lifecycle::batches_hold_the_appends(received);
    lifecycle::accepted_appends_go_ahead_of_the_close(calls);
    all_batches_leave(runs);
    assert forall|i: int| 0 <= i < all.len() implies (#[trigger] all[i]).handle == accepted[i].handle by {
        assert(all[i].numbers(first + i, accepted[i]));
    }
    assert(all.map_values(|append: PendingAppend<H>| append.handle) =~= accepted.map_values(
        |operation: AppendOp<H>| operation.handle,
    ));
    assert forall|b: int, i: int| 0 <= b < runs.len() && 0 <= i < runs[b].len() implies served_in_order(
        #[trigger] runs[b][i],
        written.flatten(),
        all,
        accepted,
        first,
        queued_before(runs, b) + place(runs[b], i),
    ) by {
        queue_is_served_in_order(runs, queued, first, numbers, written, b, i);
    }
}

/// The last sequence that the queue took and that was not announced since, after
/// the steps.
pub open spec fn unannounced<V, H>(steps: Seq<Step<V, H>>) -> Option<u64>
    decreases steps.len(),
{
    if steps.len() == 0 {
        None
    } else {
        let before = unannounced(steps.drop_last());
        if steps.last().action is Announce {
            None
        } else if steps.last().event is Taken && steps.len() > 1 {
            match completion_of(steps[steps.len() - 2].action) {
                Some(completion) => Some(completion.sequence),
                None => before,
            }
        } else {
            before
        }
    }
}

/// The syncer hears of every sequence that was handed on: what is announced is
/// the last one that the queue took, and a batch does not end before it is. A
/// batch in which an append failed stops the writer.
pub proof fn last_sequence_is_announced<V: Vfs, H>(
    steps: Seq<Step<V, H>>,
    numbers: Seq<u64>,
    written: Seq<Seq<Seq<u8>>>,
)
    requires
        is_run(steps),
        steps[0].before.batch.advanced is None,
        history::holds_log(&steps[0].earlier, steps[0].system.state(), numbers, written),
    ensures
        steps.last().action matches DeliveryAction::Announce { sequence, .. } ==> unannounced(steps.drop_last())
            == Some(sequence),
        steps.last().action matches DeliveryAction::End { stop } ==> {
            &&& unannounced(steps) is None
            &&& any_failed(steps) ==> stop
        },
{
    let last = steps.len() - 1;
    steps_bring_on(steps, written.flatten(), numbers, written);
    advanced_is_unannounced(steps, numbers, written);
    assert(is_taken(steps[last]));
    if last > 0 {
        runs_begin_alike(steps, last);
        assert(steps.take(last) =~= steps.drop_last());
        advanced_is_unannounced(steps.drop_last(), numbers, written);
        assert(goes_on(steps[last - 1], steps[last]));
    }
}

proof fn advanced_is_unannounced<V: Vfs, H>(
    steps: Seq<Step<V, H>>,
    numbers: Seq<u64>,
    written: Seq<Seq<Seq<u8>>>,
)
    requires
        is_run(steps),
        steps[0].before.batch.advanced is None,
        history::holds_log(&steps[0].earlier, steps[0].system.state(), numbers, written),
    ensures
        steps.last().after.batch.advanced == unannounced(steps),
    decreases steps.len(),
{
    let last = steps.len() - 1;
    let step = steps[last];
    assert(is_taken(step));
    reveal_with_fuel(unannounced, 2);
    if last > 0 {
        let front = steps.drop_last();
        runs_begin_alike(steps, last);
        assert(steps.take(last) =~= front);
        advanced_is_unannounced(front, numbers, written);
        steps_bring_on(front, written.flatten(), numbers, written);
        assert(goes_on(steps[last - 1], step));
        assert(front.last() == steps[last - 1]);
    }
}

} // verus!
