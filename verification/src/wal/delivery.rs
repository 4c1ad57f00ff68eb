//! The writer's way through a batch: its records are written, and their
//! completions handed to the syncer.

use vstd::prelude::*;
use crate::vfs::Vfs;
use crate::wal::error::{WalError, WalErrorView};
use crate::wal::segment::SegmentSyncHandle;
use crate::wal::syncer::AppendCompletion;
use crate::wal::writer;
use crate::wal::writer::{Batch, WriterLoop};

verus! {

/// How far a batch has come.
pub enum Stage<H> {
    /// The pending records are to be written.
    Writing,
    /// The completions of the next `left` appends are to be handed on: their
    /// records are written.
    Delivering { left: usize },
    /// A completion was offered to the queue, and `left` more follow it.
    Offered { sequence: u64, left: usize },
    /// The queue is full: a sequence is announced first, so that the syncer
    /// drains the queue.
    Announcing { completion: AppendCompletion<H>, left: usize },
    /// The queue is full: the completion waits until it has room.
    Handed { sequence: u64, left: usize },
    /// Nothing is pending any more.
    Settled,
    /// The last sequence that was handed on is announced.
    Closing,
    Done,
}

/// What became of the last action.
pub enum DeliveryEvent<H> {
    /// There is nothing to tell.
    Proceed,
    /// The queue took the completion.
    Taken,
    /// The queue has no room for the completion.
    Full(AppendCompletion<H>),
    /// The syncer stopped: the queue takes nothing any more.
    Closed(AppendCompletion<H>),
    /// The syncer heard the announced sequence.
    Announced,
    /// The syncer stopped: nobody hears the announced sequence.
    Unheard,
}

/// What is to be done next.
pub enum DeliveryAction<H> {
    /// Nothing: go on.
    Proceed,
    /// Offer a completion to the queue.
    Offer(AppendCompletion<H>),
    /// Wait until the queue takes a completion.
    Hand(AppendCompletion<H>),
    /// Announce a sequence, and the segment that is written to.
    Announce { sequence: u64, active: Option<SegmentSyncHandle> },
    /// Tell callers that their append failed.
    Fail(Vec<(H, WalError)>),
    /// The batch is done. The writer stops, or takes the next one.
    End { stop: bool },
}

/// A batch on its way through the writer.
pub struct Delivery<H> {
    pub batch: Batch<H>,
    pub stage: Stage<H>,
}

/// What is reported when the syncer is gone.
pub open spec fn syncer_stopped() -> WalErrorView {
    WalErrorView::Worker("WAL sync thread stopped"@)
}

fn syncer_stopped_error() -> (error: WalError)
    ensures
        error@ == syncer_stopped(),
{
    WalError::Worker(String::from_str("WAL sync thread stopped"))
}

/// The handles that come back with an event.
pub open spec fn handed_back<H>(event: DeliveryEvent<H>) -> Seq<H> {
    match event {
        DeliveryEvent::Full(completion) | DeliveryEvent::Closed(completion) => seq![completion.handle],
        _ => Seq::empty(),
    }
}

/// The handles that leave with an action.
pub open spec fn handed_out<H>(action: DeliveryAction<H>) -> Seq<H> {
    match action {
        DeliveryAction::Offer(completion) | DeliveryAction::Hand(completion) => seq![completion.handle],
        DeliveryAction::Fail(failed) => failed@.map_values(|told: (H, WalError)| told.0),
        _ => Seq::empty(),
    }
}

/// Whether every caller of `handles` is told the error, in their order.
pub open spec fn all_told<H>(failed: Seq<(H, WalError)>, handles: Seq<H>, error: WalErrorView) -> bool {
    &&& failed.map_values(|told: (H, WalError)| told.0) == handles
    &&& forall|i: int| 0 <= i < failed.len() ==> (#[trigger] failed[i]).1@ == error
}

/// Whether a write failed, and every caller of `handles` is told its error.
pub open spec fn write_failed<V: Vfs, H>(
    failed: Seq<(H, WalError)>,
    handles: Seq<H>,
    writer: &WriterLoop,
    vfs: &V,
    before: &WriterLoop,
    earlier: &V,
    records: Seq<Seq<u8>>,
) -> bool {
    exists|error: WalErrorView| #[trigger]
        all_told(failed, handles, error) && writer.has_failed(vfs, before, earlier, records, error)
}

/// Whether an announcement names the segment that is written to.
pub open spec fn names_active(active: Option<SegmentSyncHandle>, writer: &WriterLoop) -> bool {
    match (active, writer.active_segment) {
        (Some(handle), Some(segment)) => handle.marks(&segment),
        (None, None) => true,
        _ => false,
    }
}

fn active_handle(writer: &WriterLoop) -> (active: Option<SegmentSyncHandle>)
    ensures
        names_active(active, writer),
{
    match &writer.active_segment {
        Some(segment) => Some(segment.sync_handle()),
        None => None,
    }
}

impl<H> Delivery<H> {
    /// The appends that wait are as many as their completions that are still
    /// to be handed on, or more. None waits at the end.
    pub open spec fn valid(&self) -> bool {
        match self.stage {
            Stage::Writing => true,
            Stage::Delivering { left }
            | Stage::Offered { left, .. }
            | Stage::Announcing { left, .. }
            | Stage::Handed { left, .. } => left <= self.batch.pending@.len(),
            Stage::Settled | Stage::Closing | Stage::Done => self.batch.pending@.len() == 0,
        }
    }

    /// Whether an event answers the last action.
    pub open spec fn expects(&self, event: DeliveryEvent<H>) -> bool {
        match (self.stage, event) {
            (Stage::Writing, DeliveryEvent::Proceed) => true,
            (Stage::Delivering { .. }, DeliveryEvent::Proceed) => true,
            (Stage::Offered { .. }, DeliveryEvent::Taken) => true,
            (Stage::Offered { sequence, .. }, DeliveryEvent::Full(completion)) => completion.sequence == sequence,
            (Stage::Offered { sequence, .. }, DeliveryEvent::Closed(completion)) => completion.sequence == sequence,
            (Stage::Announcing { .. }, DeliveryEvent::Announced) => true,
            (Stage::Announcing { .. }, DeliveryEvent::Unheard) => true,
            (Stage::Handed { .. }, DeliveryEvent::Taken) => true,
            (Stage::Handed { sequence, .. }, DeliveryEvent::Closed(completion)) => completion.sequence == sequence,
            (Stage::Settled, DeliveryEvent::Proceed) => true,
            (Stage::Closing, DeliveryEvent::Announced) => true,
            (Stage::Closing, DeliveryEvent::Unheard) => true,
            _ => false,
        }
    }

    /// The handles of callers that still wait here for an outcome.
    pub open spec fn outstanding(&self) -> Seq<H> {
        match self.stage {
            Stage::Announcing { completion, .. } => seq![completion.handle] + self.batch.waiting(),
            _ => self.batch.waiting(),
        }
    }

    /// Only the pending appends, the last sequence that was handed on and
    /// whether the writer stops may differ.
    pub open spec fn keeps(&self, before: &Delivery<H>) -> bool {
        &&& self.batch.refused == before.batch.refused
        &&& self.batch.unread == before.batch.unread
        &&& self.batch.write_then_close == before.batch.write_then_close
    }

    /// A batch that is to be written.
    pub fn new(batch: Batch<H>) -> (delivery: Delivery<H>)
        ensures
            delivery.valid(),
            delivery.batch == batch,
            delivery.stage == Stage::<H>::Writing,
    {
        Delivery { batch, stage: Stage::Writing }
    }

    /// Fails a completion that came back, and all pending appends with it.
    fn give_up(&mut self, completion: AppendCompletion<H>) -> (failed: Vec<(H, WalError)>)
        ensures
            final(self).keeps(old(self)),
            final(self).batch.pending@.len() == 0,
            final(self).batch.stop_writer,
            final(self).batch.advanced == old(self).batch.advanced,
            final(self).stage == Stage::<H>::Settled,
            all_told(failed@, seq![completion.handle] + old(self).batch.waiting(), syncer_stopped()),
    {
        let error: WalError = syncer_stopped_error();
        let mut failed: Vec<(H, WalError)> = Vec::new();
        let mut rest: Vec<(H, WalError)> = self.batch.abandon(&error);
        let ghost others = rest@;
        failed.push((completion.handle, error));
        failed.append(&mut rest);
        self.stage = Stage::Settled;
        proof {
            let handles = seq![completion.handle] + old(self).batch.waiting();
            assert(failed@ =~= seq![(completion.handle, error)] + others);
            assert(failed@.map_values(|told: (H, WalError)| told.0) =~= handles);
        }
        failed
    }

    /// Whether a step leads here from a delivery, a writer and a filesystem: what
    /// the event tells, and the action that follows.
    ///
    /// A handle leaves once: every handle that waits, or comes back, is handed
    /// out with the action or waits on, in the same order. Only writing changes
    /// the writer and the files.
    pub open spec fn follows<V: Vfs>(
        &self,
        writer: &WriterLoop,
        vfs: &V,
        before: &Delivery<H>,
        earlier: &WriterLoop,
        system: &V,
        event: DeliveryEvent<H>,
        action: DeliveryAction<H>,
    ) -> bool {
        &&& self.valid()
        &&& self.keeps(before)
        &&& writer.valid(vfs)
        &&& writer.dir == earlier.dir
        &&& writer.next_sequence == earlier.next_sequence
        &&& vfs.dependable() == system.dependable()
        &&& vfs.journal() == system.journal()
        &&& handed_back(event) + before.outstanding() == handed_out(action) + self.outstanding()
        &&& !(before.stage is Writing) ==> *writer == *earlier && vfs.state() == system.state()
        &&& self.moves_on(writer, vfs, before, earlier, system, event, action)
    }

    /// What becomes of a batch, and the action that follows, stage by stage.
    pub open spec fn moves_on<V: Vfs>(
        &self,
        writer: &WriterLoop,
        vfs: &V,
        before: &Delivery<H>,
        earlier: &WriterLoop,
        system: &V,
        event: DeliveryEvent<H>,
        action: DeliveryAction<H>,
    ) -> bool {
        let batch = before.batch;
        let after = self.batch;
        match (before.stage, event) {
            (Stage::Writing, _) => {
                let records = writer::records_of(batch.pending@);
                &&& after.advanced == batch.advanced
                &&& match action {
                    DeliveryAction::Proceed => {
                        &&& after.pending@ == batch.pending@
                        &&& after.stop_writer == batch.stop_writer
                        &&& if batch.pending@.len() == 0 {
                            &&& self.stage is Settled
                            &&& *writer == *earlier
                            &&& vfs.state() == system.state()
                        } else {
                            &&& self.stage matches Stage::Delivering { left }
                            &&& writer.has_written(
                                vfs,
                                earlier,
                                system,
                                records,
                                left as int,
                            )
                        }
                    },
                    DeliveryAction::Fail(failed) => {
                        &&& batch.pending@.len() > 0
                        &&& after.stop_writer
                        &&& self.stage is Settled
                        &&& write_failed(
                            failed@,
                            batch.waiting(),
                            writer,
                            vfs,
                            earlier,
                            system,
                            records,
                        )
                    },
                    _ => false,
                }
            },
            (Stage::Delivering { left }, _) => {
                &&& after.advanced == batch.advanced
                &&& after.stop_writer == batch.stop_writer
                &&& if left == 0 {
                    &&& action is Proceed
                    &&& self.stage is Writing
                    &&& after.pending@ == batch.pending@
                } else {
                    let first = batch.pending@[0];
                    &&& action == DeliveryAction::Offer(
                        AppendCompletion { sequence: first.sequence, handle: first.handle },
                    )
                    &&& self.stage == (Stage::<H>::Offered {
                        sequence: first.sequence,
                        left: (left - 1) as usize,
                    })
                    &&& after.pending@ == batch.pending@.skip(1)
                }
            },
            (Stage::Offered { sequence, left }, DeliveryEvent::Taken)
            | (Stage::Handed { sequence, left }, DeliveryEvent::Taken) => {
                &&& action is Proceed
                &&& self.stage == (Stage::<H>::Delivering { left })
                &&& after.advanced == Some(sequence)
                &&& after.stop_writer == batch.stop_writer
                &&& after.pending@ == batch.pending@
            },
            (Stage::Offered { sequence, left }, DeliveryEvent::Full(completion)) => {
                &&& after.advanced is None
                &&& after.stop_writer == batch.stop_writer
                &&& after.pending@ == batch.pending@
                &&& match batch.advanced {
                    Some(advanced) => {
                        &&& action matches DeliveryAction::Announce { sequence: announced, active }
                        &&& announced == advanced
                        &&& names_active(active, earlier)
                        &&& self.stage == (Stage::Announcing { completion, left })
                    },
                    None => {
                        &&& action == DeliveryAction::Hand(completion)
                        &&& self.stage == (Stage::<H>::Handed { sequence, left })
                    },
                }
            },
            (Stage::Announcing { completion, left }, DeliveryEvent::Announced) => {
                &&& action == DeliveryAction::Hand(completion)
                &&& self.stage == (Stage::<H>::Handed { sequence: completion.sequence, left })
                &&& after.advanced == batch.advanced
                &&& after.stop_writer == batch.stop_writer
                &&& after.pending@ == batch.pending@
            },
            (Stage::Settled, _) => match batch.advanced {
                Some(advanced) => {
                    &&& action matches DeliveryAction::Announce { sequence, active }
                    &&& sequence == advanced
                    &&& names_active(active, earlier)
                    &&& self.stage is Closing
                    &&& after.advanced is None
                    &&& after.stop_writer == batch.stop_writer
                },
                None => {
                    &&& action == (DeliveryAction::<H>::End {
                        stop: batch.write_then_close || batch.stop_writer,
                    })
                    &&& self.stage is Done
                    &&& after.advanced is None
                    &&& after.stop_writer == batch.stop_writer
                },
            },
            (Stage::Closing, _) => {
                &&& self.stage is Done
                &&& after.advanced == batch.advanced
                &&& after.stop_writer == (batch.stop_writer || event is Unheard)
                &&& action == (DeliveryAction::<H>::End {
                    stop: batch.write_then_close || after.stop_writer,
                })
            },
            _ => {
                &&& action matches DeliveryAction::Fail(failed)
                &&& all_told(failed@, handed_back(event) + before.outstanding(), syncer_stopped())
                &&& self.stage is Settled
                &&& after.stop_writer
                &&& after.advanced == batch.advanced
            },
        }
    }

    /// Takes a batch one step further, from what became of the last action.
    pub fn step<V: Vfs>(&mut self, writer: &mut WriterLoop, vfs: &mut V, event: DeliveryEvent<H>) -> (action:
        DeliveryAction<H>)
        requires
            old(self).valid(),
            old(self).expects(event),
            old(writer).valid(old(vfs)),
            writer::fits_memory(old(self).batch.pending@),
        ensures
            writer::fits_memory(final(self).batch.pending@),
            final(self).follows(final(writer), final(vfs), old(self), old(writer), old(vfs), event, action),
    {
        let ghost waiting = self.batch.waiting();
        let mut stage: Stage<H> = Stage::Done;
        std::mem::swap(&mut stage, &mut self.stage);
        match stage {
            Stage::Writing => {
                if self.batch.pending.len() == 0 {
                    self.stage = Stage::Settled;
                    return DeliveryAction::Proceed;
                }
                match writer.write_pending(vfs, &self.batch.pending) {
                    Ok(count) => {
                        self.stage = Stage::Delivering { left: count };
                        DeliveryAction::Proceed
                    },
                    Err(error) => {
                        let failed: Vec<(H, WalError)> = self.batch.abandon(&error);
                        self.stage = Stage::Settled;
                        proof {
                            assert(failed@.map_values(|told: (H, WalError)| told.0) =~= waiting);
                            assert(all_told(failed@, waiting, error@));
                            assert(write_failed(
                                failed@,
                                waiting,
                                writer,
                                vfs,
                                old(writer),
                                old(vfs),
                                writer::records_of(old(self).batch.pending@),
                            ));
                        }
                        DeliveryAction::Fail(failed)
                    },
                }
            },
            Stage::Delivering { left } => {
                if left == 0 {
                    self.stage = Stage::Writing;
                    return DeliveryAction::Proceed;
                }
                match self.batch.next_completion() {
                    Some((sequence, handle)) => {
                        self.stage = Stage::Offered { sequence, left: left - 1 };
                        assert(waiting =~= seq![handle] + self.batch.waiting());
                        DeliveryAction::Offer(AppendCompletion { sequence, handle })
                    },
                    None => DeliveryAction::Proceed,
                }
            },
            Stage::Offered { sequence, left } => match event {
                DeliveryEvent::Full(completion) => match self.batch.take_advanced() {
                    Some(advanced) => {
                        self.stage = Stage::Announcing { completion, left };
                        DeliveryAction::Announce { sequence: advanced, active: active_handle(writer) }
                    },
                    None => {
                        self.stage = Stage::Handed { sequence, left };
                        DeliveryAction::Hand(completion)
                    },
                },
                DeliveryEvent::Closed(completion) => DeliveryAction::Fail(self.give_up(completion)),
                _ => {
                    self.batch.advanced = Some(sequence);
                    self.stage = Stage::Delivering { left };
                    DeliveryAction::Proceed
                },
            },
            Stage::Announcing { completion, left } => match event {
                DeliveryEvent::Unheard => {
                    let failed: Vec<(H, WalError)> = self.give_up(completion);
                    proof {
                        let owed = seq![completion.handle] + waiting;
                        assert(handed_back(event) + owed =~= owed);
                    }
                    DeliveryAction::Fail(failed)
                },
                _ => {
                    self.stage = Stage::Handed { sequence: completion.sequence, left };
                    DeliveryAction::Hand(completion)
                },
            },
            Stage::Handed { sequence, left } => match event {
                DeliveryEvent::Closed(completion) => DeliveryAction::Fail(self.give_up(completion)),
                _ => {
                    self.batch.advanced = Some(sequence);
                    self.stage = Stage::Delivering { left };
                    DeliveryAction::Proceed
                },
            },
            Stage::Settled => match self.batch.take_advanced() {
                Some(advanced) => {
                    self.stage = Stage::Closing;
                    DeliveryAction::Announce { sequence: advanced, active: active_handle(writer) }
                },
                None => DeliveryAction::End { stop: self.batch.ends() },
            },
            Stage::Closing => {
                if let DeliveryEvent::Unheard = event {
                    self.batch.stop_writer = true;
                }
                DeliveryAction::End { stop: self.batch.ends() }
            },
            Stage::Done => DeliveryAction::End { stop: self.batch.ends() },
        }
    }
}

/// A batch that is done owes nobody an outcome.
pub proof fn finished_batch_owes_nothing<H>(delivery: Delivery<H>)
    requires
        delivery.valid(),
        delivery.stage is Done,
    ensures
        delivery.outstanding().len() == 0,
{
}

/// A batch keeps on its way what was refused and what was not read of it, and
/// whether a close follows.
pub proof fn batch_keeps_its_rest<H>(before: &Delivery<H>, after: &Delivery<H>)
    requires
        after.keeps(before),
    ensures
        after.batch.refused == before.batch.refused,
        after.batch.unread@ == before.batch.unread@,
        after.batch.write_then_close == before.batch.write_then_close,
{
}

/// Callers that are told of a failure are told in their order, each once, and all
/// the same.
pub proof fn callers_are_told_in_their_order<H>(
    failed: Seq<(H, WalError)>,
    handles: Seq<H>,
    error: WalErrorView,
    at: int,
)
    requires
        all_told(failed, handles, error),
    ensures
        failed.len() == handles.len(),
        0 <= at < handles.len() ==> failed[at].0 == handles[at] && failed[at].1@ == error,
{
    assert(failed.map_values(|told: (H, WalError)| told.0).len() == failed.len());
    if 0 <= at < handles.len() {
        assert(failed.map_values(|told: (H, WalError)| told.0)[at] == failed[at].0);
    }
}

/// A writer that was to stop still is. Only a failure that callers are told of,
/// or a syncer that does not hear, stops one that was not.
pub proof fn only_failures_stop_the_writer<V: Vfs, H>(
    after: &Delivery<H>,
    writer: &WriterLoop,
    vfs: &V,
    before: &Delivery<H>,
    earlier: &WriterLoop,
    system: &V,
    event: DeliveryEvent<H>,
    action: DeliveryAction<H>,
)
    requires
        before.expects(event),
        after.follows(writer, vfs, before, earlier, system, event, action),
    ensures
        before.batch.stop_writer ==> after.batch.stop_writer,
        after.batch.stop_writer ==> before.batch.stop_writer || action is Fail || event is Unheard,
        action is Fail ==> after.batch.stop_writer && after.stage is Settled,
        action matches DeliveryAction::End { stop } ==> {
            &&& after.stage is Done
            &&& stop == (after.batch.write_then_close || after.batch.stop_writer)
        },
{
}

/// Appends are handed on one by one, from the first: a step hands on the first of
/// those that are pending or none of them, and leaves the others.
pub proof fn appends_are_handed_on_from_the_first<V: Vfs, H>(
    after: &Delivery<H>,
    writer: &WriterLoop,
    vfs: &V,
    before: &Delivery<H>,
    earlier: &WriterLoop,
    system: &V,
    event: DeliveryEvent<H>,
    action: DeliveryAction<H>,
)
    requires
        before.valid(),
        before.expects(event),
        after.follows(writer, vfs, before, earlier, system, event, action),
    ensures
        action matches DeliveryAction::Offer(completion) ==> {
            &&& before.batch.pending@.len() > 0
            &&& completion.sequence == before.batch.pending@[0].sequence
            &&& completion.handle == before.batch.pending@[0].handle
            &&& after.batch.pending@ == before.batch.pending@.skip(1)
        },
        action matches DeliveryAction::Hand(completion) ==> {
            &&& after.batch.pending@ == before.batch.pending@
            &&& event matches DeliveryEvent::Full(back) ==> back == completion
            &&& before.stage matches Stage::Announcing { completion: kept, .. } ==> kept == completion
        },
        action is Proceed ==> after.batch.pending@ == before.batch.pending@,
        action is Fail ==> after.batch.pending@.len() == 0,
        action matches DeliveryAction::Announce { sequence, .. } ==> before.batch.advanced == Some(sequence)
            && after.batch.advanced is None,
        event is Taken ==> after.batch.advanced is Some,
{
}

} // verus!
