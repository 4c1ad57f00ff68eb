//! What the unit answers its clients.

use std::collections::VecDeque;
use vstd::prelude::*;
use crate::unit::storage;
use crate::unit::storage::{Event, EventView, StorageView, UnitStorage};

verus! {

/// How many events an answer to a read holds at most.
pub const READ_CHUNK_SIZE: usize = 1024;

/// The two protocols of the unit. They differ in their words alone.
#[derive(Debug, Clone, Copy, PartialEq, Eq, Structural)]
pub enum Protocol {
    /// Events are appended to streams and read from them.
    Append,
    /// Events are recorded on timelines and fetched from them.
    Record,
}

/// Why a request failed.
#[derive(Debug, Clone, Copy, PartialEq, Eq, Structural)]
pub enum StatusKind {
    InvalidArgument,
    Cancelled,
    Unavailable,
    Internal,
}

/// What a client is told of a failed request.
#[derive(Debug)]
pub struct Status {
    pub kind: StatusKind,
    pub message: String,
}

/// A [`Status`] as a mathematical value.
#[verifier::ext_equal]
pub struct StatusView {
    pub kind: StatusKind,
    pub message: Seq<char>,
}

impl View for Status {
    type V = StatusView;

    open spec fn view(&self) -> StatusView {
        StatusView { kind: self.kind, message: self.message@ }
    }
}

impl Status {
    fn new(kind: StatusKind, message: &str) -> (status: Status)
        ensures
            status@ == (StatusView { kind, message: message@ }),
    {
        Status { kind, message: String::from_str(message) }
    }
}

impl Clone for Status {
    fn clone(&self) -> (copy: Status)
        ensures
            copy@ == self@,
    {
        Status { kind: self.kind, message: self.message.clone() }
    }
}

/// What went wrong with a stream of requests.
#[derive(Debug, Clone, Copy, PartialEq, Eq, Structural)]
pub enum Fault {
    EmptyBatch,
    MissingEvent,
    MixedBatch,
    WritesCancelled,
    WritesClosed,
    WatchClosed,
    InvalidRange,
    ReadsCancelled,
    ReadsClosed,
}

impl Fault {
    pub open spec fn kind(self) -> StatusKind {
        match self {
            Fault::EmptyBatch | Fault::MissingEvent | Fault::MixedBatch | Fault::InvalidRange => {
                StatusKind::InvalidArgument
            },
            Fault::WritesCancelled | Fault::ReadsCancelled | Fault::ReadsClosed => StatusKind::Cancelled,
            Fault::WritesClosed => StatusKind::Unavailable,
            Fault::WatchClosed => StatusKind::Internal,
        }
    }

    pub open spec fn words(self, protocol: Protocol) -> Seq<char> {
        match (self, protocol) {
            (Fault::EmptyBatch, Protocol::Append) => "empty append batch"@,
            (Fault::EmptyBatch, Protocol::Record) => "empty record batch"@,
            (Fault::MissingEvent, Protocol::Append) => "append item missing event"@,
            (Fault::MissingEvent, Protocol::Record) => "record item missing event"@,
            (Fault::MixedBatch, Protocol::Append) => "append batch must contain one stream and term"@,
            (Fault::MixedBatch, Protocol::Record) => "record batch must contain one timeline and term"@,
            (Fault::WritesCancelled, Protocol::Append) => "append stream cancelled"@,
            (Fault::WritesCancelled, Protocol::Record) => "record stream cancelled"@,
            (Fault::WritesClosed, Protocol::Append) => "append stream closed"@,
            (Fault::WritesClosed, Protocol::Record) => "record stream closed"@,
            (Fault::WatchClosed, _) => "wal sync watch closed"@,
            (Fault::InvalidRange, Protocol::Append) => "read end_offset must be greater than or equal to start_offset"@,
            (Fault::InvalidRange, Protocol::Record) => {
                "fetch end_offset must be greater than or equal to start_offset"@
            },
            (Fault::ReadsCancelled, Protocol::Append) => "read stream cancelled"@,
            (Fault::ReadsCancelled, Protocol::Record) => "fetch stream cancelled"@,
            (Fault::ReadsClosed, Protocol::Append) => "read response stream closed"@,
            (Fault::ReadsClosed, Protocol::Record) => "fetch response stream closed"@,
        }
    }

    pub open spec fn reported(self, protocol: Protocol) -> StatusView {
        StatusView { kind: self.kind(), message: self.words(protocol) }
    }

    /// What a client is told.
    pub fn status(self, protocol: Protocol) -> (status: Status)
        ensures
            status@ == self.reported(protocol),
    {
        let kind: StatusKind = match self {
            Fault::EmptyBatch | Fault::MissingEvent | Fault::MixedBatch | Fault::InvalidRange => {
                StatusKind::InvalidArgument
            },
            Fault::WritesCancelled | Fault::ReadsCancelled | Fault::ReadsClosed => StatusKind::Cancelled,
            Fault::WritesClosed => StatusKind::Unavailable,
            Fault::WatchClosed => StatusKind::Internal,
        };
        let words: &str = match (self, protocol) {
            (Fault::EmptyBatch, Protocol::Append) => "empty append batch",
            (Fault::EmptyBatch, Protocol::Record) => "empty record batch",
            (Fault::MissingEvent, Protocol::Append) => "append item missing event",
            (Fault::MissingEvent, Protocol::Record) => "record item missing event",
            (Fault::MixedBatch, Protocol::Append) => "append batch must contain one stream and term",
            (Fault::MixedBatch, Protocol::Record) => "record batch must contain one timeline and term",
            (Fault::WritesCancelled, Protocol::Append) => "append stream cancelled",
            (Fault::WritesCancelled, Protocol::Record) => "record stream cancelled",
            (Fault::WritesClosed, Protocol::Append) => "append stream closed",
            (Fault::WritesClosed, Protocol::Record) => "record stream closed",
            (Fault::WatchClosed, _) => "wal sync watch closed",
            (Fault::InvalidRange, Protocol::Append) => "read end_offset must be greater than or equal to start_offset",
            (Fault::InvalidRange, Protocol::Record) => "fetch end_offset must be greater than or equal to start_offset",
            (Fault::ReadsCancelled, Protocol::Append) => "read stream cancelled",
            (Fault::ReadsCancelled, Protocol::Record) => "fetch stream cancelled",
            (Fault::ReadsClosed, Protocol::Append) => "read response stream closed",
            (Fault::ReadsClosed, Protocol::Record) => "fetch response stream closed",
        };
        Status::new(kind, words)
    }
}

/// How a request that was understood went.
#[derive(Debug, Clone, Copy, PartialEq, Eq, Structural)]
pub enum StatusCode {
    Success,
    InvalidTerm,
    Fenced,
}

/// The answer to a batch of writes.
#[derive(Debug, Clone, Copy, PartialEq, Eq, Structural)]
pub struct WriteResponse {
    pub code: StatusCode,
    pub commit_offset: i64,
    pub timeline_id: i64,
    pub term: i64,
}

/// The answer to a request to fence a timeline.
#[derive(Debug, Clone, Copy, PartialEq, Eq, Structural)]
pub struct FenceResponse {
    pub code: StatusCode,
    pub lra: i64,
    pub term: i64,
}

/// The answer to a request to fence a timeline at a term: the offset of its
/// last acknowledged event, or the term that refuses the request.
pub open spec fn fence_response(storage: StorageView, timeline_id: i64, term: i64) -> FenceResponse {
    if storage::accepts(storage.term(timeline_id), term) {
        FenceResponse {
            code: StatusCode::Success,
            lra: match storage.last_acknowledged(timeline_id) {
                Some(offset) => offset,
                None => 0,
            },
            term,
        }
    } else {
        FenceResponse { code: StatusCode::Fenced, lra: (-1) as i64, term: storage.term(timeline_id) }
    }
}

/// Fences a timeline.
pub fn fence(storage: &mut UnitStorage, timeline_id: i64, term: i64) -> (response: FenceResponse)
    ensures
        ({
            let current = old(storage)@.term(timeline_id);
            if storage::accepts(current, term) {
                &&& response == (FenceResponse {
                    code: StatusCode::Success,
                    lra: match old(storage)@.last_acknowledged(timeline_id) {
                        Some(offset) => offset,
                        None => 0,
                    },
                    term,
                })
                &&& final(storage)@ == (StorageView {
                    terms: old(storage)@.terms.insert(timeline_id, storage::fenced(current, term)),
                    ..old(storage)@
                })
            } else {
                &&& response.code == StatusCode::Fenced
                &&& response.lra == -1
                &&& response.term == current
                &&& final(storage)@ == old(storage)@
            }
        }),
        response == fence_response(old(storage)@, timeline_id, term),
        final(storage)@ == old(storage)@.with_fence(timeline_id, term),
        response.code != StatusCode::Success ==> final(storage)@ == old(storage)@,
        response.code == StatusCode::Success <==> term >= old(storage)@.term(timeline_id),
        response.code == StatusCode::Success ==> final(storage)@.term(timeline_id) == term,
{
    match storage.fence(timeline_id, term) {
        Ok(lra) => FenceResponse { code: StatusCode::Success, lra, term },
        Err(current) => FenceResponse { code: StatusCode::Fenced, lra: -1, term: current },
    }
}

/// One write of a batch.
#[derive(Debug)]
pub struct WriteItem {
    pub event: Option<Event>,
    pub trunc: bool,
}

/// A [`WriteItem`] as a mathematical value.
#[verifier::ext_equal]
pub struct ItemView {
    pub event: Option<EventView>,
    pub trunc: bool,
}

impl View for WriteItem {
    type V = ItemView;

    open spec fn view(&self) -> ItemView {
        ItemView {
            event: match self.event {
                Some(event) => Some(event@),
                None => None,
            },
            trunc: self.trunc,
        }
    }
}

/// Items as mathematical values.
pub open spec fn item_views(items: Seq<WriteItem>) -> Seq<ItemView> {
    items.map_values(|item: WriteItem| item@)
}

/// Why a batch of writes is refused.
#[derive(Debug)]
pub enum Refusal {
    Status(Status),
    Response(WriteResponse),
}

/// A [`Refusal`] as a mathematical value.
pub enum RefusalView {
    Status(StatusView),
    Response(WriteResponse),
}

impl View for Refusal {
    type V = RefusalView;

    open spec fn view(&self) -> RefusalView {
        match self {
            Refusal::Status(status) => RefusalView::Status(status@),
            Refusal::Response(response) => RefusalView::Response(*response),
        }
    }
}

/// The answer to a write with a term below the one its timeline is fenced at.
pub open spec fn stale_term(timeline_id: i64, current: i64) -> WriteResponse {
    WriteResponse { code: StatusCode::InvalidTerm, commit_offset: (-1) as i64, timeline_id, term: current }
}

/// Why the items of a batch are refused, where those before them belong to one
/// timeline and term.
pub open spec fn items_refusal(
    protocol: Protocol,
    items: Seq<ItemView>,
    storage: StorageView,
    batch: Option<(i64, i64)>,
) -> Option<RefusalView>
    decreases items.len(),
{
    if items.len() == 0 {
        None
    } else {
        match items[0].event {
            None => Some(RefusalView::Status(Fault::MissingEvent.reported(protocol))),
            Some(event) => {
                let owner = (event.timeline_id, event.term);
                if batch is Some && batch != Some(owner) {
                    Some(RefusalView::Status(Fault::MixedBatch.reported(protocol)))
                } else if !storage::accepts(storage.term(event.timeline_id), event.term) {
                    Some(RefusalView::Response(stale_term(event.timeline_id, storage.term(event.timeline_id))))
                } else {
                    items_refusal(protocol, items.skip(1), storage, Some(owner))
                }
            },
        }
    }
}

/// Why a batch is refused.
pub open spec fn batch_refusal(protocol: Protocol, items: Seq<ItemView>, storage: StorageView) -> Option<RefusalView> {
    if items.len() == 0 {
        Some(RefusalView::Status(Fault::EmptyBatch.reported(protocol)))
    } else {
        items_refusal(protocol, items, storage, None)
    }
}

/// A batch of writes of one timeline and term.
pub struct WriteBatch {
    pub timeline_id: i64,
    pub term: i64,
    pub writes: Vec<(Event, bool)>,
}

/// A write as a mathematical value: the event, and whether it truncates.
pub open spec fn write_view(write: (Event, bool)) -> ItemView {
    ItemView { event: Some(write.0@), trunc: write.1 }
}

/// Writes as mathematical values.
pub open spec fn write_views(writes: Seq<(Event, bool)>) -> Seq<ItemView> {
    writes.map_values(|write: (Event, bool)| write_view(write))
}

/// Checks a batch of writes before any of it is appended to the log.
pub fn check_batch(protocol: Protocol, items: &Vec<WriteItem>, storage: &UnitStorage) -> (result: Result<
    WriteBatch,
    Refusal,
>)
    ensures
        match result {
            Ok(batch) => {
                &&& batch_refusal(protocol, item_views(items@), storage@) is None
                &&& write_views(batch.writes@) == item_views(items@)
                &&& item_views(items@)[0].event matches Some(event)
                &&& batch.timeline_id == event.timeline_id
                &&& batch.term == event.term
            },
            Err(refusal) => batch_refusal(protocol, item_views(items@), storage@) == Some(refusal@),
        },
{
    if items.len() == 0 {
        return Err(Refusal::Status(Fault::EmptyBatch.status(protocol)));
    }
    let ghost all = item_views(items@);
    let mut writes: Vec<(Event, bool)> = Vec::new();
    let mut owner: Option<(i64, i64)> = None;
    let mut at: usize = 0;
    proof {
        assert(all.skip(0) =~= all);
        assert(write_views(writes@) =~= all.take(0));
    }
    while at < items.len()
        invariant
            at <= items@.len(),
            items@.len() > 0,
            all == item_views(items@),
            items_refusal(protocol, all, storage@, None) == items_refusal(
                protocol,
                all.skip(at as int),
                storage@,
                owner,
            ),
            write_views(writes@) == all.take(at as int),
            at == 0 ==> owner is None,
            at > 0 ==> (all[0].event matches Some(event) && owner == Some((event.timeline_id, event.term))),
        decreases items@.len() - at,
    {
        let item: &WriteItem = &items[at];
        let ghost before = write_views(writes@);
        proof {
            assert(all.skip(at as int)[0] == item@);
            assert(all.skip(at as int).skip(1) =~= all.skip(at + 1));
            assert(all[at as int] == item@);
        }
        let event: &Event = match &item.event {
            Some(event) => event,
            None => {
                return Err(Refusal::Status(Fault::MissingEvent.status(protocol)));
            },
        };
        match owner {
            Some((timeline_id, term)) => {
                if timeline_id != event.timeline_id || term != event.term {
                    return Err(Refusal::Status(Fault::MixedBatch.status(protocol)));
                }
            },
            None => {
                owner = Some((event.timeline_id, event.term));
            },
        }
        match storage.check_term(event.timeline_id, event.term) {
            Ok(()) => {},
            Err(current) => {
                return Err(
                    Refusal::Response(
                        WriteResponse {
                            code: StatusCode::InvalidTerm,
                            commit_offset: -1,
                            timeline_id: event.timeline_id,
                            term: current,
                        },
                    ),
                );
            },
        }
        let write: (Event, bool) = (event.clone(), item.trunc);
        assert(write_view(write) =~= all[at as int]);
        writes.push(write);
        assert(write_views(writes@) =~= before.push(write_view(write)));
        assert(all.take(at + 1) =~= all.take(at as int).push(all[at as int]));
        at += 1;
    }
    assert(all.take(all.len() as int) =~= all);
    match owner {
        Some((timeline_id, term)) => Ok(WriteBatch { timeline_id, term, writes }),
        None => Ok(WriteBatch { timeline_id: 0, term: 0, writes }),
    }
}

/// How far one batch of writes has come on its way into the log.
#[derive(Debug, Clone, Copy, PartialEq, Eq, Structural)]
pub enum EnqueuePhase {
    /// Room for one more write in flight is waited for.
    Reserving,
    /// The log is asked to append the write.
    Appending,
    Finished,
}

/// What happened to a batch.
pub enum EnqueueEvent {
    Reserved,
    /// The log appended the write at a position.
    Appended(i64),
    /// The log refused the write, for a reason in words.
    AppendFailed(String),
    /// The stream was cancelled.
    Cancelled,
    /// Nobody takes writes in flight any more.
    Closed,
}

/// A write that the log holds and that waits until it is durable.
pub struct InflightWrite {
    pub wal_offset: i64,
    pub event: Event,
    pub trunc: bool,
    /// The batch that it belongs to.
    pub batch: usize,
}

/// What is to be done next with a batch.
pub enum EnqueueAction {
    /// The write at this place is handed to the log.
    Append(usize),
    /// The write is in flight. If `more` holds, room for the next one is
    /// waited for.
    Forward { write: InflightWrite, more: bool },
    /// The whole batch fails.
    Fail(Status),
    /// The event does not fit the phase.
    Ignore,
}

/// One batch of writes on its way into the log.
pub struct Enqueue {
    pub protocol: Protocol,
    pub batch: usize,
    pub writes: Vec<(Event, bool)>,
    pub next: usize,
    pub phase: EnqueuePhase,
}

impl Enqueue {
    pub open spec fn valid(&self) -> bool {
        &&& self.next <= self.writes@.len()
        &&& self.phase != EnqueuePhase::Finished ==> self.next < self.writes@.len()
    }

    /// Only the place and the phase may differ.
    pub open spec fn keeps(&self, before: &Enqueue) -> bool {
        &&& self.protocol == before.protocol
        &&& self.batch == before.batch
        &&& self.writes == before.writes
    }

    /// Starts with the first write of a batch.
    pub fn new(protocol: Protocol, batch: usize, writes: Vec<(Event, bool)>) -> (enqueue: Enqueue)
        ensures
            enqueue.valid(),
            enqueue.protocol == protocol,
            enqueue.batch == batch,
            enqueue.writes == writes,
            enqueue.next == 0,
            enqueue.phase == (if writes@.len() == 0 {
                EnqueuePhase::Finished
            } else {
                EnqueuePhase::Reserving
            }),
    {
        let phase: EnqueuePhase = if writes.len() == 0 { EnqueuePhase::Finished } else { EnqueuePhase::Reserving };
        Enqueue { protocol, batch, writes, next: 0, phase }
    }

    /// Decides what an event means for the batch.
    pub fn step(&mut self, event: EnqueueEvent) -> (action: EnqueueAction)
        requires
            old(self).valid(),
        ensures
            final(self).valid(),
            final(self).keeps(old(self)),
            match (old(self).phase, event) {
                (EnqueuePhase::Reserving, EnqueueEvent::Reserved) => {
                    &&& action == EnqueueAction::Append(old(self).next)
                    &&& final(self).phase == EnqueuePhase::Appending
                    &&& final(self).next == old(self).next
                },
                (EnqueuePhase::Appending, EnqueueEvent::Appended(offset)) => {
                    &&& action matches EnqueueAction::Forward { write, more }
                    &&& write.wal_offset == offset
                    &&& write.event@ == old(self).writes@[old(self).next as int].0@
                    &&& write.trunc == old(self).writes@[old(self).next as int].1
                    &&& write.batch == old(self).batch
                    &&& more == (old(self).next + 1 < old(self).writes@.len())
                    &&& final(self).next == old(self).next + 1
                    &&& final(self).phase == (if more {
                        EnqueuePhase::Reserving
                    } else {
                        EnqueuePhase::Finished
                    })
                },
                (EnqueuePhase::Appending, EnqueueEvent::AppendFailed(reason)) => {
                    &&& action matches EnqueueAction::Fail(status)
                    &&& status@ == (StatusView { kind: StatusKind::Internal, message: reason@ })
                    &&& final(self).phase == EnqueuePhase::Finished
                    &&& final(self).next == old(self).next
                },
                (EnqueuePhase::Reserving, EnqueueEvent::Closed) => {
                    &&& action matches EnqueueAction::Fail(status)
                    &&& status@ == Fault::WritesClosed.reported(old(self).protocol)
                    &&& final(self).phase == EnqueuePhase::Finished
                    &&& final(self).next == old(self).next
                },
                (EnqueuePhase::Reserving, EnqueueEvent::Cancelled)
                | (EnqueuePhase::Appending, EnqueueEvent::Cancelled) => {
                    &&& action matches EnqueueAction::Fail(status)
                    &&& status@ == Fault::WritesCancelled.reported(old(self).protocol)
                    &&& final(self).phase == EnqueuePhase::Finished
                    &&& final(self).next == old(self).next
                },
                _ => action is Ignore && *final(self) == *old(self),
            },
    {
        match (self.phase, event) {
            (EnqueuePhase::Reserving, EnqueueEvent::Reserved) => {
                self.phase = EnqueuePhase::Appending;
                EnqueueAction::Append(self.next)
            },
            (EnqueuePhase::Appending, EnqueueEvent::Appended(offset)) => {
                let at: usize = self.next;
                let write = InflightWrite {
                    wal_offset: offset,
                    event: self.writes[at].0.clone(),
                    trunc: self.writes[at].1,
                    batch: self.batch,
                };
                assert(self.writes.len() <= usize::MAX);
                let more: bool = at + 1 < self.writes.len();
                self.next = at + 1;
                self.phase = if more { EnqueuePhase::Reserving } else { EnqueuePhase::Finished };
                EnqueueAction::Forward { write, more }
            },
            (EnqueuePhase::Appending, EnqueueEvent::AppendFailed(reason)) => {
                self.phase = EnqueuePhase::Finished;
                EnqueueAction::Fail(Status { kind: StatusKind::Internal, message: reason })
            },
            (EnqueuePhase::Reserving, EnqueueEvent::Closed) => {
                self.phase = EnqueuePhase::Finished;
                EnqueueAction::Fail(Fault::WritesClosed.status(self.protocol))
            },
            (EnqueuePhase::Reserving, EnqueueEvent::Cancelled)
            | (EnqueuePhase::Appending, EnqueueEvent::Cancelled) => {
                self.phase = EnqueuePhase::Finished;
                EnqueueAction::Fail(Fault::WritesCancelled.status(self.protocol))
            },
            _ => EnqueueAction::Ignore,
        }
    }
}

/// What is known of a batch of writes that was not answered yet.
#[derive(Debug, Clone, Copy, PartialEq, Eq, Structural)]
pub struct BatchAck {
    pub timeline_id: i64,
    pub term: i64,
    /// How many of its writes are not complete.
    pub remaining: usize,
    /// The largest offset of the complete ones.
    pub max_offset: i64,
    /// The batch was answered.
    pub completed: bool,
}

/// What is known of a batch after one more of its writes is complete.
pub open spec fn acked(ack: BatchAck, offset: i64) -> BatchAck {
    if ack.completed {
        ack
    } else {
        let remaining = (if ack.remaining == 0 {
            0
        } else {
            ack.remaining - 1
        }) as usize;
        BatchAck {
            remaining,
            max_offset: if ack.max_offset < offset {
                offset
            } else {
                ack.max_offset
            },
            completed: remaining == 0,
            ..ack
        }
    }
}

/// The answer to a batch of which all writes are complete.
pub open spec fn committed(ack: BatchAck) -> WriteResponse {
    WriteResponse {
        code: StatusCode::Success,
        commit_offset: ack.max_offset,
        timeline_id: ack.timeline_id,
        term: ack.term,
    }
}

impl BatchAck {
    pub fn new(timeline_id: i64, term: i64, item_count: usize) -> (ack: BatchAck)
        ensures
            ack.timeline_id == timeline_id,
            ack.term == term,
            ack.remaining == item_count,
            ack.max_offset == -1,
            !ack.completed,
    {
        BatchAck { timeline_id, term, remaining: item_count, max_offset: -1, completed: false }
    }

    /// One more write is complete. Returns the answer if it was the last one.
    pub fn complete_ok(&mut self, offset: i64) -> (response: Option<WriteResponse>)
        ensures
            *final(self) == acked(*old(self), offset),
            response == (if !old(self).completed && final(self).completed {
                Some(committed(*final(self)))
            } else {
                None
            }),
    {
        if self.completed {
            return None;
        }
        if self.max_offset < offset {
            self.max_offset = offset;
        }
        self.remaining = self.remaining.saturating_sub(1);
        if self.remaining == 0 {
            self.completed = true;
            Some(
                WriteResponse {
                    code: StatusCode::Success,
                    commit_offset: self.max_offset,
                    timeline_id: self.timeline_id,
                    term: self.term,
                },
            )
        } else {
            None
        }
    }

    /// The batch failed. Returns the answer if there was none yet.
    pub fn fail_status(&mut self, status: Status) -> (response: Option<Status>)
        ensures
            *final(self) == (BatchAck { completed: true, ..*old(self) }),
            match response {
                Some(answer) => !old(self).completed && answer@ == status@,
                None => old(self).completed,
            },
    {
        if self.completed {
            return None;
        }
        self.completed = true;
        Some(status)
    }
}

/// What a batch of writes comes to before any of it is appended to the log: a
/// batch that waits for its writes, and the writes on their way.
fn enqueue_batch(protocol: Protocol, items: &Vec<WriteItem>, batch: usize, storage: &UnitStorage) -> (result: Result<
    (BatchAck, Enqueue),
    Refusal,
>)
    ensures
        is_enqueued(protocol, item_views(items@), batch, storage@, result),
{
    match check_batch(protocol, items, storage) {
        Ok(checked) => {
            let ack: BatchAck = BatchAck::new(checked.timeline_id, checked.term, items.len());
            assert(write_views(checked.writes@).len() == checked.writes@.len());
            Ok((ack, Enqueue::new(protocol, batch, checked.writes)))
        },
        Err(refusal) => Err(refusal),
    }
}

/// Whether a result is what a batch comes to.
pub open spec fn is_enqueued(
    protocol: Protocol,
    items: Seq<ItemView>,
    batch: usize,
    storage: StorageView,
    result: Result<(BatchAck, Enqueue), Refusal>,
) -> bool {
    match result {
        Ok((ack, enqueue)) => {
            &&& batch_refusal(protocol, items, storage) is None
            &&& items[0].event matches Some(event)
            &&& ack.timeline_id == event.timeline_id
            &&& ack.term == event.term
            &&& ack.remaining == items.len()
            &&& ack.max_offset == -1
            &&& !ack.completed
            &&& enqueue.valid()
            &&& enqueue.protocol == protocol
            &&& enqueue.batch == batch
            &&& write_views(enqueue.writes@) == items
            &&& enqueue.next == 0
            &&& enqueue.phase == EnqueuePhase::Reserving
        },
        Err(refusal) => batch_refusal(protocol, items, storage) == Some(refusal@),
    }
}

/// Takes a batch of appends.
pub fn enqueue_append_batch(items: &Vec<WriteItem>, batch: usize, storage: &UnitStorage) -> (result: Result<
    (BatchAck, Enqueue),
    Refusal,
>)
    ensures
        is_enqueued(Protocol::Append, item_views(items@), batch, storage@, result),
{
    enqueue_batch(Protocol::Append, items, batch, storage)
}

/// Takes a batch of records.
pub fn enqueue_record_batch(items: &Vec<WriteItem>, batch: usize, storage: &UnitStorage) -> (result: Result<
    (BatchAck, Enqueue),
    Refusal,
>)
    ensures
        is_enqueued(Protocol::Record, item_views(items@), batch, storage@, result),
{
    enqueue_batch(Protocol::Record, items, batch, storage)
}

/// A batch that is taken holds writes of one timeline and term, which the
/// timeline accepts.
pub proof fn taken_batch_is_uniform(protocol: Protocol, items: Seq<ItemView>, storage: StorageView, at: int)
    requires
        batch_refusal(protocol, items, storage) is None,
        0 <= at < items.len(),
    ensures
        items[0].event is Some,
        items[at].event is Some,
        items[at].event->0.timeline_id == items[0].event->0.timeline_id,
        items[at].event->0.term == items[0].event->0.term,
        storage::accepts(storage.term(items[at].event->0.timeline_id), items[at].event->0.term),
{
    taken_items_are_uniform(protocol, items, storage, None, at);
}

proof fn taken_items_are_uniform(
    protocol: Protocol,
    items: Seq<ItemView>,
    storage: StorageView,
    batch: Option<(i64, i64)>,
    at: int,
)
    requires
        items_refusal(protocol, items, storage, batch) is None,
        0 <= at < items.len(),
    ensures
        items[0].event is Some,
        items[at].event is Some,
        items[at].event->0.timeline_id == items[0].event->0.timeline_id,
        items[at].event->0.term == items[0].event->0.term,
        batch is Some ==> batch == Some((items[0].event->0.timeline_id, items[0].event->0.term)),
        storage::accepts(storage.term(items[at].event->0.timeline_id), items[at].event->0.term),
    decreases items.len(),
{
    let event = items[0].event->0;
    if at > 0 {
        taken_items_are_uniform(protocol, items.skip(1), storage, Some((event.timeline_id, event.term)), at - 1);
        assert(items.skip(1)[at - 1] == items[at]);
    }
}

/// What is known of a batch after several of its writes are complete.
pub open spec fn acked_all(ack: BatchAck, offsets: Seq<i64>) -> BatchAck
    decreases offsets.len(),
{
    if offsets.len() == 0 {
        ack
    } else {
        acked(acked_all(ack, offsets.drop_last()), offsets.last())
    }
}

/// A batch is answered when its last write is complete and not before, with an
/// offset that none of its writes exceeds. One of them has it, unless they all
/// lie below the smallest offset that is answered.
pub proof fn batch_is_answered_at_the_end(ack: BatchAck, offsets: Seq<i64>)
    requires
        !ack.completed,
        ack.max_offset == -1,
        0 < offsets.len() <= ack.remaining,
    ensures
        ({
            let after = acked_all(ack, offsets);
            &&& after.completed == (offsets.len() == ack.remaining)
            &&& after.remaining == ack.remaining - offsets.len()
            &&& after.timeline_id == ack.timeline_id
            &&& after.term == ack.term
            &&& after.max_offset == -1 || offsets.contains(after.max_offset)
            &&& forall|i: int| 0 <= i < offsets.len() ==> offsets[i] <= after.max_offset
        }),
    decreases offsets.len(),
{
    let rest = offsets.drop_last();
    let last = offsets.last();
    assert(offsets[offsets.len() - 1] == last);
    if rest.len() > 0 {
        batch_is_answered_at_the_end(ack, rest);
        let before = acked_all(ack, rest);
        if before.max_offset != -1 {
            let k = choose|k: int| 0 <= k < rest.len() && rest[k] == before.max_offset;
            assert(offsets[k] == before.max_offset);
        }
        assert forall|i: int| 0 <= i < offsets.len() implies offsets[i] <= acked_all(ack, offsets).max_offset by {
            if i < rest.len() {
                assert(rest[i] == offsets[i]);
            }
        }
    } else {
        assert(acked_all(ack, rest) == ack);
    }
}

/// An [`InflightWrite`] as a mathematical value.
#[verifier::ext_equal]
pub struct InflightView {
    pub wal_offset: i64,
    pub event: EventView,
    pub trunc: bool,
    pub batch: usize,
}

impl View for InflightWrite {
    type V = InflightView;

    open spec fn view(&self) -> InflightView {
        InflightView { wal_offset: self.wal_offset, event: self.event@, trunc: self.trunc, batch: self.batch }
    }
}

/// Writes in flight as mathematical values.
pub open spec fn inflight_views(writes: Seq<InflightWrite>) -> Seq<InflightView> {
    writes.map_values(|write: InflightWrite| write@)
}

/// How many writes, from the first on, are durable.
pub open spec fn durable_count(pending: Seq<InflightView>, synced: i64) -> nat
    decreases pending.len(),
{
    if pending.len() == 0 || pending[0].wal_offset > synced {
        0
    } else {
        1 + durable_count(pending.skip(1), synced)
    }
}

/// The storage after a write became visible.
pub open spec fn delivered(storage: StorageView, write: InflightView) -> StorageView {
    storage.with_write(write.event, write.trunc).with_acknowledged(write.event.timeline_id, write.event.offset)
}

/// The storage after writes became visible, in order.
pub open spec fn all_delivered(storage: StorageView, writes: Seq<InflightView>) -> StorageView
    decreases writes.len(),
{
    if writes.len() == 0 {
        storage
    } else {
        delivered(all_delivered(storage, writes.drop_last()), writes.last())
    }
}

/// What is known of the batches after writes became visible, in order.
pub open spec fn acks_after(acks: Seq<BatchAck>, writes: Seq<InflightView>) -> Seq<BatchAck>
    decreases writes.len(),
{
    if writes.len() == 0 {
        acks
    } else {
        let before = acks_after(acks, writes.drop_last());
        let write = writes.last();
        before.update(write.batch as int, acked(before[write.batch as int], write.event.offset))
    }
}

/// The answers that the writes give, in order.
pub open spec fn answers_after(acks: Seq<BatchAck>, writes: Seq<InflightView>) -> Seq<(usize, WriteResponse)>
    decreases writes.len(),
{
    if writes.len() == 0 {
        Seq::empty()
    } else {
        let rest = answers_after(acks, writes.drop_last());
        let write = writes.last();
        let before = acks_after(acks, writes.drop_last())[write.batch as int];
        let after = acked(before, write.event.offset);
        if !before.completed && after.completed {
            rest.push((write.batch, committed(after)))
        } else {
            rest
        }
    }
}

/// Makes a durable write visible and counts it for its batch. Returns the
/// answer to the batch if it was its last one.
pub fn deliver(storage: &mut UnitStorage, ack: &mut BatchAck, write: InflightWrite) -> (response: Option<
    WriteResponse,
>)
    requires
        old(storage)@.is_ordered(),
    ensures
        final(storage)@ == delivered(old(storage)@, write@),
        final(storage)@.is_ordered(),
        *final(ack) == acked(*old(ack), write.event.offset),
        response == (if !old(ack).completed && final(ack).completed {
            Some(committed(*final(ack)))
        } else {
            None
        }),
{
    let timeline_id: i64 = write.event.timeline_id;
    let offset: i64 = write.event.offset;
    storage.apply_write(write.event, write.trunc);
    let ghost visible = storage@;
    storage.update_lra(timeline_id, offset);
    proof {
        assert forall|other: i64| storage::in_order(#[trigger] storage@.timeline(other)) by {
            assert(storage@.timeline(other) == visible.timeline(other));
        }
    }
    ack.complete_ok(offset)
}

/// The writes that wait until they are durable.
pub struct SyncQueue {
    pending: VecDeque<InflightWrite>,
    synced_offset: i64,
    inflight_closed: bool,
}

impl SyncQueue {
    /// The writes that wait, the oldest first.
    pub closed spec fn pending(&self) -> Seq<InflightView> {
        inflight_views(self.pending@)
    }

    /// The log is durable through this position.
    pub closed spec fn synced(&self) -> i64 {
        self.synced_offset
    }

    /// No more writes come.
    pub closed spec fn is_closed(&self) -> bool {
        self.inflight_closed
    }

    pub fn new(synced_offset: i64) -> (queue: SyncQueue)
        ensures
            queue.pending().len() == 0,
            queue.synced() == synced_offset,
            !queue.is_closed(),
    {
        let queue = SyncQueue { pending: VecDeque::new(), synced_offset, inflight_closed: false };
        assert(queue.pending() =~= Seq::<InflightView>::empty());
        queue
    }

    /// The log is durable through a position, or through a later one that was
    /// seen before.
    pub fn observe(&mut self, watched: i64)
        ensures
            final(self).synced() == (if old(self).synced() < watched {
                watched
            } else {
                old(self).synced()
            }),
            final(self).pending() == old(self).pending(),
            final(self).is_closed() == old(self).is_closed(),
    {
        if self.synced_offset < watched {
            self.synced_offset = watched;
        }
    }

    /// The log's last durable offset changed.
    pub fn changed(&mut self, watched: i64)
        ensures
            final(self).synced() == watched,
            final(self).pending() == old(self).pending(),
            final(self).is_closed() == old(self).is_closed(),
    {
        self.synced_offset = watched;
    }

    /// One more write waits, or no more writes come.
    pub fn receive(&mut self, write: Option<InflightWrite>)
        ensures
            final(self).synced() == old(self).synced(),
            match write {
                Some(write) => {
                    &&& final(self).pending() == old(self).pending().push(write@)
                    &&& final(self).is_closed() == old(self).is_closed()
                },
                None => {
                    &&& final(self).pending() == old(self).pending()
                    &&& final(self).is_closed()
                },
            },
    {
        let ghost before = self.pending();
        match write {
            Some(write) => {
                self.pending.push_back(write);
                assert(self.pending() =~= before.push(write@));
            },
            None => {
                self.inflight_closed = true;
            },
        }
    }

    /// Whether all work is done.
    pub fn is_done(&self) -> (done: bool)
        ensures
            done == (self.is_closed() && self.pending().len() == 0),
    {
        self.inflight_closed && self.pending.len() == 0
    }

    /// Takes the oldest write if it is durable.
    pub fn take_due(&mut self) -> (write: Option<InflightWrite>)
        ensures
            final(self).synced() == old(self).synced(),
            final(self).is_closed() == old(self).is_closed(),
            match write {
                Some(write) => {
                    &&& old(self).pending().len() > 0
                    &&& write@ == old(self).pending()[0]
                    &&& write.wal_offset <= old(self).synced()
                    &&& final(self).pending() == old(self).pending().skip(1)
                },
                None => {
                    &&& old(self).pending().len() == 0 || old(self).pending()[0].wal_offset > old(self).synced()
                    &&& final(self).pending() == old(self).pending()
                },
            },
    {
        if self.pending.len() == 0 {
            return None;
        }
        let ghost before = self.pending();
        assert(before[0] == self.pending@[0]@);
        if self.pending[0].wal_offset > self.synced_offset {
            return None;
        }
        let write: Option<InflightWrite> = self.pending.pop_front();
        assert(self.pending() =~= before.skip(1));
        write
    }

    /// Takes the oldest write, durable or not.
    pub fn take_pending(&mut self) -> (write: Option<InflightWrite>)
        ensures
            final(self).synced() == old(self).synced(),
            final(self).is_closed() == old(self).is_closed(),
            match write {
                Some(write) => {
                    &&& old(self).pending().len() > 0
                    &&& write@ == old(self).pending()[0]
                    &&& final(self).pending() == old(self).pending().skip(1)
                },
                None => old(self).pending().len() == 0 && final(self).pending() == old(self).pending(),
            },
    {
        let ghost before = self.pending();
        let write: Option<InflightWrite> = self.pending.pop_front();
        proof {
            if before.len() > 0 {
                assert(before[0] == write->0@);
                assert(self.pending() =~= before.skip(1));
            }
        }
        write
    }

    /// Makes all durable writes visible, the oldest first, and returns the
    /// answers to the batches that are complete.
    pub fn drain_synced_writes(&mut self, storage: &mut UnitStorage, acks: &mut Vec<BatchAck>) -> (answered: Vec<
        (usize, WriteResponse),
    >)
        requires
            old(storage)@.is_ordered(),
            forall|i: int|
                0 <= i < old(self).pending().len() ==> (#[trigger] old(self).pending()[i]).batch < old(acks)@.len(),
        ensures
            final(storage)@.is_ordered(),
            final(self).synced() == old(self).synced(),
            final(self).is_closed() == old(self).is_closed(),
            ({
                let count = durable_count(old(self).pending(), old(self).synced()) as int;
                let due = old(self).pending().take(count);
                &&& count <= old(self).pending().len()
                &&& final(self).pending() == old(self).pending().skip(count)
                &&& final(storage)@ == all_delivered(old(storage)@, due)
                &&& final(acks)@ == acks_after(old(acks)@, due)
                &&& answered@ == answers_after(old(acks)@, due)
            }),
    {
        let ghost all = self.pending();
        let ghost synced = self.synced();
        let ghost first = acks@;
        let ghost held = storage@;
        let ghost mut count: int = 0;
        let mut answered: Vec<(usize, WriteResponse)> = Vec::new();
        proof {
            assert(all.skip(0) =~= all);
            assert(all.take(0) =~= Seq::<InflightView>::empty());
        }
        loop
            invariant
                0 <= count <= all.len(),
                all == old(self).pending(),
                first == old(acks)@,
                held == old(storage)@,
                synced == old(self).synced(),
                self.synced() == synced,
                self.is_closed() == old(self).is_closed(),
                storage@.is_ordered(),
                forall|i: int| 0 <= i < all.len() ==> (#[trigger] all[i]).batch < first.len(),
                acks@.len() == first.len(),
                self.pending() == all.skip(count),
                durable_count(all, synced) == count + durable_count(all.skip(count), synced),
                storage@ == all_delivered(held, all.take(count)),
                acks@ == acks_after(first, all.take(count)),
                answered@ == answers_after(first, all.take(count)),
            ensures
                durable_count(all, synced) == count,
            decreases all.len() - count,
        {
            match self.take_due() {
                None => {
                    break;
                },
                Some(write) => {
                    proof {
                        assert(all.skip(count)[0] == all[count]);
                        assert(all.skip(count).skip(1) =~= all.skip(count + 1));
                        assert(all.take(count + 1).drop_last() =~= all.take(count));
                        assert(all.take(count + 1).last() == all[count]);
                    }
                    let batch: usize = write.batch;
                    let mut ack: BatchAck = acks[batch];
                    match deliver(storage, &mut ack, write) {
                        Some(response) => {
                            answered.push((batch, response));
                        },
                        None => {},
                    }
                    acks.set(batch, ack);
                    proof {
                        count = count + 1;
                    }
                },
            }
        }
        answered
    }
}

/// A chunk of the answer to a read.
#[derive(Debug, Clone, Copy, PartialEq, Eq, Structural)]
pub enum ChunkType {
    Full,
    First,
    Middle,
    Last,
}

/// The answer to a read, or a part of it.
#[derive(Debug)]
pub struct ReadResponse {
    pub code: StatusCode,
    pub chunk: ChunkType,
    pub timeline_id: i64,
    pub events: Vec<Event>,
    /// Where the next read can start.
    pub advanced_offset: i64,
}

/// A [`ReadResponse`] as a mathematical value.
#[verifier::ext_equal]
pub struct ReadView {
    pub code: StatusCode,
    pub chunk: ChunkType,
    pub timeline_id: i64,
    pub events: Seq<EventView>,
    pub advanced_offset: i64,
}

impl View for ReadResponse {
    type V = ReadView;

    open spec fn view(&self) -> ReadView {
        ReadView {
            code: self.code,
            chunk: self.chunk,
            timeline_id: self.timeline_id,
            events: storage::event_views(self.events@),
            advanced_offset: self.advanced_offset,
        }
    }
}

/// Responses as mathematical values.
pub open spec fn read_views(responses: Seq<ReadResponse>) -> Seq<ReadView> {
    responses.map_values(|response: ReadResponse| response@)
}

/// The type of the chunk with an index.
pub open spec fn chunk_type(index: int, count: int) -> ChunkType {
    if count == 1 {
        ChunkType::Full
    } else if index == 0 {
        ChunkType::First
    } else if index + 1 == count {
        ChunkType::Last
    } else {
        ChunkType::Middle
    }
}

/// How many chunks a number of events takes.
pub open spec fn chunk_count(events: nat) -> int {
    (events + READ_CHUNK_SIZE - 1) / (READ_CHUNK_SIZE as int)
}

/// The events of the chunk with an index.
pub open spec fn chunk_events(events: Seq<EventView>, index: int) -> Seq<EventView> {
    let start = index * READ_CHUNK_SIZE;
    let end = start + READ_CHUNK_SIZE;
    events.subrange(
        start,
        if end < events.len() {
            end
        } else {
            events.len() as int
        },
    )
}

/// The chunk with an index.
pub open spec fn chunk_response(timeline_id: i64, events: Seq<EventView>, index: int) -> ReadView {
    let chunk = chunk_events(events, index);
    ReadView {
        code: StatusCode::Success,
        chunk: chunk_type(index, chunk_count(events.len())),
        timeline_id,
        events: chunk,
        advanced_offset: (chunk.last().offset + 1) as i64,
    }
}

/// The answers to a read that found events.
pub open spec fn chunked(timeline_id: i64, events: Seq<EventView>) -> Seq<ReadView> {
    Seq::new(chunk_count(events.len()) as nat, |index: int| chunk_response(timeline_id, events, index))
}

/// The answer to a read that found nothing.
pub open spec fn nothing_read(timeline_id: i64, start_offset: i64) -> ReadView {
    ReadView {
        code: StatusCode::Success,
        chunk: ChunkType::Full,
        timeline_id,
        events: Seq::empty(),
        advanced_offset: start_offset,
    }
}

/// Answers a request for the events of a timeline from `start_offset` on and
/// before `end_offset`.
pub fn handle_read_request(
    protocol: Protocol,
    storage: &UnitStorage,
    timeline_id: i64,
    start_offset: i64,
    end_offset: i64,
) -> (result: Result<Vec<ReadResponse>, Status>)
    requires
        storage@.is_ordered(),
    ensures
        ({
            let events = storage::in_range(storage@.timeline(timeline_id), start_offset, end_offset);
            match result {
                Ok(responses) => {
                    &&& start_offset <= end_offset
                    &&& read_views(responses@) == (if events.len() == 0 {
                        seq![nothing_read(timeline_id, start_offset)]
                    } else {
                        chunked(timeline_id, events)
                    })
                },
                Err(status) => end_offset < start_offset && status@ == Fault::InvalidRange.reported(protocol),
            }
        }),
{
    if end_offset < start_offset {
        return Err(Fault::InvalidRange.status(protocol));
    }
    let events: Vec<Event> = storage.read_events(timeline_id, start_offset, end_offset);
    let ghost all = storage::event_views(events@);
    let mut responses: Vec<ReadResponse> = Vec::new();
    if events.len() == 0 {
        responses.push(
            ReadResponse {
                code: StatusCode::Success,
                chunk: ChunkType::Full,
                timeline_id,
                events: Vec::new(),
                advanced_offset: start_offset,
            },
        );
        assert(responses@[0]@ =~= nothing_read(timeline_id, start_offset));
        assert(read_views(responses@) =~= seq![nothing_read(timeline_id, start_offset)]);
        return Ok(responses);
    }
    let length: usize = events.len();
    assert(length <= usize::MAX);
    let count: usize = (length - 1) / READ_CHUNK_SIZE + 1;
    proof {
        storage::read_events_are_in_order(storage@.timeline(timeline_id), start_offset, end_offset);
        assert(count == chunk_count(all.len()));
    }
    let mut index: usize = 0;
    assert(read_views(responses@) =~= chunked(timeline_id, all).take(0));
    while index < count
        invariant
            index <= count,
            length == events@.len(),
            length > 0,
            count == (length - 1) / READ_CHUNK_SIZE as int + 1,
            count == chunk_count(all.len()),
            all == storage::event_views(events@),
            forall|i: int| 0 <= i < all.len() ==> (#[trigger] all[i]).offset < end_offset,
            read_views(responses@) == chunked(timeline_id, all).take(index as int),
        decreases count - index,
    {
        let start: usize = index * READ_CHUNK_SIZE;
        let end: usize = if length - start < READ_CHUNK_SIZE { length } else { start + READ_CHUNK_SIZE };
        let chunk: ChunkType = if count == 1 {
            ChunkType::Full
        } else if index == 0 {
            ChunkType::First
        } else if index + 1 == count {
            ChunkType::Last
        } else {
            ChunkType::Middle
        };
        let part: Vec<Event> = copy_events(&events, start, end);
        proof {
            assert(storage::event_views(part@) =~= chunk_events(all, index as int));
            assert(all[end - 1].offset < end_offset);
            assert(chunk_events(all, index as int).last() == all[end - 1]);
        }
        let advanced_offset: i64 = events[end - 1].offset + 1;
        let response = ReadResponse { code: StatusCode::Success, chunk, timeline_id, events: part, advanced_offset };
        let ghost before = read_views(responses@);
        assert(response@ =~= chunk_response(timeline_id, all, index as int));
        responses.push(response);
        proof {
            assert(read_views(responses@) =~= before.push(response@));
            assert(chunked(timeline_id, all).take(index + 1) =~= chunked(timeline_id, all).take(index as int).push(
                chunk_response(timeline_id, all, index as int),
            ));
        }
        index += 1;
    }
    assert(chunked(timeline_id, all).take(count as int) =~= chunked(timeline_id, all));
    Ok(responses)
}

/// A copy of some events.
fn copy_events(events: &Vec<Event>, start: usize, end: usize) -> (copy: Vec<Event>)
    requires
        start <= end <= events@.len(),
    ensures
        storage::event_views(copy@) == storage::event_views(events@).subrange(start as int, end as int),
{
    let ghost all = storage::event_views(events@);
    let mut copy: Vec<Event> = Vec::new();
    let mut at: usize = start;
    assert(storage::event_views(copy@) =~= all.subrange(start as int, start as int));
    while at < end
        invariant
            start <= at <= end <= events@.len(),
            all == storage::event_views(events@),
            storage::event_views(copy@) == all.subrange(start as int, at as int),
        decreases end - at,
    {
        let ghost before = storage::event_views(copy@);
        let event: Event = events[at].clone();
        copy.push(event);
        proof {
            assert(storage::event_views(copy@) =~= before.push(event@));
            assert(all.subrange(start as int, at + 1) =~= all.subrange(start as int, at as int).push(all[at as int]));
        }
        at += 1;
    }
    copy
}

/// The events of the first chunks, one after another.
pub open spec fn joined_chunks(events: Seq<EventView>, count: nat) -> Seq<EventView>
    decreases count,
{
    if count == 0 {
        Seq::empty()
    } else {
        joined_chunks(events, (count - 1) as nat) + chunk_events(events, count - 1)
    }
}

/// The chunks of an answer hold all events that were read, once and in order.
pub proof fn chunks_hold_all_events(events: Seq<EventView>)
    requires
        events.len() > 0,
    ensures
        joined_chunks(events, chunk_count(events.len()) as nat) == events,
{
    let count = chunk_count(events.len());
    first_chunks_hold(events, count);
    assert(events.take(events.len() as int) =~= events);
}

proof fn first_chunks_hold(events: Seq<EventView>, count: int)
    requires
        0 <= count <= chunk_count(events.len()),
    ensures
        joined_chunks(events, count as nat) == events.take(
            if count * READ_CHUNK_SIZE < events.len() {
                count * READ_CHUNK_SIZE
            } else {
                events.len() as int
            },
        ),
    decreases count,
{
    if count == 0 {
        assert(events.take(0) =~= Seq::<EventView>::empty());
    } else {
        first_chunks_hold(events, count - 1);
        let start = (count - 1) * READ_CHUNK_SIZE;
        assert(start < events.len());
        let end = if count * READ_CHUNK_SIZE < events.len() {
            count * READ_CHUNK_SIZE
        } else {
            events.len() as int
        };
        assert(events.take(start) + events.subrange(start, end) =~= events.take(end));
    }
}

/// A write that became visible is read back in every range that holds its
/// offset.
pub proof fn delivered_write_is_read(storage: StorageView, write: InflightView, start: i64, end: i64)
    requires
        storage.is_ordered(),
        start <= write.event.offset < end,
    ensures
        storage::in_range(
            delivered(storage, write).timeline(write.event.timeline_id),
            start,
            end,
        ).contains(write.event),
{
    let before = storage.timeline(write.event.timeline_id);
    assert(storage::in_order(before));
    if write.trunc {
        storage::earlier_events_are_in_order(before, write.event.offset);
        storage::written_event_is_read(
            storage::before_offset(before, write.event.offset),
            write.event,
            start,
            end,
        );
    } else {
        storage::written_event_is_read(before, write.event, start, end);
    }
}

/// Writes become visible once the log is durable through them, and no write
/// before an older one.
pub proof fn drained_writes_are_durable(pending: Seq<InflightView>, synced: i64)
    ensures
        durable_count(pending, synced) <= pending.len(),
        forall|i: int|
            0 <= i < durable_count(pending, synced) ==> (#[trigger] pending[i]).wal_offset <= synced,
        durable_count(pending, synced) < pending.len() ==> pending[durable_count(pending, synced) as int].wal_offset
            > synced,
    decreases pending.len(),
{
    if pending.len() > 0 && pending[0].wal_offset <= synced {
        let rest = pending.skip(1);
        drained_writes_are_durable(rest, synced);
        assert forall|i: int| 0 <= i < durable_count(pending, synced) implies (#[trigger] pending[i]).wal_offset
            <= synced by {
            if i > 0 {
                assert(rest[i - 1] == pending[i]);
            }
        }
    }
}

/// Whether every item has an event, and all of them the timeline and the term of
/// the first.
pub open spec fn is_uniform(items: Seq<ItemView>) -> bool {
    forall|i: int|
        0 <= i < items.len() ==> (#[trigger] items[i]).event is Some && items[i].event->0.timeline_id
            == items[0].event->0.timeline_id && items[i].event->0.term == items[0].event->0.term
}

/// Where the owner of a batch is known, its items are refused like those of a
/// batch that starts with one more of the owner's.
proof fn uniform_items_are_taken(protocol: Protocol, items: Seq<ItemView>, storage: StorageView, owner: Option<(i64, i64)>)
    requires
        is_uniform(items),
        items.len() > 0,
        owner matches Some(owner) ==> owner == (items[0].event->0.timeline_id, items[0].event->0.term),
        items[0].event->0.term >= storage.term(items[0].event->0.timeline_id),
    ensures
        items_refusal(protocol, items, storage, owner) is None,
    decreases items.len(),
{
    let rest = items.skip(1);
    assert(items[0].event is Some);
    if rest.len() > 0 {
        assert forall|i: int| 0 <= i < rest.len() implies (#[trigger] rest[i]).event is Some
            && rest[i].event->0.timeline_id == rest[0].event->0.timeline_id && rest[i].event->0.term
            == rest[0].event->0.term by {
            assert(rest[i] == items[i + 1]);
            assert(rest[0] == items[1]);
        }
        assert(rest[0] == items[1]);
        uniform_items_are_taken(
            protocol,
            rest,
            storage,
            Some((items[0].event->0.timeline_id, items[0].event->0.term)),
        );
    }
}

/// A batch is taken if and only if it holds events, all of one timeline and
/// term, and that term is not below the one that the timeline is fenced at.
pub proof fn batch_is_taken_iff_it_is_whole(protocol: Protocol, items: Seq<ItemView>, storage: StorageView)
    ensures
        batch_refusal(protocol, items, storage) is None <==> {
            &&& items.len() > 0
            &&& is_uniform(items)
            &&& items[0].event->0.term >= storage.term(items[0].event->0.timeline_id)
        },
{
    if batch_refusal(protocol, items, storage) is None {
        assert forall|i: int| 0 <= i < items.len() implies (#[trigger] items[i]).event is Some
            && items[i].event->0.timeline_id == items[0].event->0.timeline_id && items[i].event->0.term
            == items[0].event->0.term by {
            taken_batch_is_uniform(protocol, items, storage, i);
        }
        taken_batch_is_uniform(protocol, items, storage, 0);
    } else if items.len() > 0 && is_uniform(items) && items[0].event->0.term >= storage.term(
        items[0].event->0.timeline_id,
    ) {
        uniform_items_are_taken(protocol, items, storage, None);
    }
}

/// A batch whose events have a term below the one that their timeline is fenced
/// at is answered with that one, and commits nothing.
pub proof fn stale_batch_is_answered(protocol: Protocol, items: Seq<ItemView>, storage: StorageView)
    requires
        items.len() > 0,
        items[0].event is Some,
        items[0].event->0.term < storage.term(items[0].event->0.timeline_id),
    ensures
        batch_refusal(protocol, items, storage) == Some(
            RefusalView::Response(
                WriteResponse {
                    code: StatusCode::InvalidTerm,
                    commit_offset: (-1) as i64,
                    timeline_id: items[0].event->0.timeline_id,
                    term: storage.term(items[0].event->0.timeline_id),
                },
            ),
        ),
{
}

/// A batch without items, one with an item without an event, and one whose
/// items do not belong together are the client's mistake: the first of them is
/// reported where the items before it could be taken.
pub proof fn first_mistake_is_reported(protocol: Protocol, items: Seq<ItemView>, storage: StorageView, at: int)
    requires
        0 <= at <= items.len(),
        at > 0 ==> batch_refusal(protocol, items.take(at), storage) is None,
    ensures
        items.len() == 0 ==> batch_refusal(protocol, items, storage) == Some(
            RefusalView::Status(Fault::EmptyBatch.reported(protocol)),
        ),
        at < items.len() && items[at].event is None ==> batch_refusal(protocol, items, storage) == Some(
            RefusalView::Status(Fault::MissingEvent.reported(protocol)),
        ),
        0 < at < items.len() && items[at].event is Some && (items[at].event->0.timeline_id
            != items[0].event->0.timeline_id || items[at].event->0.term != items[0].event->0.term)
            ==> batch_refusal(protocol, items, storage) == Some(
            RefusalView::Status(Fault::MixedBatch.reported(protocol)),
        ),
        Fault::EmptyBatch.kind() == StatusKind::InvalidArgument,
        Fault::MissingEvent.kind() == StatusKind::InvalidArgument,
        Fault::MixedBatch.kind() == StatusKind::InvalidArgument,
        Fault::InvalidRange.kind() == StatusKind::InvalidArgument,
{
    if 0 < at < items.len() {
        refused_behind(protocol, items, storage, None, at);
        let owner = (items[0].event->0.timeline_id, items[0].event->0.term);
        taken_batch_is_uniform(protocol, items.take(at), storage, 0);
        assert(items.skip(at)[0] == items[at]);
    }
}

proof fn refused_behind(
    protocol: Protocol,
    items: Seq<ItemView>,
    storage: StorageView,
    owner: Option<(i64, i64)>,
    at: int,
)
    requires
        0 < at <= items.len(),
        items_refusal(protocol, items.take(at), storage, owner) is None,
    ensures
        items[0].event is Some,
        items_refusal(protocol, items, storage, owner) == items_refusal(
            protocol,
            items.skip(at),
            storage,
            Some((items[0].event->0.timeline_id, items[0].event->0.term)),
        ),
    decreases at,
{
    let front = items.take(at);
    let rest = items.skip(1);
    assert(front[0] == items[0]);
    assert(front.skip(1) =~= rest.take(at - 1));
    if at > 1 {
        let next = Some((items[0].event->0.timeline_id, items[0].event->0.term));
        refused_behind(protocol, rest, storage, next, at - 1);
        assert(rest.skip(at - 1) =~= items.skip(at));
        assert(front.skip(1)[0] == items[1]);
        assert(rest[0] == items[1]);
    }
}

/// Once writes became visible, the offset that a timeline has acknowledged is
/// the largest of their offsets in the timeline and of what it had acknowledged
/// before. It is the events' own offset, whatever their positions in the log. A
/// timeline without any has acknowledged nothing.
pub proof fn largest_delivered_offset_is_acknowledged(
    storage: StorageView,
    writes: Seq<InflightView>,
    timeline: i64,
)
    ensures
        ({
            let before = storage.acknowledged;
            let after = all_delivered(storage, writes).acknowledged;
            &&& before.contains_key(timeline) ==> after.contains_key(timeline) && after[timeline] >= before[timeline]
            &&& forall|i: int|
                0 <= i < writes.len() && (#[trigger] writes[i]).event.timeline_id == timeline ==> after.contains_key(
                    timeline,
                ) && after[timeline] >= writes[i].event.offset
            &&& after.contains_key(timeline) ==> {
                ||| before.contains_key(timeline) && after[timeline] == before[timeline]
                ||| exists|i: int|
                    0 <= i < writes.len() && (#[trigger] writes[i]).event.timeline_id == timeline
                        && writes[i].event.offset == after[timeline]
            }
        }),
    decreases writes.len(),
{
    if writes.len() > 0 {
        let front = writes.drop_last();
        let last = writes.last();
        let before = storage.acknowledged;
        let between = all_delivered(storage, front).acknowledged;
        let after = all_delivered(storage, writes).acknowledged;
        largest_delivered_offset_is_acknowledged(storage, front, timeline);
        assert forall|i: int|
            0 <= i < writes.len() && (#[trigger] writes[i]).event.timeline_id == timeline implies after.contains_key(
            timeline,
        ) && after[timeline] >= writes[i].event.offset by {
            if i < front.len() {
                assert(front[i] == writes[i]);
            }
        }
        if after.contains_key(timeline) && !(before.contains_key(timeline) && after[timeline] == before[timeline]) {
            if between.contains_key(timeline) && after[timeline] == between[timeline] {
                let i = choose|i: int|
                    0 <= i < front.len() && (#[trigger] front[i]).event.timeline_id == timeline
                        && front[i].event.offset == between[timeline];
                assert(writes[i] == front[i]);
            } else {
                assert(writes[writes.len() - 1] == last);
            }
        }
    }
}

/// A write that becomes visible is put in its place in its timeline, and
/// acknowledged there. Other timelines and all terms stay as they are.
pub proof fn delivery_touches_its_own_timeline(storage: StorageView, write: InflightView, other: i64)
    requires
        other != write.event.timeline_id,
    ensures
        ({
            let after = delivered(storage, write);
            &&& after.timeline(other) == storage.timeline(other)
            &&& after.last_acknowledged(other) == storage.last_acknowledged(other)
            &&& after.terms == storage.terms
            &&& after.timeline(write.event.timeline_id) == storage.with_write(write.event, write.trunc).timeline(
                write.event.timeline_id,
            )
            &&& after.next_offset == storage.next_offset
            &&& after.synced == storage.synced
        }),
{
}

/// The offsets of the writes of a batch, in order.
pub open spec fn offsets_of(writes: Seq<InflightView>, batch: usize) -> Seq<i64>
    decreases writes.len(),
{
    if writes.len() == 0 {
        Seq::empty()
    } else {
        let rest = offsets_of(writes.drop_last(), batch);
        if writes.last().batch == batch {
            rest.push(writes.last().event.offset)
        } else {
            rest
        }
    }
}

/// Each batch counts its own writes and no others.
pub proof fn batches_count_their_own_writes(acks: Seq<BatchAck>, writes: Seq<InflightView>, batch: usize)
    requires
        batch < acks.len(),
        forall|i: int| 0 <= i < writes.len() ==> (#[trigger] writes[i]).batch < acks.len(),
    ensures
        acks_after(acks, writes).len() == acks.len(),
        acks_after(acks, writes)[batch as int] == acked_all(acks[batch as int], offsets_of(writes, batch)),
    decreases writes.len(),
{
    if writes.len() > 0 {
        let front = writes.drop_last();
        assert forall|i: int| 0 <= i < front.len() implies (#[trigger] front[i]).batch < acks.len() by {
            assert(front[i] == writes[i]);
        }
        batches_count_their_own_writes(acks, front, batch);
        assert(writes[writes.len() - 1].batch < acks.len());
        if writes.last().batch == batch {
            assert(offsets_of(writes, batch).drop_last() =~= offsets_of(front, batch));
        }
    }
}

/// The answers to a batch.
pub open spec fn answers_to(answers: Seq<(usize, WriteResponse)>, batch: usize) -> Seq<WriteResponse>
    decreases answers.len(),
{
    if answers.len() == 0 {
        Seq::empty()
    } else {
        let rest = answers_to(answers.drop_last(), batch);
        if answers.last().0 == batch {
            rest.push(answers.last().1)
        } else {
            rest
        }
    }
}

/// Whether an answer reports success to a batch, and the largest of the offsets.
pub open spec fn commits(response: WriteResponse, timeline_id: i64, term: i64, offsets: Seq<i64>) -> bool {
    &&& response.code == StatusCode::Success
    &&& response.timeline_id == timeline_id
    &&& response.term == term
    &&& response.commit_offset == -1 || offsets.contains(response.commit_offset)
    &&& forall|i: int| 0 <= i < offsets.len() ==> offsets[i] <= response.commit_offset
}

/// A batch is answered once, when the last of its writes becomes visible, with
/// its timeline, its term and the largest offset of its writes, or with minus
/// one where they all lie below. Before that it is not answered.
pub proof fn batch_is_answered_once(acks: Seq<BatchAck>, writes: Seq<InflightView>, batch: usize)
    requires
        batch < acks.len(),
        forall|i: int| 0 <= i < writes.len() ==> (#[trigger] writes[i]).batch < acks.len(),
        !acks[batch as int].completed,
        acks[batch as int].max_offset == -1,
        0 < acks[batch as int].remaining,
        offsets_of(writes, batch).len() <= acks[batch as int].remaining,
    ensures
        ({
            let ack = acks[batch as int];
            let offsets = offsets_of(writes, batch);
            let told = answers_to(answers_after(acks, writes), batch);
            if offsets.len() < ack.remaining {
                told.len() == 0
            } else {
                told.len() == 1 && commits(told[0], ack.timeline_id, ack.term, offsets)
            }
        }),
    decreases writes.len(),
{
    let ack = acks[batch as int];
    if writes.len() > 0 {
        let front = writes.drop_last();
        let offsets = offsets_of(writes, batch);
        let answers = answers_after(acks, writes);
        let earlier = answers_after(acks, front);
        assert forall|i: int| 0 <= i < front.len() implies (#[trigger] front[i]).batch < acks.len() by {
            assert(front[i] == writes[i]);
        }
        batch_is_answered_once(acks, front, batch);
        batches_count_their_own_writes(acks, front, batch);
        batches_count_their_own_writes(acks, writes, batch);
        assert(writes[writes.len() - 1].batch < acks.len());
        if answers.len() > earlier.len() {
            assert(answers.drop_last() =~= earlier);
        }
        if writes.last().batch == batch {
            assert(offsets.drop_last() =~= offsets_of(front, batch));
            batch_is_answered_at_the_end(ack, offsets);
            if offsets.drop_last().len() > 0 {
                batch_is_answered_at_the_end(ack, offsets.drop_last());
            } else {
                assert(offsets.drop_last() =~= Seq::empty());
            }
        }
    }
}

/// The events of responses, one after another.
pub open spec fn events_of(responses: Seq<ReadView>) -> Seq<EventView>
    decreases responses.len(),
{
    if responses.len() == 0 {
        Seq::empty()
    } else {
        events_of(responses.drop_last()) + responses.last().events
    }
}

/// The answers to a read hold all events that were found, once and in order, in
/// chunks of 1024 of which only the last may be shorter. Each says which chunk
/// it is, and that a further read can start behind its last event.
pub proof fn answers_hold_all_events(timeline_id: i64, events: Seq<EventView>)
    requires
        events.len() > 0,
        forall|i: int| 0 <= i < events.len() ==> (#[trigger] events[i]).offset < i64::MAX,
    ensures
        ({
            let responses = chunked(timeline_id, events);
            let last = responses.len() - 1;
            &&& responses.len() > 0
            &&& events_of(responses) == events
            &&& forall|i: int|
                0 <= i < responses.len() ==> {
                    let response = #[trigger] responses[i];
                    &&& response.code == StatusCode::Success
                    &&& response.timeline_id == timeline_id
                    &&& if i < last {
                        response.events.len() == 1024
                    } else {
                        0 < response.events.len() <= 1024
                    }
                    &&& response.advanced_offset == response.events.last().offset + 1
                    &&& response.chunk == ChunkType::Full <==> last == 0
                    &&& response.chunk == ChunkType::First <==> i == 0 && last > 0
                    &&& response.chunk == ChunkType::Last <==> i == last && last > 0
                    &&& response.chunk == ChunkType::Middle <==> 0 < i < last
                }
        }),
{
    let responses = chunked(timeline_id, events);
    let count = chunk_count(events.len());
    chunks_hold_all_events(events);
    first_responses_hold(timeline_id, events, count);
    assert(responses.take(count) =~= responses);
    assert forall|i: int| 0 <= i < responses.len() implies {
        let response = #[trigger] responses[i];
        &&& if i < responses.len() - 1 {
            response.events.len() == 1024
        } else {
            0 < response.events.len() <= 1024
        }
        &&& response.advanced_offset == response.events.last().offset + 1
    } by {
        let start = i * READ_CHUNK_SIZE;
        let response = responses[i];
        assert(response.events.last() == events[start + response.events.len() - 1]);
    }
}

proof fn first_responses_hold(timeline_id: i64, events: Seq<EventView>, count: int)
    requires
        0 <= count <= chunk_count(events.len()),
    ensures
        events_of(chunked(timeline_id, events).take(count)) == joined_chunks(events, count as nat),
    decreases count,
{
    let responses = chunked(timeline_id, events);
    if count > 0 {
        first_responses_hold(timeline_id, events, count - 1);
        assert(responses.take(count).drop_last() =~= responses.take(count - 1));
        assert(responses.take(count).last() == responses[count - 1]);
    } else {
        assert(responses.take(0) =~= Seq::empty());
    }
}

/// A fence is answered with success if and only if its term is not below the
/// one that the timeline is fenced at. Its answer then has that term, and the
/// largest offset of the writes that became visible in a timeline that had none
/// before, or zero where there is none. Otherwise the answer has the term that
/// the timeline is fenced at.
pub proof fn fence_answers_the_largest_delivered_offset(
    storage: StorageView,
    writes: Seq<InflightView>,
    timeline: i64,
    term: i64,
)
    requires
        !storage.acknowledged.contains_key(timeline),
    ensures
        ({
            let response = fence_response(all_delivered(storage, writes), timeline, term);
            let current = storage.term(timeline);
            if term < current {
                response.code == StatusCode::Fenced && response.term == current && response.lra == -1
            } else {
                &&& response.code == StatusCode::Success
                &&& response.term == term
                &&& is_largest(response.lra, writes, timeline)
            }
        }),
{
    largest_delivered_offset_is_acknowledged(storage, writes, timeline);
    delivery_keeps_terms(storage, writes);
    let after = all_delivered(storage, writes).acknowledged;
    if !after.contains_key(timeline) {
        assert forall|i: int| 0 <= i < writes.len() implies (#[trigger] writes[i]).event.timeline_id != timeline by {
            assert(writes[i].event.timeline_id == timeline ==> after.contains_key(timeline));
        }
    }
}

/// Whether an offset is the largest of a timeline's writes, or zero where there
/// is none.
pub open spec fn is_largest(offset: i64, writes: Seq<InflightView>, timeline: i64) -> bool {
    &&& forall|i: int|
        0 <= i < writes.len() && (#[trigger] writes[i]).event.timeline_id == timeline ==> writes[i].event.offset
            <= offset
    &&& {
        ||| exists|i: int|
            0 <= i < writes.len() && (#[trigger] writes[i]).event.timeline_id == timeline && writes[i].event.offset
                == offset
        ||| offset == 0 && forall|i: int|
            0 <= i < writes.len() ==> (#[trigger] writes[i]).event.timeline_id != timeline
    }
}

proof fn delivery_keeps_terms(storage: StorageView, writes: Seq<InflightView>)
    ensures
        all_delivered(storage, writes).terms == storage.terms,
    decreases writes.len(),
{
    if writes.len() > 0 {
        delivery_keeps_terms(storage, writes.drop_last());
    }
}

/// A batch that is taken waits for all its writes: none is counted yet, and the
/// first is the next to be handed on. A batch that is refused has no writes.
pub proof fn taken_batch_waits_for_its_writes(
    protocol: Protocol,
    items: Seq<ItemView>,
    batch: usize,
    storage: StorageView,
    result: Result<(BatchAck, Enqueue), Refusal>,
)
    requires
        is_enqueued(protocol, items, batch, storage, result),
    ensures
        result is Ok <==> batch_refusal(protocol, items, storage) is None,
        result matches Err(refusal) ==> batch_refusal(protocol, items, storage) == Some(refusal@),
        result matches Ok((ack, enqueue)) ==> {
            &&& items[0].event is Some
            &&& ack.timeline_id == items[0].event->0.timeline_id
            &&& ack.term == items[0].event->0.term
            &&& ack.remaining == items.len()
            &&& ack.max_offset == -1
            &&& !ack.completed
            &&& enqueue.protocol == protocol && enqueue.batch == batch
            &&& write_views(enqueue.writes@) == items
            &&& enqueue.next == 0
            &&& enqueue.phase == EnqueuePhase::Reserving
        },
{
}

/// A batch keeps its protocol, its number and its writes on the way.
pub proof fn batch_keeps_its_writes(before: &Enqueue, after: &Enqueue)
    requires
        after.keeps(before),
    ensures
        after.protocol == before.protocol,
        after.batch == before.batch,
        after.writes@ == before.writes@,
{
}

} // verus!
