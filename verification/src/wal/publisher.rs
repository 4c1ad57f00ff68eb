//! Application of durable records to a downstream state owner.

use vstd::prelude::*;
use crate::bytestr;

verus! {

/// A contiguous, ordered batch of log records.
#[derive(Debug, PartialEq, Eq)]
pub struct PublishBatch {
    first_sequence: u64,
    payloads: Vec<Vec<u8>>,
}

/// Whether each record's sequence follows the one before it.
pub open spec fn is_contiguous(records: Seq<(u64, Vec<u8>)>) -> bool {
    forall|i: int| 0 <= i < records.len() ==> (#[trigger] records[i]).0 == records[0].0 + i
}

impl View for PublishBatch {
    type V = Seq<(u64, Seq<u8>)>;

    closed spec fn view(&self) -> Seq<(u64, Seq<u8>)> {
        Seq::new(self.payloads@.len(), |i: int| ((self.first_sequence + i) as u64, self.payloads@[i]@))
    }
}

impl PublishBatch {
    /// The batch is not empty and its sequences can be represented.
    pub closed spec fn valid(&self) -> bool {
        &&& self.payloads@.len() > 0
        &&& self.first_sequence + self.payloads@.len() - 1 <= u64::MAX
    }

    /// A batch of the given records.
    pub fn new(records: &[(u64, Vec<u8>)]) -> (batch: PublishBatch)
        requires
            records@.len() > 0,
            is_contiguous(records@),
        ensures
            batch.valid(),
            batch@ == records@.map_values(|record: (u64, Vec<u8>)| (record.0, record.1@)),
    {
        let first_sequence: u64 = records[0].0;
        let mut payloads: Vec<Vec<u8>> = Vec::new();
        let mut at: usize = 0;
        while at < records.len()
            invariant
                at <= records@.len(),
                payloads@.len() == at,
                forall|i: int| 0 <= i < at ==> (#[trigger] payloads@[i])@ == records@[i].1@,
            decreases records@.len() - at,
        {
            let mut payload: Vec<u8> = Vec::new();
            bytestr::put_bytes(&mut payload, records[at].1.as_slice());
            assert(payload@ =~= records@[at as int].1@);
            payloads.push(payload);
            at += 1;
        }
        let batch = PublishBatch { first_sequence, payloads };
        proof {
            assert(records@[records@.len() - 1].0 == records@[0].0 + (records@.len() - 1));
            assert forall|i: int| 0 <= i < records@.len() implies batch@[i] == (records@[i].0, records@[i].1@) by {
                assert(records@[i].0 == records@[0].0 + i);
            }
            assert(batch@ =~= records@.map_values(|record: (u64, Vec<u8>)| (record.0, record.1@)));
        }
        batch
    }

    /// Returns each sequence and payload in order.
    pub fn records(&self) -> (records: Vec<(u64, Vec<u8>)>)
        requires
            self.valid(),
        ensures
            records@.map_values(|record: (u64, Vec<u8>)| (record.0, record.1@)) == self@,
    {
        let mut records: Vec<(u64, Vec<u8>)> = Vec::new();
        let mut at: usize = 0;
        while at < self.payloads.len()
            invariant
                self.valid(),
                at <= self.payloads@.len(),
                records@.len() == at,
                forall|i: int|
                    0 <= i < at ==> (#[trigger] records@[i]).0 == self.first_sequence + i && records@[i].1@
                        == self.payloads@[i]@,
            decreases self.payloads@.len() - at,
        {
            let mut payload: Vec<u8> = Vec::new();
            bytestr::put_bytes(&mut payload, self.payloads[at].as_slice());
            assert(payload@ =~= self.payloads@[at as int]@);
            records.push((self.first_sequence + at as u64, payload));
            at += 1;
        }
        assert(records@.map_values(|record: (u64, Vec<u8>)| (record.0, record.1@)) =~= self@);
        records
    }

    /// Returns the first sequence in the batch.
    pub fn first_sequence(&self) -> (sequence: u64)
        requires
            self.valid(),
        ensures
            self@.len() > 0,
            sequence == self@[0].0,
    {
        self.first_sequence
    }

    /// Returns the last sequence in the batch.
    pub fn last_sequence(&self) -> (sequence: u64)
        requires
            self.valid(),
        ensures
            self@.len() > 0,
            sequence == self@.last().0,
    {
        self.first_sequence + (self.payloads.len() as u64 - 1)
    }
}

impl Clone for PublishBatch {
    fn clone(&self) -> (copy: PublishBatch)
        ensures
            copy@ == self@,
            copy.valid() == self.valid(),
    {
        let mut payloads: Vec<Vec<u8>> = Vec::new();
        let mut at: usize = 0;
        while at < self.payloads.len()
            invariant
                at <= self.payloads@.len(),
                payloads@.len() == at,
                forall|i: int| 0 <= i < at ==> (#[trigger] payloads@[i])@ == self.payloads@[i]@,
            decreases self.payloads@.len() - at,
        {
            let payload: Vec<u8> = bytestr::copy_range(&self.payloads[at], 0, self.payloads[at].len());
            assert(payload@ =~= self.payloads@[at as int]@);
            payloads.push(payload);
            at += 1;
        }
        let copy = PublishBatch { first_sequence: self.first_sequence, payloads };
        assert(copy@ =~= self@);
        copy
    }
}

/// The sequences of a batch count up from its first one.
pub proof fn batch_sequences_are_contiguous(batch: PublishBatch, i: int)
    requires
        batch.valid(),
        0 <= i < batch@.len(),
    ensures
        batch@[i].0 == batch@[0].0 + i,
{
}

/// What was heard while a batch is applied.
#[derive(Debug, Clone, Copy, PartialEq, Eq, Structural)]
pub enum ApplyEvent {
    /// The last sequence that is durable, if there is one.
    Synced(Option<u64>),
    /// No further sequence will become durable.
    SyncStopped,
    /// The target took the batch.
    Applied,
    /// The target refused the batch while the log runs.
    Refused,
    /// The target refused the batch while the log closes.
    RefusedWhileClosing,
}

/// What to do next with a batch.
#[derive(Debug, Clone, Copy, PartialEq, Eq, Structural)]
pub enum ApplyAction {
    /// Wait for a later durable sequence.
    WaitForSync,
    /// Hand the batch to the target.
    Apply,
    /// Hand it over again after a pause.
    Retry,
    /// Go on with the next batch.
    Next,
    /// Stop publishing.
    Stop,
}

/// Decides what to do with the batch whose last sequence is `required`: it is
/// applied once it is durable, and again until the target takes it or the log
/// closes.
pub fn apply_step(required: u64, event: ApplyEvent) -> (action: ApplyAction)
    ensures
        action == (match event {
            ApplyEvent::Synced(Some(synced)) => if synced >= required {
                ApplyAction::Apply
            } else {
                ApplyAction::WaitForSync
            },
            ApplyEvent::Synced(None) => ApplyAction::WaitForSync,
            ApplyEvent::SyncStopped => ApplyAction::Stop,
            ApplyEvent::Applied => ApplyAction::Next,
            ApplyEvent::Refused => ApplyAction::Retry,
            ApplyEvent::RefusedWhileClosing => ApplyAction::Next,
        }),
{
    match event {
        ApplyEvent::Synced(Some(synced)) => {
            if synced >= required {
                ApplyAction::Apply
            } else {
                ApplyAction::WaitForSync
            }
        },
        ApplyEvent::Synced(None) => ApplyAction::WaitForSync,
        ApplyEvent::SyncStopped => ApplyAction::Stop,
        ApplyEvent::Applied => ApplyAction::Next,
        ApplyEvent::Refused => ApplyAction::Retry,
        ApplyEvent::RefusedWhileClosing => ApplyAction::Next,
    }
}

} // verus!
