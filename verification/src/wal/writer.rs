//! The writer: assigns sequences, appends accepted operations to segments and
//! hands their completions on.

use vstd::prelude::*;
use std::collections::VecDeque;
use crate::framing;
use crate::le;
use crate::segment_names;
use crate::vfs;
use crate::vfs::Vfs;
use crate::wal::codec;
use crate::wal::error::{WalError, WalErrorView};
use crate::wal::recovery;
use crate::wal::recovery::{RecoveredState, WAL_SEGMENT_SIZE};
use crate::wal::segment;
use crate::wal::segment::{FileSegment, SegmentSyncHandle};
use crate::wal::syncer::{AppendCompletion, Outcome, SyncOp};

verus! {

broadcast use {crate::le::u32_width, crate::le::u64_width};

/// One append, and the handle through which its outcome is told.
pub struct AppendOp<H> {
    pub payload: Vec<u8>,
    pub handle: H,
}

/// What the writer is asked to do.
pub enum Operation<H> {
    Append(AppendOp<H>),
    Close,
}

/// An append that has its sequence and waits to be written.
pub struct PendingAppend<H> {
    pub sequence: u64,
    pub sequence_bytes: Vec<u8>,
    pub payload: Vec<u8>,
    pub handle: H,
}

impl<H> PendingAppend<H> {
    /// The append, with the sequence it was given.
    pub open spec fn numbers(&self, sequence: int, operation: AppendOp<H>) -> bool {
        &&& self.sequence == sequence
        &&& self.sequence_bytes@ == le::u64_bytes(self.sequence)
        &&& self.payload == operation.payload
        &&& self.handle == operation.handle
    }

    /// The record that is written.
    pub open spec fn record(&self) -> Seq<u8> {
        self.sequence_bytes@ + self.payload@
    }
}

/// The appends among the operations, in order.
pub open spec fn appends_of<H>(operations: Seq<Operation<H>>) -> Seq<AppendOp<H>>
    decreases operations.len(),
{
    if operations.len() == 0 {
        Seq::empty()
    } else {
        let before = appends_of(operations.drop_last());
        match operations.last() {
            Operation::Append(operation) => before.push(operation),
            Operation::Close => before,
        }
    }
}

/// Whether one of the operations is to close.
pub open spec fn closes<H>(operations: Seq<Operation<H>>) -> bool {
    exists|i: int| 0 <= i < operations.len() && #[trigger] operations[i] is Close
}

/// Whether the pending appends are the given ones, numbered from `first` on.
pub open spec fn numbered<H>(pending: Seq<PendingAppend<H>>, first: int, operations: Seq<AppendOp<H>>) -> bool {
    &&& pending.len() == operations.len()
    &&& forall|i: int| 0 <= i < pending.len() ==> (#[trigger] pending[i]).numbers(first + i, operations[i])
}

/// The records of pending appends.
pub open spec fn records_of<H>(pending: Seq<PendingAppend<H>>) -> Seq<Seq<u8>> {
    pending.map_values(|append: PendingAppend<H>| append.record())
}

/// Operations that were received together, once their sequences are assigned.
pub struct Batch<H> {
    /// Appends that are not yet handed on, in order of their sequences.
    pub pending: VecDeque<PendingAppend<H>>,
    /// The append for which no sequence was left, and the operations after it.
    pub refused: Option<(H, WalError)>,
    pub unread: VecDeque<Operation<H>>,
    /// The last sequence that was handed on and not announced.
    pub advanced: Option<u64>,
    /// No operation follows this batch.
    pub write_then_close: bool,
    /// The writer stops after this batch.
    pub stop_writer: bool,
}

impl<H> Batch<H> {
    /// The handles that still wait for an outcome.
    pub open spec fn waiting(&self) -> Seq<H> {
        self.pending@.map_values(|append: PendingAppend<H>| append.handle)
    }

    /// Takes the first pending append, to hand its completion on.
    pub fn next_completion(&mut self) -> (completion: Option<(u64, H)>)
        ensures
            final(self).refused == old(self).refused,
            final(self).unread == old(self).unread,
            final(self).advanced == old(self).advanced,
            final(self).write_then_close == old(self).write_then_close,
            final(self).stop_writer == old(self).stop_writer,
            match completion {
                Some((sequence, handle)) => {
                    &&& old(self).pending@.len() > 0
                    &&& sequence == old(self).pending@[0].sequence
                    &&& handle == old(self).pending@[0].handle
                    &&& final(self).pending@ == old(self).pending@.skip(1)
                },
                None => old(self).pending@.len() == 0 && final(self).pending@ == old(self).pending@,
            },
    {
        match self.pending.pop_front() {
            Some(append) => {
                assert(self.pending@ =~= old(self).pending@.skip(1));
                Some((append.sequence, append.handle))
            },
            None => None,
        }
    }

    /// Gives all pending appends up: their handles, in order, and the error
    /// each of them is told. The writer stops after this batch.
    pub fn abandon(&mut self, error: &WalError) -> (failed: Vec<(H, WalError)>)
        ensures
            final(self).pending@.len() == 0,
            final(self).stop_writer,
            final(self).refused == old(self).refused,
            final(self).unread == old(self).unread,
            final(self).advanced == old(self).advanced,
            final(self).write_then_close == old(self).write_then_close,
            failed@.len() == old(self).pending@.len(),
            forall|i: int|
                0 <= i < failed@.len() ==> (#[trigger] failed@[i]).0 == old(self).pending@[i].handle && failed@[i].1@
                    == error@,
    {
        self.stop_writer = true;
        let mut failed: Vec<(H, WalError)> = Vec::new();
        while self.pending.len() > 0
            invariant
                self.stop_writer,
                self.refused == old(self).refused,
                self.unread == old(self).unread,
                self.advanced == old(self).advanced,
                self.write_then_close == old(self).write_then_close,
                failed@.len() <= old(self).pending@.len(),
                self.pending@ == old(self).pending@.skip(failed@.len() as int),
                forall|i: int|
                    0 <= i < failed@.len() ==> (#[trigger] failed@[i]).0 == old(self).pending@[i].handle
                        && failed@[i].1@ == error@,
            decreases self.pending@.len(),
        {
            let ghost count = failed@.len() as int;
            if let Some(append) = self.pending.pop_front() {
                failed.push((append.handle, error.clone()));
            }
            assert(self.pending@ =~= old(self).pending@.skip(count + 1));
        }
        failed
    }

    /// Takes the sequence that is to be announced at the end of the batch.
    pub fn take_advanced(&mut self) -> (advanced: Option<u64>)
        ensures
            advanced == old(self).advanced,
            final(self).advanced is None,
            final(self).pending == old(self).pending,
            final(self).refused == old(self).refused,
            final(self).unread == old(self).unread,
            final(self).write_then_close == old(self).write_then_close,
            final(self).stop_writer == old(self).stop_writer,
    {
        self.advanced.take()
    }

    /// Whether the writer ends with this batch.
    pub fn ends(&self) -> (ends: bool)
        ensures
            ends == (self.write_then_close || self.stop_writer),
    {
        self.write_then_close || self.stop_writer
    }
}

/// Assigns sequences and appends accepted operations to segments.
pub struct WriterLoop {
    pub dir: String,
    pub next_sequence: u64,
    pub next_segment_number: u64,
    pub active_segment: Option<FileSegment>,
    /// Segments that were left behind by rotation and are not yet durable.
    pub dirty_segments: Vec<SegmentSyncHandle>,
    /// A segment was created since the directory was last made durable.
    pub directory_dirty: bool,
}

impl WriterLoop {
    /// A writer that goes on where recovery ended.
    pub fn new(dir: String, recovered: RecoveredState) -> (writer: WriterLoop)
        ensures
            writer.dir == dir,
            writer.next_sequence == recovered.next_sequence,
            writer.next_segment_number == recovered.next_segment_number,
            writer.active_segment == recovered.active_segment,
            writer.dirty_segments@.len() == 0,
            !writer.directory_dirty,
    {
        WriterLoop {
            dir,
            next_sequence: recovered.next_sequence,
            next_segment_number: recovered.next_segment_number,
            active_segment: recovered.active_segment,
            dirty_segments: Vec::new(),
            directory_dirty: false,
        }
    }

    /// Gives each append of a batch the next sequence. The first append for
    /// which none is left is refused and stops the writer.
    pub fn assign<H>(&mut self, operations: VecDeque<Operation<H>>) -> (batch: Batch<H>)
        ensures
            ({
                let refused: int = if batch.refused is Some { 1 } else { 0 };
                let read = operations@.len() - batch.unread@.len() - refused;
                &&& 0 <= read <= operations@.len()
                &&& numbered(batch.pending@, old(self).next_sequence as int, appends_of(operations@.take(read)))
                &&& batch.write_then_close == closes(operations@.take(read))
                &&& batch.advanced is None
                &&& batch.stop_writer == (batch.refused is Some)
                &&& match batch.refused {
                    None => batch.unread@.len() == 0,
                    Some((handle, error)) => {
                        &&& operations@[read] matches Operation::Append(operation)
                        &&& operation.handle == handle
                        &&& error@ == recovery::sequences_exhausted()
                        &&& batch.unread@ == operations@.skip(read + 1)
                    },
                }
                &&& final(self).next_sequence == old(self).next_sequence + batch.pending@.len()
            }),
            batch.refused is Some <==> old(self).next_sequence + appends_of(operations@).len() > u64::MAX,
            final(self).dir == old(self).dir,
            final(self).next_segment_number == old(self).next_segment_number,
            final(self).active_segment == old(self).active_segment,
            final(self).dirty_segments == old(self).dirty_segments,
            final(self).directory_dirty == old(self).directory_dirty,
    {
        let ghost received = operations@;
        let ghost first = self.next_sequence as int;
        let mut unread: VecDeque<Operation<H>> = operations;
        let mut pending: VecDeque<PendingAppend<H>> = VecDeque::new();
        let mut write_then_close: bool = false;
        let ghost mut read: int = 0;
        proof {
            assert(received.take(0) =~= Seq::<Operation<H>>::empty());
            assert(received.skip(0) =~= received);
        }
        while unread.len() > 0
            invariant
                0 <= read <= received.len(),
                unread@ == received.skip(read),
                numbered(pending@, first, appends_of(received.take(read))),
                write_then_close == closes(received.take(read)),
                self.next_sequence == first + pending@.len(),
                first == old(self).next_sequence,
                received == operations@,
                self.dir == old(self).dir,
                self.next_segment_number == old(self).next_segment_number,
                self.active_segment == old(self).active_segment,
                self.dirty_segments == old(self).dirty_segments,
                self.directory_dirty == old(self).directory_dirty,
            decreases unread@.len(),
        {
            let ghost before = received.take(read);
            let ghost after = received.take(read + 1);
            proof {
                assert(after.drop_last() =~= before);
                assert(after.last() == received[read]);
                assert(received.skip(read).skip(1) =~= received.skip(read + 1));
                assert forall|i: int| 0 <= i < before.len() implies before[i] == after[i] by {}
                if closes(before) {
                    let i = choose|i: int| 0 <= i < before.len() && #[trigger] before[i] is Close;
                    assert(after[i] is Close);
                }
                if closes(after) && !(received[read] is Close) {
                    let i = choose|i: int| 0 <= i < after.len() && #[trigger] after[i] is Close;
                    assert(before[i] is Close);
                }
            }
            match unread.pop_front() {
                None => {},
                Some(Operation::Append(operation)) => {
                    let sequence: u64 = self.next_sequence;
                    let incremented: u64 = match sequence.checked_add(1) {
                        Some(incremented) => incremented,
                        None => {
                            let error = WalError::Worker(String::from_str("WAL sequence space exhausted"));
                            proof {
                                appends_grow(received, read + 1);
                            }
                            return Batch {
                                pending,
                                refused: Some((operation.handle, error)),
                                unread,
                                advanced: None,
                                write_then_close,
                                stop_writer: true,
                            };
                        },
                    };
                    self.next_sequence = incremented;
                    let mut sequence_bytes: Vec<u8> = Vec::new();
                    le::put_u64(&mut sequence_bytes, sequence);
                    assert(sequence_bytes@ =~= le::u64_bytes(sequence));
                    pending.push_back(
                        PendingAppend { sequence, sequence_bytes, payload: operation.payload, handle: operation.handle },
                    );
                },
                Some(Operation::Close) => {
                    write_then_close = true;
                    assert(after[read] is Close);
                },
            }
            proof {
                read = read + 1;
            }
        }
        proof {
            assert(received.take(read) =~= received);
        }
        Batch { pending, refused: None, unread, advanced: None, write_then_close, stop_writer: false }
    }
}

/// What is reported when no segment number is left.
pub open spec fn segment_numbers_exhausted() -> WalErrorView {
    WalErrorView::Worker("WAL segment number space exhausted"@)
}

/// Whether every pending append can be encoded in memory beside a segment.
pub open spec fn fits_memory<H>(pending: Seq<PendingAppend<H>>) -> bool {
    forall|i: int|
        0 <= i < pending.len() ==> 2 * (#[trigger] pending[i]).record().len() + 32 + WAL_SEGMENT_SIZE <= usize::MAX
}

impl WriterLoop {
    /// The files of all segments that the writer knows are there.
    pub open spec fn valid<V: Vfs>(&self, vfs: &V) -> bool {
        &&& self.active_segment matches Some(active) ==> active.valid(vfs) && active.max_size == WAL_SEGMENT_SIZE
        &&& forall|i: int| 0 <= i < self.dirty_segments@.len() ==> vfs.state().holds(
            &(#[trigger] self.dirty_segments@[i]).file,
        )
    }

    /// The active segment takes none of the records, because it is full.
    pub open spec fn must_rotate(&self, records: Seq<Seq<u8>>) -> bool {
        self.active_segment matches Some(active) && segment::batch_error(
            active.number,
            active.write_position,
            records,
            active.max_size,
        ) == Some(WalErrorView::SegmentFull)
    }

    /// The number of the segment that takes the next records.
    pub open spec fn target_number(&self, records: Seq<Seq<u8>>) -> u64 {
        if self.active_segment is None || self.must_rotate(records) {
            self.next_segment_number
        } else {
            self.active_segment->0.number
        }
    }

    /// The position at which the next records are written.
    pub open spec fn target_position(&self, records: Seq<Seq<u8>>) -> u64 {
        if self.active_segment is None || self.must_rotate(records) {
            0
        } else {
            self.active_segment->0.write_position
        }
    }

    /// Why none of the records can be written, whatever the filesystem does.
    pub open spec fn write_error(&self, records: Seq<Seq<u8>>) -> Option<WalErrorView> {
        let fresh = self.active_segment is None || self.must_rotate(records);
        if fresh && self.next_segment_number == u64::MAX {
            Some(segment_numbers_exhausted())
        } else if fresh && self.next_segment_number > u32::MAX {
            Some(WalErrorView::SegmentNumberTooLarge(self.next_segment_number))
        } else {
            segment::batch_error(
                self.target_number(records),
                self.target_position(records),
                records,
                WAL_SEGMENT_SIZE,
            )
        }
    }

    /// What a rotation leaves: the full segment waits to be made durable.
    pub open spec fn is_rotated_from(&self, before: &WriterLoop) -> bool {
        &&& before.active_segment matches Some(left)
        &&& self.dirty_segments@.len() == before.dirty_segments@.len() + 1
        &&& self.dirty_segments@.drop_last() == before.dirty_segments@
        &&& self.dirty_segments@.last().marks(&left)
    }

    /// Whether the next records go to a new segment.
    pub open spec fn is_fresh(&self, records: Seq<Seq<u8>>) -> bool {
        self.active_segment is None || self.must_rotate(records)
    }

    /// The path of the segment that takes the next records.
    pub open spec fn target_path(&self, records: Seq<Seq<u8>>) -> Seq<char> {
        segment_names::segment_path(self.dir@, self.target_number(records) as nat)
    }

    /// What a new segment leaves of the segments before it.
    pub open spec fn leaves_active(&self, before: &WriterLoop) -> bool {
        if before.active_segment is Some {
            self.is_rotated_from(before)
        } else {
            self.dirty_segments == before.dirty_segments
        }
    }

    /// What the files hold once the first `count` records were appended: to the
    /// active segment, or to a new one where the active one is full.
    pub open spec fn appends<V: Vfs>(
        &self,
        vfs: &V,
        earlier: &V,
        records: Seq<Seq<u8>>,
        count: int,
        active: FileSegment,
    ) -> bool {
        let number = self.target_number(records);
        let start = self.target_position(records) as int;
        let path = self.target_path(records);
        let written = segment::stream_bytes(number, start, records.take(count));
        &&& self.write_error(records) is None
        &&& 0 < count <= records.len()
        &&& count == segment::accepted(number, start, records, WAL_SEGMENT_SIZE as int)
        &&& active.number == number
        &&& active.write_position == start + written.len()
        &&& if self.is_fresh(records) {
            &&& active.file.path@ == path
            &&& !earlier.state().names.contains_key(path)
            &&& !earlier.state().data.contains_key(active.file.id)
            &&& vfs.state().same_but(earlier.state().with_file(path, active.file.id), active.file.id)
            &&& vfs.state().contents(&active.file) == written
            &&& active.settled(vfs)
        } else {
            &&& active.same_segment(&self.active_segment->0)
            &&& vfs.state().same_but(earlier.state(), active.file.id)
            &&& vfs.state().contents(&active.file) == vfs::overwritten(
                earlier.state().contents(&active.file),
                start,
                written,
            )
            &&& self.active_segment->0.settled(earlier) ==> active.settled(vfs)
        }
    }

    /// The first `count` records, and no others, were appended.
    pub open spec fn has_written<V: Vfs>(
        &self,
        vfs: &V,
        before: &WriterLoop,
        earlier: &V,
        records: Seq<Seq<u8>>,
        count: int,
    ) -> bool {
        &&& self.active_segment matches Some(active)
        &&& before.appends(vfs, earlier, records, count, active)
        &&& if before.is_fresh(records) {
            &&& self.next_segment_number == before.next_segment_number + 1
            &&& self.directory_dirty
            &&& self.leaves_active(before)
        } else {
            &&& self.next_segment_number == before.next_segment_number
            &&& self.directory_dirty == before.directory_dirty
            &&& self.dirty_segments == before.dirty_segments
        }
    }

    /// Nothing could be appended. What was there before is still there, but for
    /// what follows the position of the active segment.
    pub open spec fn has_failed<V: Vfs>(
        &self,
        vfs: &V,
        before: &WriterLoop,
        earlier: &V,
        records: Seq<Seq<u8>>,
        error: WalErrorView,
    ) -> bool {
        &&& before.write_error(records) == Some(error) || {
            &&& error is Io || error is Corruption
            &&& !(earlier.dependable() && (if before.is_fresh(records) {
                !earlier.state().names.contains_key(before.target_path(records))
            } else {
                before.active_segment->0.settled(earlier)
            }))
        }
        &&& if before.is_fresh(records) {
            &&& self.leaves_active(before)
            &&& vfs.state().keeps(earlier.state())
            &&& match self.active_segment {
                None => {
                    &&& self.next_segment_number == before.next_segment_number
                    &&& self.directory_dirty == before.directory_dirty
                    &&& earlier.dependable() ==> vfs.state() == earlier.state()
                },
                Some(active) => {
                    &&& self.next_segment_number == before.next_segment_number + 1
                    &&& self.directory_dirty
                    &&& active.number == before.next_segment_number
                    &&& active.write_position == 0
                    &&& active.file.path@ == before.target_path(records)
                    &&& !earlier.state().names.contains_key(active.file.path@)
                    &&& vfs.state().same_but(
                        earlier.state().with_file(active.file.path@, active.file.id),
                        active.file.id,
                    )
                },
            }
        } else {
            &&& self.active_segment matches Some(active)
            &&& active.same_segment(&before.active_segment->0)
            &&& active.write_position == before.active_segment->0.write_position
            &&& self.next_segment_number == before.next_segment_number
            &&& self.directory_dirty == before.directory_dirty
            &&& self.dirty_segments == before.dirty_segments
            &&& vfs.state().same_but(earlier.state(), active.file.id)
            &&& before.write_error(records) is Some ==> vfs.state() == earlier.state()
        }
    }

    /// Makes sure that there is an active segment, and creates the next one
    /// where there is none.
    fn ensure_active<V: Vfs>(&mut self, vfs: &mut V) -> (result: Result<(), WalError>)
        requires
            old(self).valid(old(vfs)),
        ensures
            final(self).valid(final(vfs)),
            final(self).dir == old(self).dir,
            final(self).next_sequence == old(self).next_sequence,
            final(self).dirty_segments == old(self).dirty_segments,
            final(vfs).dependable() == old(vfs).dependable(),
            final(vfs).journal() == old(vfs).journal(),
            old(self).active_segment is Some ==> {
                &&& result is Ok
                &&& *final(self) == *old(self)
                &&& final(vfs).state() == old(vfs).state()
            },
            old(self).active_segment is None ==> {
                let number = old(self).next_segment_number;
                let path = segment_names::segment_path(old(self).dir@, number as nat);
                match result {
                    Ok(()) => {
                        &&& number <= u32::MAX
                        &&& final(self).next_segment_number == number + 1
                        &&& final(self).directory_dirty
                        &&& final(self).active_segment matches Some(active)
                        &&& active.number == number
                        &&& active.write_position == 0
                        &&& active.settled(final(vfs))
                        &&& active.file.path@ == path
                        &&& !old(vfs).state().names.contains_key(path)
                        &&& !old(vfs).state().data.contains_key(active.file.id)
                        &&& final(vfs).state() == old(vfs).state().with_file(path, active.file.id)
                    },
                    Err(error) => {
                        &&& *final(self) == *old(self)
                        &&& final(vfs).state().keeps(old(vfs).state())
                        &&& old(vfs).dependable() ==> final(vfs).state() == old(vfs).state()
                        &&& error@ == (if number == u64::MAX {
                            segment_numbers_exhausted()
                        } else if number > u32::MAX {
                            WalErrorView::SegmentNumberTooLarge(number)
                        } else {
                            error@
                        })
                        &&& number <= u32::MAX ==> error is Io && (old(vfs).dependable() ==> old(
                            vfs,
                        ).state().names.contains_key(path))
                    },
                }
            },
    {
        if self.active_segment.is_some() {
            return Ok(());
        }
        let number: u64 = self.next_segment_number;
        let incremented: u64 = match number.checked_add(1) {
            Some(incremented) => incremented,
            None => {
                return Err(WalError::Worker(String::from_str("WAL segment number space exhausted")));
            },
        };
        match FileSegment::create(vfs, self.dir.as_str(), number, WAL_SEGMENT_SIZE) {
            Ok(segment) => {
                self.active_segment = Some(segment);
                self.next_segment_number = incremented;
                self.directory_dirty = true;
                Ok(())
            },
            Err(error) => Err(error),
        }
    }
}

impl WriterLoop {
    /// Appends as many of the pending records as fit in the active segment.
    fn append_active<V: Vfs, H>(&mut self, vfs: &mut V, pending: &VecDeque<PendingAppend<H>>) -> (result: Result<
        usize,
        WalError,
    >)
        requires
            old(self).valid(old(vfs)),
            old(self).active_segment is Some,
            fits_memory(pending@),
        ensures
            final(self).valid(final(vfs)),
            final(self).dir == old(self).dir,
            final(self).next_sequence == old(self).next_sequence,
            final(self).next_segment_number == old(self).next_segment_number,
            final(self).dirty_segments == old(self).dirty_segments,
            final(self).directory_dirty == old(self).directory_dirty,
            final(self).active_segment is Some,
            final(self).active_segment->0.same_segment(&old(self).active_segment->0),
            final(vfs).dependable() == old(vfs).dependable(),
            final(vfs).journal() == old(vfs).journal(),
            final(vfs).state().same_but(old(vfs).state(), old(self).active_segment->0.file.id),
            ({
                let active = old(self).active_segment->0;
                let records = records_of(pending@);
                let start = active.write_position as int;
                let count = segment::accepted(active.number, start, records, WAL_SEGMENT_SIZE as int);
                let error = segment::batch_error(active.number, active.write_position, records, WAL_SEGMENT_SIZE);
                match result {
                    Ok(taken) => {
                        &&& error is None
                        &&& taken == count
                        &&& final(self).active_segment->0.write_position == segment::accepted_end(
                            active.number,
                            start,
                            records,
                            WAL_SEGMENT_SIZE as int,
                        )
                        &&& final(vfs).state().contents(&active.file) == vfs::overwritten(
                            old(vfs).state().contents(&active.file),
                            start,
                            segment::stream_bytes(active.number, start, records.take(count as int)),
                        )
                        &&& active.settled(old(vfs)) ==> final(self).active_segment->0.settled(final(vfs))
                    },
                    Err(found) => {
                        &&& final(self).active_segment->0.write_position == active.write_position
                        &&& error is Some ==> error == Some(found@) && final(vfs).state() == old(vfs).state()
                        &&& error is None ==> {
                            &&& !(old(vfs).dependable() && active.settled(old(vfs)))
                            &&& found is Io || found is Corruption
                        }
                    },
                }
            }),
    {
        let ghost records = records_of(pending@);
        let mut parts: Vec<(&[u8], &[u8])> = Vec::new();
        let mut at: usize = 0;
        while at < pending.len()
            invariant
                at <= pending@.len(),
                records == records_of(pending@),
                segment::whole_payloads(parts@) == records.take(at as int),
            decreases pending@.len() - at,
        {
            let ghost before = parts@;
            let prefix: &[u8] = pending[at].sequence_bytes.as_slice();
            let payload: &[u8] = pending[at].payload.as_slice();
            parts.push((prefix, payload));
            proof {
                let earlier = segment::whole_payloads(before);
                let later = segment::whole_payloads(parts@);
                assert(records[at as int] == pending@[at as int].record());
                assert(later =~= earlier.push(prefix@ + payload@));
                assert(later =~= records.take(at + 1));
            }
            at += 1;
        }
        let ghost active = self.active_segment->0;
        proof {
            assert(records.take(at as int) =~= records);
            assert forall|i: int| 0 <= i < records.len() implies 2 * (#[trigger] records[i]).len() + 32
                + WAL_SEGMENT_SIZE <= usize::MAX by {
                assert(records[i] == pending@[i].record());
            }
            batch_span_bound(active.number, active.write_position as int, records, WAL_SEGMENT_SIZE as int);
            small_batch(active.number, active.write_position as int, records, WAL_SEGMENT_SIZE as int);
        }
        let mut segment: FileSegment = match self.active_segment.take() {
            Some(segment) => segment,
            None => {
                return Ok(0);
            },
        };
        let result = segment.append_batch(vfs, parts.as_slice());
        self.active_segment = Some(segment);
        result
    }

    /// Appends pending records to the active segment, in order, and says how
    /// many were written. A full segment is left behind and the next one
    /// created.
    pub fn write_pending<V: Vfs, H>(&mut self, vfs: &mut V, pending: &VecDeque<PendingAppend<H>>) -> (result: Result<
        usize,
        WalError,
    >)
        requires
            old(self).valid(old(vfs)),
            pending@.len() > 0,
            fits_memory(pending@),
        ensures
            final(self).valid(final(vfs)),
            final(self).dir == old(self).dir,
            final(self).next_sequence == old(self).next_sequence,
            final(vfs).dependable() == old(vfs).dependable(),
            final(vfs).journal() == old(vfs).journal(),
            match result {
                Ok(count) => final(self).has_written(
                    final(vfs),
                    old(self),
                    old(vfs),
                    records_of(pending@),
                    count as int,
                ),
                Err(error) => final(self).has_failed(final(vfs), old(self), old(vfs), records_of(pending@), error@),
            },
    {
        let ghost records = records_of(pending@);
        proof {
            assert(records.len() > 0);
            if self.active_segment is Some {
                assert forall|i: int| 0 <= i < records.len() implies 2 * (#[trigger] records[i]).len() + 32
                    + WAL_SEGMENT_SIZE <= usize::MAX by {
                    assert(records[i] == pending@[i].record());
                }
                let active = self.active_segment->0;
                batch_span_bound(active.number, active.write_position as int, records, WAL_SEGMENT_SIZE as int);
            }
            assert forall|i: int| 0 <= i < records.len() implies 2 * (#[trigger] records[i]).len() + 32
                + WAL_SEGMENT_SIZE <= usize::MAX by {
                assert(records[i] == pending@[i].record());
            }
            batch_span_bound(self.next_segment_number, 0, records, WAL_SEGMENT_SIZE as int);
        }
        if self.active_segment.is_some() {
            match self.append_active(vfs, pending) {
                Ok(count) => {
                    return Ok(count);
                },
                Err(WalError::SegmentFull) => {},
                Err(error) => {
                    return Err(error);
                },
            }
            if let Some(full) = self.active_segment.take() {
                self.dirty_segments.push(full.sync_handle());
                assert(self.dirty_segments@.drop_last() =~= old(self).dirty_segments@);
            }
        }
        match self.ensure_active(vfs) {
            Ok(()) => {},
            Err(error) => {
                return Err(error);
            },
        }
        proof {
            let active = self.active_segment->0;
            let empty = Seq::<u8>::empty();
            let count = segment::accepted(active.number, 0, records, WAL_SEGMENT_SIZE as int);
            let written = segment::stream_bytes(active.number, 0, records.take(count as int));
            assert(vfs::overwritten(empty, 0, written) =~= written);
            assert(vfs.state().contents(&active.file) =~= empty);
        }
        self.append_active(vfs, pending)
    }

    /// Writes one append as the next record, and says what to ask of the syncer
    /// and, where the caller does not wait for durability, what the caller is
    /// told once that is asked. A failed append is handed back with its error.
    pub fn write_append<V: Vfs, H>(&mut self, vfs: &mut V, append: AppendOp<H>, wait_for_sync: bool) -> (result: Result<
        (SyncOp<H>, Option<Outcome<H>>),
        (H, WalError),
    >)
        requires
            old(self).valid(old(vfs)),
            2 * (8 + append.payload@.len()) + 32 + WAL_SEGMENT_SIZE <= usize::MAX,
        ensures
            final(self).valid(final(vfs)),
            final(self).dir == old(self).dir,
            final(vfs).dependable() == old(vfs).dependable(),
            final(vfs).journal() == old(vfs).journal(),
            final(self).next_sequence == (if old(self).next_sequence == u64::MAX {
                u64::MAX
            } else {
                (old(self).next_sequence + 1) as u64
            }),
            ({
                let sequence = old(self).next_sequence;
                let record = recovery::log_record(sequence, append.payload@);
                let records = seq![record];
                match result {
                    Ok((request, told)) => {
                        let segments = request.segments@;
                        &&& sequence < u64::MAX
                        &&& final(self).active_segment matches Some(active)
                        &&& old(self).appends(final(vfs), old(vfs), records, 1, active)
                        &&& final(self).dirty_segments@.len() == 0
                        &&& !final(self).directory_dirty
                        &&& segments.len() > 0
                        &&& segments.last().marks(&active)
                        &&& if old(self).is_fresh(records) {
                            &&& final(self).next_segment_number == old(self).next_segment_number + 1
                            &&& request.sync_directory
                            &&& match old(self).active_segment {
                                Some(left) => {
                                    &&& segments.len() == old(self).dirty_segments@.len() + 2
                                    &&& segments.take(segments.len() - 2) == old(self).dirty_segments@
                                    &&& segments[segments.len() - 2].marks(&left)
                                },
                                None => segments.drop_last() == old(self).dirty_segments@,
                            }
                        } else {
                            &&& final(self).next_segment_number == old(self).next_segment_number
                            &&& request.sync_directory == old(self).directory_dirty
                            &&& segments.drop_last() == old(self).dirty_segments@
                        }
                        &&& if wait_for_sync {
                            &&& told is None
                            &&& request.completion == Some(AppendCompletion { sequence, handle: append.handle })
                        } else {
                            &&& request.completion is None
                            &&& told matches Some(outcome)
                            &&& outcome.handle == append.handle
                            &&& outcome.result == Ok::<u64, WalError>(sequence)
                        }
                    },
                    Err((handle, error)) => {
                        &&& handle == append.handle
                        &&& if sequence == u64::MAX {
                            &&& error@ == recovery::sequences_exhausted()
                            &&& *final(self) == *old(self)
                            &&& final(vfs).state() == old(vfs).state()
                        } else {
                            final(self).has_failed(final(vfs), old(self), old(vfs), records, error@)
                        }
                    },
                }
            }),
    {
        let sequence: u64 = self.next_sequence;
        let AppendOp { payload, handle } = append;
        let incremented: u64 = match sequence.checked_add(1) {
            Some(incremented) => incremented,
            None => {
                return Err((handle, WalError::Worker(String::from_str("WAL sequence space exhausted"))));
            },
        };
        self.next_sequence = incremented;
        let mut sequence_bytes: Vec<u8> = Vec::new();
        le::put_u64(&mut sequence_bytes, sequence);
        let mut pending: VecDeque<PendingAppend<H>> = VecDeque::new();
        pending.push_back(PendingAppend { sequence, sequence_bytes, payload, handle });
        let ghost record = recovery::log_record(sequence, append.payload@);
        proof {
            le::u64_round_trip(sequence);
            assert(sequence_bytes@ =~= le::u64_bytes(sequence));
            assert(pending@[0].record() =~= record);
            assert(records_of(pending@) =~= seq![record]);
        }
        let written = self.write_pending(vfs, &pending);
        let handle: H = pending.pop_front().unwrap().handle;
        match written {
            Ok(_) => {},
            Err(error) => {
                return Err((handle, error));
            },
        }
        let ghost rotated = self.dirty_segments@;
        let (segments, sync_directory) = self.take_sync_request();
        proof {
            if old(self).is_fresh(seq![record]) && old(self).active_segment is Some {
                assert(segments@.take(segments@.len() - 2) =~= rotated.drop_last());
                assert(segments@[segments@.len() - 2] == segments@.drop_last().last());
            }
        }
        if wait_for_sync {
            Ok((SyncOp { segments, sync_directory, completion: Some(AppendCompletion { sequence, handle }) }, None))
        } else {
            Ok(
                (
                    SyncOp { segments, sync_directory, completion: None },
                    Some(Outcome { handle, result: Ok(sequence) }),
                ),
            )
        }
    }

    /// Takes the segments that hold bytes which are not yet durable: those left
    /// behind by rotation, oldest first, and the active one. Says whether the
    /// directory has to be made durable with them.
    pub fn take_sync_request(&mut self) -> (request: (Vec<SegmentSyncHandle>, bool))
        ensures
            final(self).dirty_segments@.len() == 0,
            !final(self).directory_dirty,
            final(self).dir == old(self).dir,
            final(self).next_sequence == old(self).next_sequence,
            final(self).next_segment_number == old(self).next_segment_number,
            final(self).active_segment == old(self).active_segment,
            request.1 == old(self).directory_dirty,
            match old(self).active_segment {
                None => request.0@ == old(self).dirty_segments@,
                Some(active) => {
                    &&& request.0@.len() == old(self).dirty_segments@.len() + 1
                    &&& request.0@.drop_last() == old(self).dirty_segments@
                    &&& request.0@.last().marks(&active)
                },
            },
    {
        let mut segments: Vec<SegmentSyncHandle> = Vec::new();
        segments.append(&mut self.dirty_segments);
        assert(segments@ =~= old(self).dirty_segments@);
        if let Some(active) = &self.active_segment {
            segments.push(active.sync_handle());
            assert(segments@.drop_last() =~= old(self).dirty_segments@);
        }
        let sync_directory: bool = self.directory_dirty;
        self.directory_dirty = false;
        (segments, sync_directory)
    }
}

proof fn small_batch(number: u64, position: int, records: Seq<Seq<u8>>, max: int)
    requires
        0 <= position <= max <= WAL_SEGMENT_SIZE,
        forall|i: int|
            0 <= i < records.len() ==> 2 * (#[trigger] records[i]).len() + 32 + WAL_SEGMENT_SIZE <= usize::MAX,
    ensures
        position + segment::batch_span(number, position, records, max) <= usize::MAX,
{
    let count = segment::accepted(number, position, records, max);
    batch_span_bound(number, position, records, max);
    if count < records.len() {
        let end = segment::accepted_end(number, position, records, max);
        framing::record_size_bound(codec::FULL, number as u32, end, records[count as int], true);
        segment::stream_bytes_next(number, position, records, count as int);
    }
}

proof fn batch_span_bound(number: u64, position: int, records: Seq<Seq<u8>>, max: int)
    requires
        forall|i: int|
            0 <= i < records.len() ==> 2 * (#[trigger] records[i]).len() + 32 + WAL_SEGMENT_SIZE <= usize::MAX,
        0 <= position <= max <= WAL_SEGMENT_SIZE,
    ensures
        segment::batch_span(number, position, records, max) <= usize::MAX,
        segment::accepted_end(number, position, records, max) <= max,
        segment::accepted(number, position, records, max) <= records.len(),
        segment::accepted(number, position, records, max) < records.len() ==> segment::accepted_end(
            number,
            position,
            records,
            max,
        ) + segment::refused_size(number, position, records, max) <= u64::MAX,
    decreases records.len(),
{
    let count = segment::accepted(number, position, records, max);
    if records.len() == 0 {
        assert(records.take(0) =~= Seq::<Seq<u8>>::empty());
    } else {
        let record = codec::encoded(number, position, records[0]);
        let end = position + record.len();
        framing::record_size_bound(codec::FULL, number as u32, position, records[0], true);
        if end <= max {
            let others = records.skip(1);
            assert forall|i: int| 0 <= i < others.len() implies 2 * (#[trigger] others[i]).len() + 32
                + WAL_SEGMENT_SIZE <= usize::MAX by {
                assert(others[i] == records[i + 1]);
            }
            batch_span_bound(number, end, others, max);
            let taken = segment::accepted(number, end, others, max);
            assert(records.take(count as int).skip(1) =~= others.take(taken as int));
            if count < records.len() {
                assert(records.take(count as int + 1).skip(1) =~= others.take(taken as int + 1));
                segment::stream_bytes_next(number, position, records, count as int);
                segment::stream_bytes_next(number, end, others, taken as int);
                let refused = codec::encoded(
                    number,
                    segment::accepted_end(number, position, records, max),
                    records[count as int],
                );
                framing::record_size_bound(
                    codec::FULL,
                    number as u32,
                    segment::accepted_end(number, position, records, max),
                    records[count as int],
                    true,
                );
            }
        } else {
            assert(records.take(0) =~= Seq::<Seq<u8>>::empty());
            segment::stream_bytes_next(number, position, records, 0);
        }
    }
}

proof fn appends_grow<H>(operations: Seq<Operation<H>>, count: int)
    requires
        0 <= count <= operations.len(),
    ensures
        appends_of(operations.take(count)).len() <= appends_of(operations).len(),
    decreases operations.len() - count,
{
    if count < operations.len() {
        appends_grow(operations, count + 1);
        assert(operations.take(count + 1).drop_last() =~= operations.take(count));
    } else {
        assert(operations.take(count) =~= operations);
    }
}

/// The appends among operations are taken in order, each once, and nothing but
/// them.
pub proof fn appends_are_taken_in_order<H>(operations: Seq<Operation<H>>, operation: AppendOp<H>)
    ensures
        appends_of(Seq::<Operation<H>>::empty()).len() == 0,
        appends_of(operations.push(Operation::Append(operation))) == appends_of(operations).push(operation),
        appends_of(operations.push(Operation::Close)) == appends_of(operations),
        closes(operations.push(Operation::Close)),
        closes(operations.push(Operation::Append(operation))) == closes(operations),
{
    let longer = operations.push(Operation::Append(operation));
    let closed = operations.push(Operation::Close);
    assert(longer.drop_last() =~= operations);
    assert(closed.drop_last() =~= operations);
    assert(closed[operations.len() as int] is Close);
    if closes(operations) {
        let i = choose|i: int| 0 <= i < operations.len() && #[trigger] operations[i] is Close;
        assert(longer[i] is Close);
    }
    if closes(longer) {
        let i = choose|i: int| 0 <= i < longer.len() && #[trigger] longer[i] is Close;
        assert(operations[i] is Close);
    }
}

/// The record that is written of an append is its sequence, in eight bytes, and
/// its payload.
pub proof fn records_hold_sequence_and_payload<H>(
    pending: Seq<PendingAppend<H>>,
    first: int,
    operations: Seq<AppendOp<H>>,
    at: int,
)
    requires
        numbered(pending, first, operations),
        0 <= at < operations.len(),
        0 <= first,
        first + operations.len() <= u64::MAX,
    ensures
        records_of(pending).len() == operations.len(),
        records_of(pending)[at].take(8) == le::u64_bytes((first + at) as u64),
        records_of(pending)[at].skip(8) == operations[at].payload@,
        pending[at].handle == operations[at].handle,
{
    assert(pending[at].numbers(first + at, operations[at]));
    let record = records_of(pending)[at];
    assert(record.take(8) =~= le::u64_bytes((first + at) as u64));
    assert(record.skip(8) =~= operations[at].payload@);
}

/// Records go to the active segment where the first of them fits there, and else
/// to a new one with the next number. As many of them are written as fit, and no
/// segment passes 64 MiB.
pub proof fn writer_rotates_where_a_record_does_not_fit<V: Vfs>(
    writer: &WriterLoop,
    vfs: &V,
    before: &WriterLoop,
    earlier: &V,
    records: Seq<Seq<u8>>,
    count: int,
)
    requires
        writer.has_written(vfs, before, earlier, records, count),
        before.valid(earlier),
        forall|number: u64, i: int, at: int|
            0 <= i < records.len() && 0 <= at <= WAL_SEGMENT_SIZE ==> at + (#[trigger] codec::encoded(
                number,
                at,
                records[i],
            )).len() <= u64::MAX,
    ensures
        ({
            let active = writer.active_segment->0;
            let stays = before.active_segment matches Some(left) && left.write_position + codec::encoded(
                left.number,
                left.write_position as int,
                records[0],
            ).len() <= 67_108_864;
            let start = if stays {
                before.active_segment->0.write_position as int
            } else {
                0
            };
            &&& writer.active_segment is Some
            &&& 0 < count <= records.len()
            &&& stays ==> active.number == before.active_segment->0.number && writer.next_segment_number
                == before.next_segment_number
            &&& !stays && (before.active_segment is None || before.active_segment->0.write_position > 0)
                ==> active.number == before.next_segment_number && writer.next_segment_number
                == before.next_segment_number + 1
            &&& stays || before.active_segment is None || before.active_segment->0.write_position > 0 ==> {
                &&& active.write_position == start + segment::stream_bytes(
                    active.number,
                    start,
                    records.take(count),
                ).len()
                &&& active.write_position <= 67_108_864
                &&& count < records.len() ==> start + segment::stream_bytes(
                    active.number,
                    start,
                    records.take(count + 1),
                ).len() > 67_108_864
            }
        }),
{
    let number = before.target_number(records);
    let start = before.target_position(records) as int;
    if let Some(left) = before.active_segment {
        segment::batch_is_refused_where_its_first_record_does_not_fit(
            left.number,
            left.write_position,
            records,
            left.max_size,
        );
    }
    segment::accepted_records_are_the_most(number, start, records, WAL_SEGMENT_SIZE as int);
}

/// No segment gets a number that four bytes cannot hold. Where its number is
/// smaller, and the records themselves can be written, nothing stands against it.
pub proof fn segment_numbers_fit_four_bytes(writer: &WriterLoop, records: Seq<Seq<u8>>)
    ensures
        ({
            let fresh = writer.active_segment is None || writer.must_rotate(records);
            &&& fresh && writer.next_segment_number > 0xffff_ffff ==> writer.write_error(records) is Some
            &&& fresh && writer.next_segment_number <= 0xffff_ffff ==> writer.write_error(records)
                == segment::batch_error(writer.next_segment_number, 0, records, 67_108_864)
            &&& !fresh ==> writer.write_error(records) == segment::batch_error(
                writer.active_segment->0.number,
                writer.active_segment->0.write_position,
                records,
                67_108_864,
            )
        }),
{
}

/// A segment that is left for a new one waits to be made durable, up to where it
/// is written. Segments that waited before still do.
pub proof fn left_segment_waits_for_sync<V: Vfs>(
    writer: &WriterLoop,
    vfs: &V,
    before: &WriterLoop,
    earlier: &V,
    records: Seq<Seq<u8>>,
    count: int,
    at: int,
)
    requires
        writer.has_written(vfs, before, earlier, records, count),
    ensures
        0 <= at < before.dirty_segments@.len() ==> at < writer.dirty_segments@.len() && writer.dirty_segments@[at]
            == before.dirty_segments@[at],
        before.active_segment matches Some(left) ==> (writer.active_segment->0.number != left.number ==> {
            let last = writer.dirty_segments@.last();
            &&& writer.dirty_segments@.len() == before.dirty_segments@.len() + 1
            &&& last.number == left.number
            &&& last.file.id == left.file.id
            &&& last.write_position == left.write_position
        }),
        before.active_segment is None ==> writer.dirty_segments@ == before.dirty_segments@ && writer.directory_dirty,
        before.directory_dirty ==> writer.directory_dirty,
{
    if before.is_fresh(records) && before.active_segment is Some {
        if 0 <= at < before.dirty_segments@.len() {
            assert(writer.dirty_segments@.drop_last()[at] == writer.dirty_segments@[at]);
        }
    }
}

/// What is written stands behind what was there, in the active file, or alone in
/// a new file with the path of its number.
pub proof fn written_records_end_their_file<V: Vfs>(
    writer: &WriterLoop,
    vfs: &V,
    before: &WriterLoop,
    earlier: &V,
    records: Seq<Seq<u8>>,
    count: int,
)
    requires
        writer.has_written(vfs, before, earlier, records, count),
        before.active_segment matches Some(active) ==> active.write_position == earlier.state().contents(
            &active.file,
        ).len(),
    ensures
        writer.active_segment is Some,
        0 < count <= records.len(),
        before.write_error(records) is None,
        ({
            let active = writer.active_segment->0;
            let contents = vfs.state().data[active.file.id];
            let fresh = before.active_segment is None || before.must_rotate(records);
            &&& active.write_position == contents.len()
            &&& fresh ==> {
                &&& contents == segment::stream_bytes(before.next_segment_number, 0, records.take(count))
                &&& active.number == before.next_segment_number
                &&& active.file.path@ == segment_names::segment_path(before.dir@, active.number as nat)
                &&& !earlier.state().data.contains_key(active.file.id)
            }
            &&& !fresh ==> {
                let left = before.active_segment->0;
                &&& active.file == left.file && active.number == left.number
                &&& contents == earlier.state().data[left.file.id] + segment::stream_bytes(
                    left.number,
                    left.write_position as int,
                    records.take(count),
                )
            }
        }),
{
    let active = writer.active_segment->0;
    if !before.is_fresh(records) {
        let left = before.active_segment->0;
        vfs::written_bytes_stand_in_their_place(
            earlier.state().contents(&left.file),
            left.write_position as int,
            segment::stream_bytes(left.number, left.write_position as int, records.take(count)),
            0,
        );
    }
}

/// A write that fails takes nothing away: every file keeps its name, and every
/// file but the active one its bytes. The active segment goes on where it did.
pub proof fn failed_write_keeps_the_log<V: Vfs>(
    writer: &WriterLoop,
    vfs: &V,
    before: &WriterLoop,
    earlier: &V,
    records: Seq<Seq<u8>>,
    error: WalErrorView,
    path: Seq<char>,
    id: u64,
)
    requires
        writer.has_failed(vfs, before, earlier, records, error),
    ensures
        earlier.state().names.contains_key(path) ==> vfs.state().names.contains_key(path)
            && vfs.state().names[path] == earlier.state().names[path],
        earlier.state().data.contains_key(id) && (before.active_segment matches Some(active) ==> active.file.id != id)
            ==> vfs.state().data.contains_key(id) && vfs.state().data[id] == earlier.state().data[id],
        before.directory_dirty ==> writer.directory_dirty,
        ({
            let fresh = before.active_segment is None || before.must_rotate(records);
            &&& !fresh ==> {
                &&& writer.active_segment is Some
                &&& writer.active_segment->0.number == before.active_segment->0.number
                &&& writer.active_segment->0.write_position == before.active_segment->0.write_position
                &&& writer.dirty_segments@ == before.dirty_segments@
                &&& before.write_error(records) is Some ==> vfs.state() == earlier.state()
            }
            &&& fresh && before.active_segment is Some ==> {
                let last = writer.dirty_segments@.last();
                &&& writer.dirty_segments@.len() == before.dirty_segments@.len() + 1
                &&& last.number == before.active_segment->0.number
                &&& last.file.id == before.active_segment->0.file.id
                &&& last.write_position == before.active_segment->0.write_position
            }
            &&& fresh && writer.active_segment is Some ==> {
                &&& writer.active_segment->0.number == before.next_segment_number
                &&& writer.active_segment->0.write_position == 0
                &&& writer.next_segment_number == before.next_segment_number + 1
                &&& writer.directory_dirty
            }
        }),
        before.write_error(records) is None ==> error is Io || error is Corruption,
{
    if earlier.state().data.contains_key(id) {
        assert(earlier.state().data.dom().contains(id));
    }
}

} // verus!
