//! What a run of the writer leaves in the segment files.

use vstd::prelude::*;
use crate::segment_names;
use crate::vfs;
use crate::vfs::{FsState, Vfs};
use crate::wal::codec;
use crate::wal::error::WalErrorView;
use crate::wal::recovery;
use crate::wal::recovery::WAL_SEGMENT_SIZE;
use crate::wal::segment;
use crate::wal::writer;
use crate::wal::writer::{AppendOp, PendingAppend, WriterLoop};

verus! {

/// The file of the segment with a number.
pub open spec fn file_of(dir: Seq<char>, state: FsState, number: u64) -> u64 {
    state.names[segment_names::segment_path(dir, number as nat)]
}

/// Whether the segment with a number holds the records and nothing else, and
/// no more than a segment may.
pub open spec fn holds_segment(dir: Seq<char>, state: FsState, number: u64, written: Seq<Seq<u8>>) -> bool {
    let id = file_of(dir, state, number);
    &&& number <= u32::MAX
    &&& state.names.contains_key(segment_names::segment_path(dir, number as nat))
    &&& state.data.contains_key(id)
    &&& state.data[id] == segment::stream_bytes(number, 0, written)
    &&& state.data[id].len() <= WAL_SEGMENT_SIZE
}

/// Whether the log is those segments, and its writer stands at the end of the
/// last one.
pub open spec fn holds_log(
    writer: &WriterLoop,
    state: FsState,
    numbers: Seq<u64>,
    written: Seq<Seq<Seq<u8>>>,
) -> bool {
    let dir = writer.dir@;
    &&& numbers.len() == written.len()
    &&& forall|i: int| 0 <= i < written.len() ==> holds_segment(dir, state, numbers[i], #[trigger] written[i])
    &&& forall|i: int| 0 <= i < numbers.len() ==> #[trigger] numbers[i] < writer.next_segment_number
    &&& forall|i: int, j: int| 0 <= i < j < numbers.len() ==> numbers[i] < numbers[j]
    &&& forall|i: int, j: int|
        #![trigger numbers[i], numbers[j]]
        0 <= i < j < numbers.len() ==> file_of(dir, state, numbers[i]) != file_of(dir, state, numbers[j])
    &&& forall|number: u64|
        writer.next_segment_number <= number <= u32::MAX ==> !state.names.contains_key(
            #[trigger] segment_names::segment_path(dir, number as nat),
        )
    &&& match writer.active_segment {
        None => numbers.len() == 0,
        Some(active) => {
            &&& numbers.len() > 0
            &&& active.number == numbers.last()
            &&& active.file.id == file_of(dir, state, numbers.last())
            &&& active.write_position == state.data[active.file.id].len()
        },
    }
}

/// A log in a directory without segments holds nothing.
pub proof fn opened_log_is_empty(writer: &WriterLoop, state: FsState)
    requires
        writer.active_segment is None,
        recovery::are_segment_numbers(state.names, writer.dir@, Seq::empty()),
    ensures
        holds_log(writer, state, Seq::empty(), Seq::empty()),
{
    let none = Seq::<u64>::empty();
    assert forall|number: u64| writer.next_segment_number <= number <= u32::MAX implies !state.names.contains_key(
        #[trigger] segment_names::segment_path(writer.dir@, number as nat),
    ) by {
        assert(!none.contains(number));
    }
}

/// The numbers of the segments after records were written: to the last one, or
/// to a new one.
pub open spec fn longer_numbers(numbers: Seq<u64>, number: u64, fresh: bool) -> Seq<u64> {
    if fresh {
        numbers.push(number)
    } else {
        numbers
    }
}

/// The records of the segments after more were written.
pub open spec fn longer(written: Seq<Seq<Seq<u8>>>, added: Seq<Seq<u8>>, fresh: bool) -> Seq<Seq<Seq<u8>>> {
    if fresh {
        written.push(added)
    } else {
        written.drop_last().push(written.last() + added)
    }
}

/// Records that were written are at the end of the log, in the last segment or
/// in the one with the next number, and nothing else has changed. No segment
/// grows beyond what it may hold.
pub proof fn written_records_extend_the_log<V: Vfs>(
    before: &WriterLoop,
    earlier: &V,
    after: &WriterLoop,
    vfs: &V,
    numbers: Seq<u64>,
    written: Seq<Seq<Seq<u8>>>,
    records: Seq<Seq<u8>>,
    count: int,
)
    requires
        holds_log(before, earlier.state(), numbers, written),
        after.valid(vfs),
        after.dir@ == before.dir@,
        after.has_written(vfs, before, earlier, records, count),
    ensures
        ({
            let fresh = before.is_fresh(records);
            let added = records.take(count);
            &&& holds_log(
                after,
                vfs.state(),
                longer_numbers(numbers, before.next_segment_number, fresh),
                longer(written, added, fresh),
            )
            &&& longer(written, added, fresh).flatten() == written.flatten() + added
        }),
{
    let dir = before.dir@;
    let state = earlier.state();
    let next = vfs.state();
    let fresh = before.is_fresh(records);
    let added = records.take(count);
    let now = longer(written, added, fresh);
    let numbered = longer_numbers(numbers, before.next_segment_number, fresh);
    let active = after.active_segment->0;
    let id = active.file.id;
    let number = before.target_number(records);
    let start = before.target_position(records) as int;
    let bytes = segment::stream_bytes(number, start, added);
    let last = numbers.len() - 1;
    if fresh {
        let path = segment_names::segment_path(dir, number as nat);
        assert(number <= u32::MAX);
        written.lemma_flatten_push(added);
        assert forall|i: int| 0 <= i < numbers.len() implies {
            &&& segment_names::segment_path(dir, #[trigger] numbers[i] as nat) != path
            &&& file_of(dir, next, numbers[i]) == file_of(dir, state, numbers[i])
            &&& file_of(dir, state, numbers[i]) != id
        } by {
            assert(holds_segment(dir, state, numbers[i], written[i]));
            segment_names::segment_paths_differ(dir, numbers[i] as nat, number as nat);
        }
        assert(file_of(dir, next, number) == id);
        assert forall|i: int| 0 <= i < now.len() implies holds_segment(dir, next, numbered[i], #[trigger] now[i]) by {
            if i < numbers.len() {
                assert(now[i] == written[i]);
                assert(numbered[i] == numbers[i]);
                assert(holds_segment(dir, state, numbers[i], written[i]));
                assert(state.with_file(path, id).data.contains_key(file_of(dir, state, numbers[i])));
                assert(next.data[file_of(dir, state, numbers[i])] == state.data[file_of(dir, state, numbers[i])]);
            } else {
                assert(state.with_file(path, id).data.dom().contains(id));
            }
        }
        assert forall|i: int, j: int|
            #![trigger numbered[i], numbered[j]]
            0 <= i < j < numbered.len() implies file_of(dir, next, numbered[i]) != file_of(dir, next, numbered[j]) by {
            assert(numbered[i] == numbers[i]);
            if j < numbers.len() {
                assert(numbered[j] == numbers[j]);
            }
        }
        assert forall|other: u64| after.next_segment_number <= other <= u32::MAX implies !next.names.contains_key(
            #[trigger] segment_names::segment_path(dir, other as nat),
        ) by {
            assert(!state.names.contains_key(segment_names::segment_path(dir, other as nat)));
            segment_names::segment_paths_differ(dir, other as nat, number as nat);
        }
    } else {
        let front = written.last();
        let held = state.data[id];
        assert(holds_segment(dir, state, numbers[last], written[last]));
        segment::stream_bytes_split(number, 0, front, added);
        assert(vfs::overwritten(held, start, bytes) =~= held + bytes);
        assert forall|i: int| 0 <= i < now.len() implies holds_segment(dir, next, numbered[i], #[trigger] now[i]) by {
            assert(holds_segment(dir, state, numbers[i], written[i]));
            if i < last {
                assert(now[i] == written[i]);
                assert(file_of(dir, state, numbers[i]) != file_of(dir, state, numbers[last]));
                assert(next.data[file_of(dir, state, numbers[i])] == state.data[file_of(dir, state, numbers[i])]);
            }
            assert(state.data.dom().contains(file_of(dir, state, numbers[i])));
        }
        assert(written.drop_last().push(written.last()) =~= written);
        written.drop_last().lemma_flatten_push(written.last());
        written.drop_last().lemma_flatten_push(front + added);
        assert(now.flatten() =~= written.flatten() + added);
    }
}

/// One write of a run: the records that were pending, and how many of them were
/// written.
pub struct WriteStep {
    pub records: Seq<Seq<u8>>,
    pub count: int,
}

/// The records that the steps wrote, in order.
pub open spec fn written_by(steps: Seq<WriteStep>) -> Seq<Seq<u8>>
    decreases steps.len(),
{
    if steps.len() == 0 {
        Seq::empty()
    } else {
        written_by(steps.drop_last()) + steps.last().records.take(steps.last().count)
    }
}

/// Whether a write leads from one state of the writer and its filesystem to
/// another one.
pub open spec fn leads<V: Vfs>(step: WriteStep, before: &WriterLoop, earlier: &V, after: &WriterLoop, vfs: &V) -> bool {
    &&& after.dir@ == before.dir@
    &&& after.valid(vfs)
    &&& after.has_written(vfs, before, earlier, step.records, step.count)
}

/// Whether the writers and the filesystems are those between the writes of a
/// run.
pub open spec fn is_run<V: Vfs>(steps: Seq<WriteStep>, writers: Seq<WriterLoop>, systems: Seq<V>) -> bool {
    &&& writers.len() == systems.len() == steps.len() + 1
    &&& forall|i: int|
        0 <= i < steps.len() ==> leads(
            #[trigger] steps[i],
            &writers[i],
            &systems[i],
            &writers[i + 1],
            &systems[i + 1],
        )
}

/// A run of the writer leaves every record that was written in the log, once
/// and in order, each one whole in one segment.
pub proof fn run_is_in_the_log<V: Vfs>(
    steps: Seq<WriteStep>,
    writers: Seq<WriterLoop>,
    systems: Seq<V>,
    numbers: Seq<u64>,
    written: Seq<Seq<Seq<u8>>>,
) -> (log: (Seq<u64>, Seq<Seq<Seq<u8>>>))
    requires
        is_run(steps, writers, systems),
        holds_log(&writers[0], systems[0].state(), numbers, written),
    ensures
        holds_log(&writers[steps.len() as int], systems[steps.len() as int].state(), log.0, log.1),
        log.1.flatten() == written.flatten() + written_by(steps),
    decreases steps.len(),
{
    if steps.len() == 0 {
        assert(written.flatten() + Seq::<Seq<u8>>::empty() =~= written.flatten());
        (numbers, written)
    } else {
        let last = steps.len() - 1;
        let front = steps.drop_last();
        let step = steps[last];
        assert(leads(step, &writers[last], &systems[last], &writers[last + 1], &systems[last + 1]));
        assert forall|i: int| 0 <= i < front.len() implies leads(
            #[trigger] front[i],
            &writers.drop_last()[i],
            &systems.drop_last()[i],
            &writers.drop_last()[i + 1],
            &systems.drop_last()[i + 1],
        ) by {
            assert(front[i] == steps[i]);
        }
        let (reached, held) = run_is_in_the_log(front, writers.drop_last(), systems.drop_last(), numbers, written);
        let before = &writers[last];
        let fresh = before.is_fresh(step.records);
        written_records_extend_the_log(
            before,
            &systems[last],
            &writers[last + 1],
            &systems[last + 1],
            reached,
            held,
            step.records,
            step.count,
        );
        let added = step.records.take(step.count);
        assert(written.flatten() + written_by(front) + added =~= written.flatten() + written_by(steps));
        (longer_numbers(reached, before.next_segment_number, fresh), longer(held, added, fresh))
    }
}

/// Whether the batches were numbered one after another, from `first` on.
pub open spec fn numbered_in_turn<H>(
    batches: Seq<Seq<PendingAppend<H>>>,
    queued: Seq<Seq<AppendOp<H>>>,
    first: int,
) -> bool
    decreases batches.len(),
{
    &&& batches.len() == queued.len()
    &&& batches.len() > 0 ==> {
        &&& writer::numbered(batches[0], first, queued[0])
        &&& numbered_in_turn(batches.skip(1), queued.skip(1), first + batches[0].len())
    }
}

/// However the appends of any callers come to be batched, the one at a place of
/// the queue gets the sequence that lies as far from the first.
pub proof fn queue_order_is_sequence_order<H>(
    batches: Seq<Seq<PendingAppend<H>>>,
    queued: Seq<Seq<AppendOp<H>>>,
    first: int,
)
    requires
        numbered_in_turn(batches, queued, first),
    ensures
        writer::numbered(batches.flatten(), first, queued.flatten()),
    decreases batches.len(),
{
    if batches.len() > 0 {
        assert(batches.drop_first() =~= batches.skip(1));
        assert(queued.drop_first() =~= queued.skip(1));
        queue_order_is_sequence_order(batches.skip(1), queued.skip(1), first + batches[0].len());
        let all = batches.flatten();
        let asked = queued.flatten();
        let rest = batches.skip(1).flatten();
        assert(all =~= batches[0] + rest);
        assert(asked =~= queued[0] + queued.skip(1).flatten());
        assert forall|i: int| 0 <= i < all.len() implies (#[trigger] all[i]).numbers(first + i, asked[i]) by {
            if i >= batches[0].len() {
                assert(all[i] == rest[i - batches[0].len()]);
            } else {
                assert(all[i] == batches[0][i]);
            }
        }
    }
}

/// A log takes the next records on a dependable filesystem: the segment that
/// they go to is new, or ends where its records end.
pub proof fn log_takes_records<V: Vfs>(
    writer: &WriterLoop,
    vfs: &V,
    numbers: Seq<u64>,
    written: Seq<Seq<Seq<u8>>>,
    records: Seq<Seq<u8>>,
    error: WalErrorView,
    after: &WriterLoop,
    later: &V,
)
    requires
        holds_log(writer, vfs.state(), numbers, written),
        vfs.dependable(),
        writer.write_error(records) is None,
    ensures
        !after.has_failed(later, writer, vfs, records, error),
{
    let number = writer.next_segment_number;
    if number <= u32::MAX {
        assert(!vfs.state().names.contains_key(segment_names::segment_path(writer.dir@, number as nat)));
    }
}

/// Whether a record fits a segment, wherever in it the record stands.
pub open spec fn fits_a_segment(record: Seq<u8>) -> bool {
    forall|number: u64, position: int|
        0 <= position ==> (#[trigger] codec::encoded(number, position, record)).len() <= WAL_SEGMENT_SIZE
}

/// Records that fit a segment can be written while there is a number for the
/// next segment: to the active one, or to the next one where that is full.
pub proof fn fitting_records_can_be_written<V: Vfs>(writer: &WriterLoop, vfs: &V, records: Seq<Seq<u8>>)
    requires
        writer.valid(vfs),
        writer.next_segment_number <= u32::MAX,
        records.len() > 0,
        forall|i: int| 0 <= i < records.len() ==> fits_a_segment(#[trigger] records[i]),
    ensures
        writer.write_error(records) is None,
{
    let max = WAL_SEGMENT_SIZE as int;
    let next = writer.next_segment_number;
    assert(fits_a_segment(records[0]));
    assert(codec::encoded(next, 0, records[0]).len() <= max);
    segment::accepted_records_end_inside(next, 0, records, max);
    let count = segment::accepted(next, 0, records, max);
    if count < records.len() {
        assert(fits_a_segment(records[count as int]));
    }
    if let Some(active) = writer.active_segment {
        let start = active.write_position as int;
        segment::accepted_records_end_inside(active.number, start, records, max);
        let taken = segment::accepted(active.number, start, records, max);
        if taken < records.len() {
            assert(fits_a_segment(records[taken as int]));
        }
        assert(codec::encoded(active.number, 0, records[0]).len() <= max);
    }
}

/// The payloads of each segment, where the segments hold the records of the
/// payloads in order.
proof fn payloads_by_segment(
    dir: Seq<char>,
    state: FsState,
    numbers: Seq<u64>,
    written: Seq<Seq<Seq<u8>>>,
    payloads: Seq<Seq<u8>>,
    first: int,
) -> (batches: Seq<Seq<Seq<u8>>>)
    requires
        numbers.len() == written.len(),
        forall|i: int| 0 <= i < written.len() ==> holds_segment(dir, state, numbers[i], #[trigger] written[i]),
        written.flatten() == recovery::log_records(first, payloads),
    ensures
        recovery::holds_batches(state, dir, numbers, batches, first),
        recovery::append_count(batches) == payloads.len(),
    decreases numbers.len(),
{
    assert(recovery::log_records(first, payloads).len() == payloads.len());
    if numbers.len() == 0 {
        Seq::empty()
    } else {
        let count = written[0].len() as int;
        let others = written.skip(1);
        let all = recovery::log_records(first, payloads);
        let front = payloads.take(count);
        let rest = payloads.skip(count);
        assert(written.drop_first() =~= others);
        assert(all =~= written[0] + others.flatten());
        assert(all.len() == payloads.len());
        assert(recovery::log_records(first, front) =~= all.take(count));
        assert(all.take(count) =~= written[0]);
        assert(recovery::log_records(first + count, rest) =~= all.skip(count));
        assert(all.skip(count) =~= others.flatten());
        assert forall|i: int| 0 <= i < others.len() implies holds_segment(
            dir,
            state,
            numbers.skip(1)[i],
            #[trigger] others[i],
        ) by {
            assert(others[i] == written[i + 1]);
        }
        let later = payloads_by_segment(dir, state, numbers.skip(1), others, rest, first + count);
        let batches = seq![front] + later;
        assert(batches.skip(1) =~= later);
        assert(holds_segment(dir, state, numbers[0], written[0]));
        batches
    }
}

/// What a run left is recovered whole: the log goes on with the sequence after
/// the last record, at the end of the last segment.
pub proof fn log_is_recovered(
    writer: &WriterLoop,
    state: FsState,
    numbers: Seq<u64>,
    written: Seq<Seq<Seq<u8>>>,
    payloads: Seq<Seq<u8>>,
)
    requires
        holds_log(writer, state, numbers, written),
        recovery::are_segment_numbers(state.names, writer.dir@, numbers),
        written.flatten() == recovery::log_records(0, payloads),
        payloads.len() <= u64::MAX,
    ensures
        ({
            let found = recovery::segment_numbers(state.names, writer.dir@);
            &&& found == numbers
            &&& recovery::log_recovery(state, writer.dir@, found, 0) matches recovery::Recovery::Recovered {
                next_sequence,
                end,
            }
            &&& next_sequence == payloads.len()
            &&& numbers.len() > 0 ==> end == recovery::segment_contents(state, writer.dir@, numbers.last()).len()
        }),
{
    recovery::segment_numbers_are(state.names, writer.dir@, numbers);
    let batches = payloads_by_segment(writer.dir@, state, numbers, written, payloads, 0);
    recovery::written_log_is_recovered(state, writer.dir@, numbers, batches, 0);
}

} // verus!
