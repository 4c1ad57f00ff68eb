//! What a run of the writer leaves in the files of the log.

use vstd::prelude::*;
use crate::segment::envelope;
use crate::segment::envelope::{ALIGNMENT, FILE_HEADER_SIZE};
use crate::segment::record;
use crate::segment_names;
use crate::unit::wal::records;
use crate::unit::wal::recovery;
use crate::unit::wal::runtime;
use crate::unit::wal::runtime::LogWriter;
use crate::vfs;
use crate::vfs::{FsState, SyncJournal, Vfs};

verus! {

/// The path of the segment at a place of the log.
pub open spec fn path_at(dir: Seq<char>, at: int) -> Seq<char> {
    segment_names::segment_path(dir, (at + 1) as nat)
}

/// The file of the segment at a place of the log.
pub open spec fn file_at(dir: Seq<char>, state: FsState, at: int) -> u64 {
    state.names[path_at(dir, at)]
}

/// Whether the file at a place of the log holds the records.
pub open spec fn holds_segment(dir: Seq<char>, state: FsState, at: int, written: Seq<(u64, Seq<u8>)>) -> bool {
    &&& state.names.contains_key(path_at(dir, at))
    &&& state.data.contains_key(file_at(dir, state, at))
    &&& state.data[file_at(dir, state, at)] == records::segment_bytes((at + 1) as u64, written)
}

/// Whether the log is those segments, numbered from one on, and its writer
/// stands at the end of the last one.
pub open spec fn holds_log(writer: &LogWriter, state: FsState, written: Seq<Seq<(u64, Seq<u8>)>>) -> bool {
    let dir = writer.dir@;
    &&& written.len() < u32::MAX
    &&& writer.next_segment_number == written.len() + 1
    &&& forall|i: int| 0 <= i < written.len() ==> holds_segment(dir, state, i, #[trigger] written[i])
    &&& forall|number: u64|
        number < 10_000_000_000 && (number == 0 || number > written.len()) ==> !state.names.contains_key(
            #[trigger] segment_names::segment_path(dir, number as nat),
        )
    &&& forall|i: int, j: int|
        0 <= i < j < written.len() ==> #[trigger] file_at(dir, state, i) != #[trigger] file_at(dir, state, j)
    &&& match writer.active {
        None => written.len() == 0,
        Some(active) => {
            &&& written.len() > 0
            &&& active.number == written.len()
            &&& active.file.path@ == path_at(dir, written.len() - 1)
            &&& active.file.id == file_at(dir, state, written.len() - 1)
            &&& active.offset == state.data[active.file.id].len()
        },
    }
}

/// Whether what is not known to be durable is noted by the writer.
pub open spec fn notes_what_is_lost(
    writer: &LogWriter,
    state: FsState,
    journal: SyncJournal,
    count: nat,
) -> bool {
    let dir = writer.dir@;
    &&& forall|i: int|
        0 <= i < count ==> runtime::has_file(writer.dirty_files@, #[trigger] file_at(dir, state, i)) || {
            &&& journal.files.contains_key(file_at(dir, state, i))
            &&& journal.files[file_at(dir, state, i)] == state.data[file_at(dir, state, i)]
        }
    &&& forall|k: int|
        0 <= k < writer.dirty_files@.len() ==> {
            &&& state.names.contains_key((#[trigger] writer.dirty_files@[k]).path@)
            &&& state.names[writer.dirty_files@[k].path@] == writer.dirty_files@[k].id
        }
    &&& count > 0 && !writer.directory_dirty ==> {
        &&& journal.names.contains_key(dir)
        &&& journal.names[dir] == state.names
    }
}

/// Whether every record of the log is durable, and every name of its segments.
pub open spec fn is_durable_log(
    dir: Seq<char>,
    state: FsState,
    journal: SyncJournal,
    written: Seq<Seq<(u64, Seq<u8>)>>,
) -> bool {
    &&& forall|i: int|
        0 <= i < written.len() ==> {
            &&& journal.files.contains_key(file_at(dir, state, i))
            &&& journal.files[file_at(dir, state, i)] == records::segment_bytes(
                (i + 1) as u64,
                #[trigger] written[i],
            )
        }
    &&& written.len() > 0 ==> journal.names.contains_key(dir) && journal.names[dir] == state.names
}

/// The segments after a batch was appended: to the last one, or to a new one.
pub open spec fn extended(
    written: Seq<Seq<(u64, Seq<u8>)>>,
    batch: Seq<(u64, Seq<u8>)>,
    fresh: bool,
) -> Seq<Seq<(u64, Seq<u8>)>> {
    if fresh {
        written.push(batch)
    } else {
        written.drop_last().push(written.last() + batch)
    }
}

/// A log in an empty directory holds nothing.
pub proof fn opened_log_is_empty(writer: &LogWriter, state: FsState, journal: SyncJournal)
    requires
        !vfs::is_occupied(state.names, writer.dir@),
        writer.next_segment_number == 1,
        writer.active is None,
        writer.dirty_files@.len() == 0,
    ensures
        holds_log(writer, state, Seq::empty()),
        notes_what_is_lost(writer, state, journal, 0),
{
    assert forall|number: u64| number < 10_000_000_000 implies !state.names.contains_key(
        #[trigger] segment_names::segment_path(writer.dir@, number as nat),
    ) by {
        segment_names::segment_name_round_trip(number as nat);
        let name = segment_names::segment_name(number as nat);
        if state.names.contains_key(vfs::path_join(writer.dir@, name)) {
            assert(vfs::is_occupied(state.names, writer.dir@));
        }
    }
}

/// A log takes the next batch: nothing refuses it, and a dependable filesystem
/// has room for it.
pub proof fn log_takes_a_batch<V: Vfs>(
    writer: &LogWriter,
    vfs: &V,
    written: Seq<Seq<(u64, Seq<u8>)>>,
    batch: Seq<(u64, Seq<u8>)>,
)
    requires
        holds_log(writer, vfs.state(), written),
        vfs.dependable(),
    ensures
        writer.refusal(batch) is None,
        writer.welcome(vfs, batch),
{
    let number = writer.next_segment_number;
    assert(!vfs.state().names.contains_key(segment_names::segment_path(writer.dir@, number as nat)));
}

/// A batch that was appended is at the end of the log, in the last segment or
/// in a new one, and nothing else has changed.
pub proof fn appended_batch_extends_the_log<V: Vfs>(
    before: &LogWriter,
    held: &V,
    after: &LogWriter,
    vfs: &V,
    written: Seq<Seq<(u64, Seq<u8>)>>,
    batch: Seq<(u64, Seq<u8>)>,
)
    requires
        holds_log(before, held.state(), written),
        notes_what_is_lost(before, held.state(), held.journal(), written.len()),
        written.len() + 1 < u32::MAX,
        after.dir@ == before.dir@,
        after.appended(vfs, before, held, batch),
        vfs.journal() == held.journal(),
    ensures
        holds_log(after, vfs.state(), extended(written, batch, before.placement(batch).fresh)),
        notes_what_is_lost(
            after,
            vfs.state(),
            vfs.journal(),
            extended(written, batch, before.placement(batch).fresh).len(),
        ),
        extended(written, batch, before.placement(batch).fresh).flatten() == written.flatten() + batch,
{
    let dir = before.dir@;
    let state = held.state();
    let next = vfs.state();
    let place = before.placement(batch);
    let now = extended(written, batch, place.fresh);
    let active = after.active->0;
    let id = active.file.id;
    let count = written.len() as int;
    let bytes = records::batch_bytes(place.number, place.start, batch);
    if place.fresh {
        written.lemma_flatten_push(batch);
        let path = path_at(dir, count);
        assert(active.file.path@ == path);
        assert forall|i: int| 0 <= i < count implies path_at(dir, i) != path && #[trigger] file_at(dir, next, i)
            == file_at(dir, state, i) && file_at(dir, state, i) != id by {
            segment_names::segment_paths_differ(dir, (i + 1) as nat, (count + 1) as nat);
            assert(holds_segment(dir, state, i, written[i]));
        }
        assert(file_at(dir, next, count) == id);
        assert(holds_segment(dir, next, count, batch));
        assert forall|i: int| 0 <= i < now.len() implies holds_segment(dir, next, i, #[trigger] now[i]) by {
            if i < count {
                assert(now[i] == written[i]);
                assert(file_at(dir, next, i) == file_at(dir, state, i));
                assert(holds_segment(dir, state, i, written[i]));
            }
        }
        assert forall|number: u64| number < 10_000_000_000 && (number == 0 || number > now.len()) implies !next.names.contains_key(
            #[trigger] segment_names::segment_path(dir, number as nat),
        ) by {
            assert(!state.names.contains_key(segment_names::segment_path(dir, number as nat)));
            segment_names::segment_paths_differ(dir, number as nat, (count + 1) as nat);
        }
    } else {
        let last = count - 1;
        let front = written.last();
        assert(place.number == count);
        assert(holds_segment(dir, state, last, written[last]));
        assert(records::log_records(front + batch) =~= records::log_records(front) + records::log_records(batch));
        record::stream_bytes_split(
            count as u64,
            FILE_HEADER_SIZE as int,
            records::log_records(front),
            records::log_records(batch),
            ALIGNMENT as int,
        );
        envelope::header_round_trip(count as u64, ALIGNMENT, Seq::empty(), true);
        let held_bytes = state.data[id];
        assert(vfs::overwritten(held_bytes, place.start, bytes) =~= held_bytes + bytes);
        assert(held_bytes + bytes =~= records::segment_bytes(count as u64, front + batch));
        assert forall|i: int| 0 <= i < now.len() implies holds_segment(dir, next, i, #[trigger] now[i]) by {
            assert(file_at(dir, next, i) == file_at(dir, state, i));
            assert(holds_segment(dir, state, i, written[i]));
            if i < last {
                assert(now[i] == written[i]);
                assert(file_at(dir, state, i) != file_at(dir, state, last));
            }
        }
        assert forall|i: int, j: int| 0 <= i < j < now.len() implies #[trigger] file_at(dir, next, i)
            != #[trigger] file_at(dir, next, j) by {
            assert(file_at(dir, state, i) != file_at(dir, state, j));
        }
        assert(written.drop_last().push(written.last()) =~= written);
        written.drop_last().lemma_flatten_push(written.last());
        written.drop_last().lemma_flatten_push(front + batch);
        assert(now.flatten() =~= written.flatten() + batch);
    }
    batch_is_noted(before, held, after, vfs, written, batch);
}

proof fn batch_is_noted<V: Vfs>(
    before: &LogWriter,
    held: &V,
    after: &LogWriter,
    vfs: &V,
    written: Seq<Seq<(u64, Seq<u8>)>>,
    batch: Seq<(u64, Seq<u8>)>,
)
    requires
        holds_log(before, held.state(), written),
        notes_what_is_lost(before, held.state(), held.journal(), written.len()),
        written.len() + 1 < u32::MAX,
        after.dir@ == before.dir@,
        after.appended(vfs, before, held, batch),
        vfs.journal() == held.journal(),
    ensures
        notes_what_is_lost(
            after,
            vfs.state(),
            vfs.journal(),
            extended(written, batch, before.placement(batch).fresh).len(),
        ),
{
    let dir = before.dir@;
    let state = held.state();
    let next = vfs.state();
    let place = before.placement(batch);
    let now = extended(written, batch, place.fresh);
    let active = after.active->0;
    let id = active.file.id;
    let count = written.len() as int;
    let dirty = before.dirty_files@;
    let noted = after.dirty_files@;
    assert(runtime::has_file(noted, id)) by {
        if !runtime::has_file(dirty, id) {
            assert(noted[noted.len() - 1].id == id);
        }
    }
    assert forall|k: int| 0 <= k < dirty.len() implies #[trigger] noted[k] == dirty[k] by {
        if !runtime::has_file(dirty, id) {
            assert(noted.drop_last()[k] == noted[k]);
        }
    }
    assert forall|i: int| 0 <= i < now.len() implies runtime::has_file(noted, #[trigger] file_at(dir, next, i)) || {
        &&& vfs.journal().files.contains_key(file_at(dir, next, i))
        &&& vfs.journal().files[file_at(dir, next, i)] == next.data[file_at(dir, next, i)]
    } by {
        if i < count {
            assert(holds_segment(dir, state, i, written[i]));
            if place.fresh {
                segment_names::segment_paths_differ(dir, (i + 1) as nat, (count + 1) as nat);
            }
            assert(file_at(dir, next, i) == file_at(dir, state, i));
            if runtime::has_file(dirty, file_at(dir, state, i)) {
                let k = choose|k: int| 0 <= k < dirty.len() && (#[trigger] dirty[k]).id == file_at(dir, state, i);
                assert(noted[k] == dirty[k]);
            }
        } else {
            assert(file_at(dir, next, i) == id);
        }
    }
    assert forall|k: int| 0 <= k < noted.len() implies {
        &&& next.names.contains_key((#[trigger] noted[k]).path@)
        &&& next.names[noted[k].path@] == noted[k].id
    } by {
        if k < dirty.len() {
            assert(noted[k] == dirty[k]);
            assert(state.names.contains_key(dirty[k].path@));
        }
    }
}

/// After a flush the whole log is durable.
pub proof fn flushed_log_is_durable<V: Vfs>(
    before: &LogWriter,
    held: &V,
    after: &LogWriter,
    vfs: &V,
    written: Seq<Seq<(u64, Seq<u8>)>>,
)
    requires
        holds_log(before, held.state(), written),
        notes_what_is_lost(before, held.state(), held.journal(), written.len()),
        after.dir@ == before.dir@,
        after.flushed(vfs, before),
        vfs.state() == held.state(),
        vfs.journal().advances(held.journal(), held.state()),
    ensures
        holds_log(after, vfs.state(), written),
        notes_what_is_lost(after, vfs.state(), vfs.journal(), written.len()),
        is_durable_log(after.dir@, vfs.state(), vfs.journal(), written),
{
    let dir = before.dir@;
    let state = held.state();
    let dirty = before.dirty_files@;
    assert forall|i: int| 0 <= i < written.len() implies {
        &&& vfs.journal().files.contains_key(#[trigger] file_at(dir, state, i))
        &&& vfs.journal().files[file_at(dir, state, i)] == state.data[file_at(dir, state, i)]
    } by {
        let id = file_at(dir, state, i);
        if runtime::has_file(dirty, id) {
            let k = choose|k: int| 0 <= k < dirty.len() && (#[trigger] dirty[k]).id == id;
            assert(runtime::path_is_durable(vfs.journal(), state, dirty, dirty[k].path@));
            let j = choose|j: int|
                0 <= j < dirty.len() && (#[trigger] dirty[j]).path@ == dirty[k].path@ && runtime::is_durable(
                    vfs.journal(),
                    state,
                    dirty[j],
                );
            assert(state.names[dirty[j].path@] == dirty[j].id);
            assert(state.names[dirty[k].path@] == dirty[k].id);
        } else {
            assert(held.journal().files.contains_key(id));
            assert(vfs.journal().files.contains_key(id));
        }
    }
    assert forall|i: int| 0 <= i < written.len() implies {
        &&& vfs.journal().files.contains_key(file_at(dir, state, i))
        &&& vfs.journal().files[file_at(dir, state, i)] == records::segment_bytes((i + 1) as u64, #[trigger] written[i])
    } by {
        assert(holds_segment(dir, state, i, written[i]));
    }
}

/// What a run of the writer does next: it appends payloads, or makes what was
/// appended durable.
pub enum LogStep {
    Append(Seq<Seq<u8>>),
    Flush,
}

/// Whether a step leads from one state of the writer and its filesystem to
/// another one.
pub open spec fn leads<V: Vfs>(step: LogStep, before: &LogWriter, held: &V, after: &LogWriter, vfs: &V) -> bool {
    &&& after.dir@ == before.dir@
    &&& match step {
        LogStep::Append(payloads) => {
            &&& after.appended(vfs, before, held, runtime::numbered(payloads, before.next_sequence))
            &&& after.next_sequence == before.next_sequence + payloads.len()
            &&& vfs.journal() == held.journal()
        },
        LogStep::Flush => {
            &&& after.flushed(vfs, before)
            &&& after.next_sequence == before.next_sequence
            &&& vfs.state() == held.state()
            &&& vfs.journal().advances(held.journal(), held.state())
        },
    }
}

/// Whether the writers and the filesystems are those between the steps of a
/// run.
pub open spec fn is_run<V: Vfs>(steps: Seq<LogStep>, writers: Seq<LogWriter>, systems: Seq<V>) -> bool {
    &&& writers.len() == systems.len() == steps.len() + 1
    &&& forall|i: int|
        0 <= i < steps.len() ==> leads(
            #[trigger] steps[i],
            &writers[i],
            &systems[i],
            &writers[i + 1],
            &systems[i + 1],
        )
}

/// The payloads that the steps append, in order.
pub open spec fn payloads_of(steps: Seq<LogStep>) -> Seq<Seq<u8>>
    decreases steps.len(),
{
    if steps.len() == 0 {
        Seq::empty()
    } else {
        let before = payloads_of(steps.drop_last());
        match steps.last() {
            LogStep::Append(payloads) => before + payloads,
            LogStep::Flush => before,
        }
    }
}

/// Whether the log is what a run leaves: its segments hold the records, and
/// what is not durable is noted.
pub open spec fn log_is<V: Vfs>(writer: &LogWriter, vfs: &V, written: Seq<Seq<(u64, Seq<u8>)>>) -> bool {
    &&& holds_log(writer, vfs.state(), written)
    &&& notes_what_is_lost(writer, vfs.state(), vfs.journal(), written.len())
}

/// Whether the log holds the records, in at most that many segments.
pub open spec fn stores<V: Vfs>(writer: &LogWriter, vfs: &V, all: Seq<(u64, Seq<u8>)>, most: nat) -> bool {
    exists|segments: Seq<Seq<(u64, Seq<u8>)>>| is_stored(writer, vfs, all, most, segments)
}

/// Whether the log holds the records in those segments.
pub open spec fn is_stored<V: Vfs>(
    writer: &LogWriter,
    vfs: &V,
    all: Seq<(u64, Seq<u8>)>,
    most: nat,
    segments: Seq<Seq<(u64, Seq<u8>)>>,
) -> bool {
    &&& log_is(writer, vfs, segments)
    &&& segments.flatten() == all
    &&& segments.len() <= most
}

/// Whether the log holds the records, and all of them are durable.
pub open spec fn saves<V: Vfs>(writer: &LogWriter, vfs: &V, all: Seq<(u64, Seq<u8>)>) -> bool {
    exists|segments: Seq<Seq<(u64, Seq<u8>)>>| is_saved(writer, vfs, all, segments)
}

/// Whether the log holds the records in those segments, and all of them are
/// durable.
pub open spec fn is_saved<V: Vfs>(
    writer: &LogWriter,
    vfs: &V,
    all: Seq<(u64, Seq<u8>)>,
    segments: Seq<Seq<(u64, Seq<u8>)>>,
) -> bool {
    &&& log_is(writer, vfs, segments)
    &&& segments.flatten() == all
    &&& is_durable_log(writer.dir@, vfs.state(), vfs.journal(), segments)
}

/// A run of the writer leaves every payload in the log, once and in order,
/// under the sequence that follows the one before it. After a last flush all of
/// it is durable.
pub proof fn run_is_in_the_log<V: Vfs>(
    steps: Seq<LogStep>,
    writers: Seq<LogWriter>,
    systems: Seq<V>,
    written: Seq<Seq<(u64, Seq<u8>)>>,
) -> (segments: Seq<Seq<(u64, Seq<u8>)>>)
    requires
        is_run(steps, writers, systems),
        log_is(&writers[0], &systems[0], written),
        written.len() + steps.len() + 1 < u32::MAX,
        writers[0].next_sequence + payloads_of(steps).len() <= u64::MAX,
    ensures
        ({
            let last = steps.len() as int;
            let added = runtime::numbered(payloads_of(steps), writers[0].next_sequence);
            &&& log_is(&writers[last], &systems[last], segments)
            &&& segments.len() <= written.len() + steps.len()
            &&& segments.flatten() == written.flatten() + added
            &&& writers[last].dir@ == writers[0].dir@
            &&& writers[last].next_sequence == writers[0].next_sequence + payloads_of(steps).len()
            &&& steps.len() > 0 && steps.last() is Flush ==> is_durable_log(
                writers[0].dir@,
                systems[last].state(),
                systems[last].journal(),
                segments,
            )
        }),
    decreases steps.len(),
{
    let first = writers[0].next_sequence;
    if steps.len() == 0 {
        assert(written.flatten() + runtime::numbered(Seq::empty(), first) =~= written.flatten());
        written
    } else {
        let last = steps.len() - 1;
        let front = steps.drop_last();
        assert(leads(steps[last], &writers[last], &systems[last], &writers[last + 1], &systems[last + 1]));
        assert forall|i: int| 0 <= i < front.len() implies leads(
            #[trigger] front[i],
            &writers.drop_last()[i],
            &systems.drop_last()[i],
            &writers.drop_last()[i + 1],
            &systems.drop_last()[i + 1],
        ) by {
            assert(front[i] == steps[i]);
        }
        let reached = run_is_in_the_log(front, writers.drop_last(), systems.drop_last(), written);
        let before = &writers[last];
        match steps[last] {
            LogStep::Append(payloads) => {
                let batch = runtime::numbered(payloads, before.next_sequence);
                appended_batch_extends_the_log(
                    before,
                    &systems[last],
                    &writers[last + 1],
                    &systems[last + 1],
                    reached,
                    batch,
                );
                let earlier = payloads_of(front);
                let segments = extended(reached, batch, before.placement(batch).fresh);
                assert(runtime::numbered(earlier + payloads, first) =~= runtime::numbered(earlier, first) + batch);
                assert(segments.flatten() =~= written.flatten() + runtime::numbered(earlier + payloads, first));
                segments
            },
            LogStep::Flush => {
                flushed_log_is_durable(before, &systems[last], &writers[last + 1], &systems[last + 1], reached);
                reached
            },
        }
    }
}

/// The numbers of the segments of a log.
pub open spec fn numbers_to(count: nat) -> Seq<u64> {
    Seq::new(count, |i: int| (i + 1) as u64)
}

/// What a run left is recovered whole: recovery finds its segments, with the
/// sequences of their records, and cuts nothing off.
pub proof fn log_is_recovered(writer: &LogWriter, state: FsState, written: Seq<Seq<(u64, Seq<u8>)>>)
    requires
        holds_log(writer, state, written),
        records::follows(None, written.flatten()),
    ensures
        ({
            let dir = writer.dir@;
            let numbers = crate::wal::recovery::segment_numbers(state.names, dir);
            let all = written.flatten();
            &&& numbers == numbers_to(written.len())
            &&& recovery::recovered_directory(
                state,
                dir,
                numbers,
                recovery::empty_summary(),
            ) matches recovery::DirectoryRecovery::Recovered { summary, repair }
            &&& repair is Keep
            &&& summary.last_sequence == (if all.len() > 0 {
                Some(all.last().0)
            } else {
                None
            })
            &&& summary.last_segment_number == written.len()
            &&& summary.segments == Seq::new(
                written.len(),
                |i: int| recovery::recovered_segment(dir, (i + 1) as u64, written[i]),
            )
        }),
{
    let dir = writer.dir@;
    let numbers = numbers_to(written.len());
    assert(crate::wal::recovery::are_segment_numbers(state.names, dir, numbers)) by {
        assert forall|number: u64| #[trigger] numbers.contains(number) <==> number < 10_000_000_000
            && state.names.contains_key(segment_names::segment_path(dir, number as nat)) by {
            if numbers.contains(number) {
                let i = choose|i: int| 0 <= i < numbers.len() && numbers[i] == number;
                assert(holds_segment(dir, state, i, written[i]));
            }
            if 0 < number <= written.len() {
                assert(numbers[number - 1] == number);
            }
        }
    }
    crate::wal::recovery::segment_numbers_are(state.names, dir, numbers);
    assert forall|i: int| 0 <= i < numbers.len() implies {
        &&& (#[trigger] numbers[i]) <= u32::MAX
        &&& recovery::segment_contents(state, dir, numbers[i]) == records::segment_bytes(numbers[i], written[i])
    } by {
        assert(holds_segment(dir, state, i, written[i]));
    }
    recovery::written_directory_is_recovered(state, dir, numbers, written, recovery::empty_summary());
    let made = Seq::new(written.len(), |i: int| recovery::recovered_segment(dir, (i + 1) as u64, written[i]));
    assert(Seq::empty() + Seq::new(
        numbers.len(),
        |i: int| recovery::recovered_segment(dir, numbers[i], written[i]),
    ) =~= made);
}

} // verus!
