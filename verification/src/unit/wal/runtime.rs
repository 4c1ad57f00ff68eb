//! The writer of the sequenced log.

use vstd::prelude::*;
use crate::segment::envelope;
use crate::segment::envelope::{ALIGNMENT, FILE_HEADER_SIZE};
use crate::segment::error::SegmentErrorView;
use crate::segment::files;
use crate::segment_names;
use crate::unit::wal::error;
use crate::unit::wal::error::{WalError, WalErrorView};
use crate::unit::wal::history;
use crate::unit::wal::options;
use crate::unit::wal::options::WalOptions;
use crate::unit::wal::records;
use crate::vfs;
use crate::vfs::{FsState, OpenOptions, SyncJournal, Vfs, VfsFile};

verus! {

/// The segment that records are appended to.
pub struct ActiveSegment {
    pub number: u64,
    pub file: VfsFile,
    /// Where the next batch starts.
    pub offset: u64,
}

/// Numbers the records and appends them to segment files.
pub struct LogWriter {
    pub dir: String,
    pub max_segment_size: u64,
    pub next_sequence: u64,
    pub next_segment_number: u64,
    pub active: Option<ActiveSegment>,
    /// Files with records that are not durable yet.
    pub dirty_files: Vec<VfsFile>,
    /// A file was created and the directory not made durable since.
    pub directory_dirty: bool,
}

/// The numbers that records get.
pub open spec fn numbered(payloads: Seq<Seq<u8>>, first: u64) -> Seq<(u64, Seq<u8>)> {
    payloads.map(|i: int, payload: Seq<u8>| ((first + i) as u64, payload))
}

/// A record that waits to be appended.
#[derive(Debug)]
pub struct AppendRequest {
    pub payload: Vec<u8>,
    /// The caller waits until the record is durable.
    pub sync: bool,
}

/// What the requests hold.
pub open spec fn payloads_of(batch: Seq<AppendRequest>) -> Seq<Seq<u8>> {
    batch.map_values(|request: AppendRequest| request.payload@)
}

/// Where the writer appends a batch of records.
pub struct Placement {
    /// The segment is a new one.
    pub fresh: bool,
    pub number: u64,
    pub start: int,
}

impl LogWriter {
    /// A writer of a log without segments.
    pub fn new(options: &WalOptions) -> (writer: LogWriter)
        ensures
            writer.dir@ == options.dir@,
            writer.max_segment_size == options.max_segment_size,
            writer.next_sequence == 0,
            writer.next_segment_number == 1,
            writer.active is None,
            writer.dirty_files@.len() == 0,
            !writer.directory_dirty,
    {
        LogWriter {
            dir: options.dir.clone(),
            max_segment_size: options.max_segment_size,
            next_sequence: 0,
            next_segment_number: 1,
            active: None,
            dirty_files: Vec::new(),
            directory_dirty: false,
        }
    }

    /// The files of the writer are those of the filesystem, and the next batch
    /// starts at a page inside the active one.
    pub open spec fn valid<V: Vfs>(&self, vfs: &V) -> bool {
        &&& self.active matches Some(active) ==> {
            &&& vfs.state().holds(&active.file)
            &&& FILE_HEADER_SIZE <= active.offset <= vfs.state().contents(&active.file).len()
        }
        &&& forall|i: int| 0 <= i < self.dirty_files@.len() ==> vfs.state().holds(&#[trigger] self.dirty_files@[i])
    }

    /// Nothing stands after where the next batch starts.
    pub open spec fn settled<V: Vfs>(&self, vfs: &V) -> bool {
        self.active matches Some(active) ==> active.offset == vfs.state().contents(&active.file).len()
    }

    /// Only what is appended to may differ.
    pub open spec fn keeps(&self, before: &LogWriter) -> bool {
        &&& self.dir@ == before.dir@
        &&& self.max_segment_size == before.max_segment_size
        &&& self.next_sequence == before.next_sequence
    }

    /// Where a batch starts at most.
    pub open spec fn reach(&self) -> int {
        match self.active {
            Some(active) => active.offset as int,
            None => FILE_HEADER_SIZE as int,
        }
    }

    /// Whether the active segment takes no more than it holds, so that a batch
    /// goes to a new one.
    pub open spec fn rotates(&self, batch: Seq<(u64, Seq<u8>)>) -> bool {
        &&& self.active matches Some(active)
        &&& active.offset > FILE_HEADER_SIZE
        &&& active.offset + records::batch_bytes(active.number, active.offset as int, batch).len() > self.max_segment_size
    }

    /// Where a batch goes.
    pub open spec fn placement(&self, batch: Seq<(u64, Seq<u8>)>) -> Placement {
        match self.active {
            Some(active) => if self.rotates(batch) {
                Placement { fresh: true, number: self.next_segment_number, start: FILE_HEADER_SIZE as int }
            } else {
                Placement { fresh: false, number: active.number, start: active.offset as int }
            },
            None => Placement { fresh: true, number: self.next_segment_number, start: FILE_HEADER_SIZE as int },
        }
    }

    /// Gives each request the next sequence.
    pub fn assign_records(&mut self, batch: &Vec<AppendRequest>) -> (assigned: Vec<(u64, Vec<u8>)>)
        requires
            old(self).next_sequence + batch@.len() <= u64::MAX,
        ensures
            records::record_views(assigned@) == numbered(payloads_of(batch@), old(self).next_sequence),
            *final(self) == (LogWriter {
                next_sequence: (old(self).next_sequence + batch@.len()) as u64,
                ..*old(self)
            }),
    {
        let ghost first = self.next_sequence;
        let ghost wanted = numbered(payloads_of(batch@), first);
        let mut assigned: Vec<(u64, Vec<u8>)> = Vec::new();
        let mut at: usize = 0;
        while at < batch.len()
            invariant
                at <= batch@.len(),
                first == old(self).next_sequence,
                first + batch@.len() <= u64::MAX,
                wanted == numbered(payloads_of(batch@), first),
                *self == (LogWriter { next_sequence: (first + at) as u64, ..*old(self) }),
                records::record_views(assigned@) == wanted.take(at as int),
            decreases batch@.len() - at,
        {
            let payload: Vec<u8> = crate::bytestr::copy_range(&batch[at].payload, 0, batch[at].payload.len());
            assert(payload@ =~= batch@[at as int].payload@);
            let ghost before = records::record_views(assigned@);
            assigned.push((self.next_sequence, payload));
            proof {
                assert(wanted[at as int] == (self.next_sequence, payload@));
                assert(records::record_views(assigned@) =~= before.push((self.next_sequence, payload@)));
                assert(wanted.take(at + 1) =~= wanted.take(at as int).push(wanted[at as int]));
            }
            self.next_sequence = self.next_sequence + 1;
            at += 1;
        }
        assert(wanted.take(at as int) =~= wanted);
        assigned
    }
}

/// What is reported when no segment number is left.
pub open spec fn numbers_exhausted() -> WalErrorView {
    WalErrorView::Worker("segment number exhausted"@)
}

/// Creates a segment file with its header.
pub fn create_segment<V: Vfs>(vfs: &mut V, dir: &str, number: u64) -> (result: Result<VfsFile, WalError>)
    ensures
        final(vfs).dependable() == old(vfs).dependable(),
        final(vfs).journal() == old(vfs).journal(),
        final(vfs).state().keeps(old(vfs).state()),
        ({
            let path = segment_names::segment_path(dir@, number as nat);
            let header = envelope::file_header(number, ALIGNMENT as u32);
            match result {
                Ok(file) => {
                    &&& !old(vfs).state().names.contains_key(path)
                    &&& !old(vfs).state().data.contains_key(file.id)
                    &&& file.path@ == path
                    &&& header.len() == FILE_HEADER_SIZE
                    &&& final(vfs).state() == old(vfs).state().with_file(path, file.id).with_data(file.id, header)
                },
                Err(error) => error is Io && (!old(vfs).dependable() || old(vfs).state().names.contains_key(path)),
            }
        }),
{
    let path: String = files::segment_path(dir, number);
    let header: Vec<u8> = match envelope::encode_file_header(number, ALIGNMENT) {
        Ok(header) => header,
        Err(error) => {
            return Err(WalError::segment(error));
        },
    };
    proof {
        envelope::header_round_trip(number, ALIGNMENT, Seq::empty(), true);
    }
    let file: VfsFile = match vfs.open(path.as_str(), OpenOptions::CreateNew) {
        Ok(file) => file,
        Err(error) => {
            return Err(WalError::io(error));
        },
    };
    let ghost created = vfs.state();
    match vfs.append(&file, header.as_slice()) {
        Ok(position) => {
            proof {
                let written = created.with_data(file.id, header@);
                assert(vfs.state().contents(&file) =~= header@);
                assert(vfs.state().data =~= written.data);
                assert(vfs.state() =~= written);
            }
            Ok(file)
        },
        Err(error) => Err(WalError::io(error)),
    }
}

/// The path of a segment of the writer.
pub open spec fn path_of(writer: &LogWriter, number: u64) -> Seq<char> {
    segment_names::segment_path(writer.dir@, number as nat)
}

/// The filesystem with a new segment file that holds its header and `bytes`.
pub open spec fn with_segment(state: FsState, path: Seq<char>, id: u64, number: u64, bytes: Seq<u8>) -> FsState {
    state.with_file(path, id).with_data(id, envelope::file_header(number, ALIGNMENT as u32) + bytes)
}

impl LogWriter {
    /// Creates a segment if none is active.
    fn ensure_active_segment<V: Vfs>(&mut self, vfs: &mut V) -> (result: Result<(), WalError>)
        requires
            old(self).valid(old(vfs)),
        ensures
            final(self).valid(final(vfs)),
            final(self).keeps(old(self)),
            final(self).dirty_files == old(self).dirty_files,
            final(vfs).dependable() == old(vfs).dependable(),
            final(vfs).journal() == old(vfs).journal(),
            final(vfs).state().keeps(old(vfs).state()),
            old(self).active is Some ==> {
                &&& result is Ok
                &&& *final(self) == *old(self)
                &&& final(vfs).state() == old(vfs).state()
            },
            old(self).active is None ==> {
                let number = old(self).next_segment_number;
                let path = path_of(old(self), number);
                match result {
                    Ok(()) => {
                        &&& number < u64::MAX
                        &&& !old(vfs).state().names.contains_key(path)
                        &&& *final(self) == (LogWriter {
                            active: final(self).active,
                            next_segment_number: (number + 1) as u64,
                            directory_dirty: true,
                            ..*old(self)
                        })
                        &&& final(self).active matches Some(active)
                        &&& active.number == number
                        &&& active.offset == FILE_HEADER_SIZE
                        &&& active.file.path@ == path
                        &&& !old(vfs).state().data.contains_key(active.file.id)
                        &&& final(vfs).state() == with_segment(
                            old(vfs).state(),
                            path,
                            active.file.id,
                            number,
                            Seq::empty(),
                        )
                        &&& final(vfs).state().contents(&active.file).len() == FILE_HEADER_SIZE
                    },
                    Err(error) => {
                        &&& *final(self) == *old(self)
                        &&& {
                            ||| error is Io && (!old(vfs).dependable() || old(vfs).state().names.contains_key(path))
                            ||| error@ == numbers_exhausted() && number == u64::MAX
                        }
                    },
                }
            },
    {
        if self.active.is_some() {
            return Ok(());
        }
        let number: u64 = self.next_segment_number;
        let ghost before = vfs.state();
        let file: VfsFile = match create_segment(vfs, self.dir.as_str(), number) {
            Ok(file) => file,
            Err(error) => {
                return Err(error);
            },
        };
        proof {
            let header = envelope::file_header(number, ALIGNMENT as u32);
            assert(header + Seq::<u8>::empty() =~= header);
        }
        let next: u64 = match number.checked_add(1) {
            Some(next) => next,
            None => {
                return Err(WalError::Worker(String::from_str("segment number exhausted")));
            },
        };
        self.next_segment_number = next;
        self.directory_dirty = true;
        self.active = Some(ActiveSegment { number, file, offset: FILE_HEADER_SIZE as u64 });
        Ok(())
    }

    /// Why a batch cannot be appended, whatever the filesystem does.
    pub open spec fn refusal(&self, batch: Seq<(u64, Seq<u8>)>) -> Option<WalErrorView> {
        let place = self.placement(batch);
        if self.active matches Some(active) && active.number > u32::MAX {
            Some(number_too_large(self.active->0.number))
        } else if place.fresh && place.number == u64::MAX {
            Some(numbers_exhausted())
        } else if place.number > u32::MAX {
            Some(number_too_large(place.number))
        } else {
            None
        }
    }

    /// The filesystem takes a batch.
    pub open spec fn welcome<V: Vfs>(&self, vfs: &V, batch: Seq<(u64, Seq<u8>)>) -> bool {
        let place = self.placement(batch);
        &&& vfs.dependable()
        &&& self.settled(vfs)
        &&& place.fresh ==> !vfs.state().names.contains_key(path_of(self, place.number))
    }

    /// What a batch that could not be appended leaves. What was there before is
    /// still there, but for what follows the records of the active segment.
    pub open spec fn failed<V: Vfs>(
        &self,
        vfs: &V,
        before: &LogWriter,
        held: &V,
        batch: Seq<(u64, Seq<u8>)>,
        error: WalErrorView,
    ) -> bool {
        let place = before.placement(batch);
        &&& before.refusal(batch) == Some(error) || error is Io && !before.welcome(held, batch)
        &&& if before.active matches Some(full) && full.number > u32::MAX {
            &&& vfs.state() == held.state()
            &&& *self == *before
        } else if place.fresh {
            &&& vfs.state().keeps(held.state())
            &&& match self.active {
                None => *self == (LogWriter { active: None, ..*before }),
                Some(active) => {
                    &&& *self == (LogWriter {
                        active: self.active,
                        next_segment_number: (before.next_segment_number + 1) as u64,
                        directory_dirty: true,
                        ..*before
                    })
                    &&& before.next_segment_number < u64::MAX
                    &&& active.number == place.number
                    &&& active.offset == FILE_HEADER_SIZE
                    &&& active.file.path@ == path_of(before, place.number)
                    &&& !held.state().names.contains_key(active.file.path@)
                    &&& !held.state().data.contains_key(active.file.id)
                    &&& vfs.state().same_but(
                        held.state().with_file(active.file.path@, active.file.id),
                        active.file.id,
                    )
                },
            }
        } else {
            &&& vfs.state().same_but(held.state(), before.active->0.file.id)
            &&& *self == *before
        }
    }

    /// What appending a batch does to the writer and to the files.
    pub open spec fn appended<V: Vfs>(
        &self,
        vfs: &V,
        before: &LogWriter,
        held: &V,
        batch: Seq<(u64, Seq<u8>)>,
    ) -> bool {
        let place = before.placement(batch);
        let bytes = records::batch_bytes(place.number, place.start, batch);
        &&& before.refusal(batch) is None
        &&& self.active matches Some(active)
        &&& active.number == place.number
        &&& active.offset == place.start + bytes.len()
        &&& if place.fresh {
            &&& self.next_segment_number == before.next_segment_number + 1
            &&& self.directory_dirty
            &&& active.file.path@ == path_of(before, place.number)
            &&& !held.state().names.contains_key(active.file.path@)
            &&& !held.state().data.contains_key(active.file.id)
            &&& vfs.state() == with_segment(
                held.state(),
                active.file.path@,
                active.file.id,
                place.number,
                bytes,
            )
        } else {
            &&& self.next_segment_number == before.next_segment_number
            &&& self.directory_dirty == before.directory_dirty
            &&& active.file == before.active->0.file
            &&& vfs.state() == held.state().with_data(
                active.file.id,
                vfs::overwritten(held.state().contents(&active.file), place.start, bytes),
            )
        }
        &&& notes(self.dirty_files@, before.dirty_files@, active.file)
        &&& before.settled(held) ==> self.settled(vfs)
    }

    /// Appends a batch of records to the active segment, or to a new one where
    /// the active one is full.
    pub fn write_records<V: Vfs>(&mut self, vfs: &mut V, batch: &Vec<(u64, Vec<u8>)>) -> (result: Result<(), WalError>)
        requires
            old(self).valid(old(vfs)),
            old(self).reach() + records::batch_bound(records::record_views(batch@)) <= usize::MAX,
        ensures
            final(self).valid(final(vfs)),
            final(self).keeps(old(self)),
            final(vfs).dependable() == old(vfs).dependable(),
            final(vfs).journal() == old(vfs).journal(),
            ({
                let written = records::record_views(batch@);
                match result {
                    Ok(()) => final(self).appended(final(vfs), old(self), old(vfs), written),
                    Err(error) => final(self).failed(final(vfs), old(self), old(vfs), written, error@),
                }
            }),
    {
        let ghost written = records::record_views(batch@);
        let ghost first = *self;
        let ghost state = vfs.state();
        match self.ensure_active_segment(vfs) {
            Ok(()) => {},
            Err(error) => {
                return Err(error);
            },
        }
        let (number, offset): (u64, u64) = self.active_place();
        let mut encoded: Vec<u8> = match records::encode_batch(number, offset, batch) {
            Ok(encoded) => encoded,
            Err(error) => {
                assert(error@ == number_too_large(number));
                proof {
                    if first.placement(written).fresh && self.active is Some && self.active != first.active {
                        let active = self.active->0;
                        let named = state.with_file(active.file.path@, active.file.id);
                        assert(vfs.state().data.dom() =~= named.data.dom());
                    }
                }
                return Err(error);
            },
        };
        proof {
            records::batch_is_bounded(number, offset as int, written);
        }
        let ghost created = vfs.state();
        if offset > FILE_HEADER_SIZE as u64 && offset.saturating_add(encoded.len() as u64) > self.max_segment_size {
            self.active = None;
            match self.ensure_active_segment(vfs) {
                Ok(()) => {},
                Err(error) => {
                    return Err(error);
                },
            }
            let (fresh_number, fresh_offset): (u64, u64) = self.active_place();
            proof {
                records::batch_is_bounded(fresh_number, fresh_offset as int, written);
            }
            encoded = match records::encode_batch(fresh_number, fresh_offset, batch) {
                Ok(encoded) => encoded,
                Err(error) => {
                    assert(error@ == number_too_large(fresh_number));
                    proof {
                        if first.placement(written).fresh && self.active is Some && self.active != first.active {
                            let active = self.active->0;
                            let named = state.with_file(active.file.path@, active.file.id);
                            assert(vfs.state().data.dom() =~= named.data.dom());
                        }
                    }
                    return Err(error);
                },
            };
        }
        let ghost place = first.placement(written);
        let ghost bytes = encoded@;
        let (place_number, start): (u64, u64) = self.active_place();
        proof {
            assert(place_number == place.number && start == place.start);
            assert(bytes == records::batch_bytes(place.number, place.start, written));
        }
        let length: usize = encoded.len();
        let ghost prior = vfs.state();
        match self.append_encoded(vfs, &encoded) {
            Ok(()) => {},
            Err(error) => {
                proof {
                    if first.placement(written).fresh && self.active is Some && self.active != first.active {
                        let active = self.active->0;
                        let named = state.with_file(active.file.path@, active.file.id);
                        assert(vfs.state().data.dom() =~= named.data.dom());
                    }
                }
                return Err(error);
            },
        }
        proof {
            let active = self.active->0;
            if place.fresh {
                let header = envelope::file_header(place.number, ALIGNMENT as u32);
                assert(prior.data[active.file.id] =~= header);
                assert(vfs::overwritten(header, start as int, bytes) =~= header + bytes);
                let whole = with_segment(state, active.file.path@, active.file.id, place.number, bytes);
                assert(vfs.state().data =~= whole.data);
                assert(vfs.state() =~= whole);
            }
        }
        Ok(())
    }

    /// Appends encoded records to the active segment.
    fn append_encoded<V: Vfs>(&mut self, vfs: &mut V, encoded: &Vec<u8>) -> (result: Result<(), WalError>)
        requires
            old(self).valid(old(vfs)),
            old(self).active matches Some(active) && active.offset + encoded@.len() <= usize::MAX,
        ensures
            final(self).valid(final(vfs)),
            final(self).keeps(old(self)),
            final(self).next_segment_number == old(self).next_segment_number,
            final(self).directory_dirty == old(self).directory_dirty,
            final(vfs).dependable() == old(vfs).dependable(),
            final(vfs).journal() == old(vfs).journal(),
            ({
                let before = old(self).active->0;
                &&& final(self).active matches Some(after)
                &&& after.number == before.number
                &&& after.file == before.file
                &&& match result {
                    Ok(()) => {
                        &&& after.offset == before.offset + encoded@.len()
                        &&& final(vfs).state() == old(vfs).state().with_data(
                            before.file.id,
                            vfs::overwritten(
                                old(vfs).state().contents(&before.file),
                                before.offset as int,
                                encoded@,
                            ),
                        )
                        &&& notes(final(self).dirty_files@, old(self).dirty_files@, before.file)
                        &&& old(self).settled(old(vfs)) ==> final(self).settled(final(vfs))
                    },
                    Err(error) => {
                        &&& error is Io
                        &&& *final(self) == *old(self)
                        &&& final(vfs).state().same_but(old(vfs).state(), before.file.id)
                        &&& !(old(vfs).dependable() && old(self).settled(old(vfs)))
                    },
                }
            }),
    {
        let ghost before = self.active->0;
        let ghost state = vfs.state();
        let (number, offset): (u64, u64) = self.active_place();
        let file: VfsFile = match &self.active {
            Some(active) => active.file.clone(),
            None => {
                return Err(WalError::Io(String::new()));
            },
        };
        match vfs.append(&file, encoded.as_slice()) {
            Ok(position) => {
                if position != offset {
                    return Err(WalError::Io(String::from_str("segment file was written elsewhere")));
                }
            },
            Err(error) => {
                return Err(WalError::io(error));
            },
        }
        proof {
            let bytes = vfs::overwritten(state.contents(&before.file), offset as int, encoded@);
            let after = state.with_data(file.id, bytes);
            assert(vfs.state().data =~= after.data);
            assert(vfs.state() =~= after);
        }
        self.advance(offset + encoded.len() as u64);
        self.mark_dirty(file);
        proof {
            let dirty = old(self).dirty_files@;
            assert forall|i: int| 0 <= i < self.dirty_files@.len() implies vfs.state().holds(
                &#[trigger] self.dirty_files@[i],
            ) by {
                if i < dirty.len() {
                    assert(self.dirty_files@[i] == self.dirty_files@.take(dirty.len() as int)[i]);
                    assert(self.dirty_files@.take(dirty.len() as int) =~= dirty);
                }
            }
        }
        Ok(())
    }

    /// The next batch starts at `offset` of the active segment.
    fn advance(&mut self, offset: u64)
        requires
            old(self).active is Some,
        ensures
            *final(self) == (LogWriter {
                active: Some(ActiveSegment { offset, ..old(self).active->0 }),
                ..*old(self)
            }),
    {
        match self.active.take() {
            Some(active) => {
                self.active = Some(ActiveSegment { number: active.number, file: active.file, offset });
            },
            None => {},
        }
    }

    /// Remembers that a file holds records that are not durable.
    fn mark_dirty(&mut self, file: VfsFile)
        ensures
            *final(self) == (LogWriter { dirty_files: final(self).dirty_files, ..*old(self) }),
            notes(final(self).dirty_files@, old(self).dirty_files@, file),
    {
        let mut at: usize = 0;
        while at < self.dirty_files.len()
            invariant
                at <= self.dirty_files@.len(),
                *self == *old(self),
                forall|i: int| 0 <= i < at ==> (#[trigger] self.dirty_files@[i]).id != file.id,
            decreases self.dirty_files@.len() - at,
        {
            if self.dirty_files[at].id == file.id {
                assert(has_file(self.dirty_files@, file.id));
                return;
            }
            at += 1;
        }
        self.dirty_files.push(file);
        assert(self.dirty_files@.drop_last() =~= old(self).dirty_files@);
    }

    /// The number of the active segment, and where the next batch starts.
    fn active_place(&self) -> (place: (u64, u64))
        requires
            self.active is Some,
        ensures
            place == (self.active->0.number, self.active->0.offset),
    {
        match &self.active {
            Some(active) => (active.number, active.offset),
            None => (0, 0),
        }
    }
}

/// Whether one of the files has the given identity.
pub open spec fn has_file(files: Seq<VfsFile>, id: u64) -> bool {
    exists|i: int| 0 <= i < files.len() && (#[trigger] files[i]).id == id
}

/// Whether a file was added to those that are not durable, unless it is one of
/// them.
pub open spec fn notes(after: Seq<VfsFile>, before: Seq<VfsFile>, file: VfsFile) -> bool {
    if has_file(before, file.id) {
        after == before
    } else {
        &&& after.len() == before.len() + 1
        &&& after.drop_last() == before
        &&& after.last().id == file.id
        &&& after.last().path@ == file.path@
    }
}

/// What is reported of a segment number that the format cannot hold.
pub open spec fn number_too_large(number: u64) -> WalErrorView {
    error::from_segment(SegmentErrorView::SegmentNumberTooLarge(number))
}

/// The contents of a file are durable.
pub open spec fn is_durable(journal: SyncJournal, state: FsState, file: VfsFile) -> bool {
    &&& journal.files.contains_key(file.id)
    &&& journal.files[file.id] == state.data[file.id]
}

/// The contents of one of the files, one with the path, are durable.
pub open spec fn path_is_durable(
    journal: SyncJournal,
    state: FsState,
    files: Seq<VfsFile>,
    path: Seq<char>,
) -> bool {
    exists|j: int| 0 <= j < files.len() && (#[trigger] files[j]).path@ == path && is_durable(journal, state, files[j])
}

/// The contents of the first files are durable, path by path.
pub open spec fn are_durable(journal: SyncJournal, state: FsState, files: Seq<VfsFile>, count: int) -> bool {
    forall|i: int| 0 <= i < count ==> path_is_durable(journal, state, files, (#[trigger] files[i]).path@)
}

proof fn durable_files_stay(
    before: SyncJournal,
    after: SyncJournal,
    state: FsState,
    files: Seq<VfsFile>,
    count: int,
    id: u64,
)
    requires
        0 <= count <= files.len(),
        are_durable(before, state, files, count),
        after.files == before.files || after.files == before.files.insert(id, state.data[id]),
    ensures
        are_durable(after, state, files, count),
{
    assert forall|i: int| 0 <= i < count implies path_is_durable(after, state, files, (#[trigger] files[i]).path@) by {
        assert(path_is_durable(before, state, files, files[i].path@));
        let j = choose|j: int|
            0 <= j < files.len() && (#[trigger] files[j]).path@ == files[i].path@ && is_durable(before, state, files[j]);
        assert(is_durable(after, state, files[j]));
    }
}

/// Whether one of the first files has the path.
fn has_path(files: &Vec<VfsFile>, count: usize, path: &String) -> (present: bool)
    requires
        count <= files@.len(),
    ensures
        present == exists|i: int| 0 <= i < count && (#[trigger] files@[i]).path@ == path@,
{
    let mut at: usize = 0;
    while at < count
        invariant
            at <= count <= files@.len(),
            forall|i: int| 0 <= i < at ==> (#[trigger] files@[i]).path@ != path@,
        decreases count - at,
    {
        if files[at].path == *path {
            assert(files@[at as int].path@ == path@);
            return true;
        }
        at += 1;
    }
    false
}

/// Makes files durable, each path once, and the directory where `sync_dir`
/// holds.
pub fn perform_sync<V: Vfs>(vfs: &mut V, files: &Vec<VfsFile>, sync_dir: bool, dir: &str) -> (result: Result<
    (),
    WalError,
>)
    requires
        forall|i: int| 0 <= i < files@.len() ==> old(vfs).state().holds(&#[trigger] files@[i]),
    ensures
        final(vfs).state() == old(vfs).state(),
        final(vfs).dependable() == old(vfs).dependable(),
        final(vfs).journal().advances(old(vfs).journal(), old(vfs).state()),
        result is Ok ==> {
            &&& are_durable(final(vfs).journal(), old(vfs).state(), files@, files@.len() as int)
            &&& sync_dir ==> final(vfs).journal().names.contains_key(dir@) && final(vfs).journal().names[dir@] == old(
                vfs,
            ).state().names
        },
        result matches Err(error) ==> error is Io,
        old(vfs).dependable() && (sync_dir ==> old(vfs).state().directories.contains(dir@)) ==> result is Ok,
{
    let mut at: usize = 0;
    while at < files.len()
        invariant
            at <= files@.len(),
            vfs.state() == old(vfs).state(),
            vfs.dependable() == old(vfs).dependable(),
            vfs.journal().advances(old(vfs).journal(), old(vfs).state()),
            forall|i: int| 0 <= i < files@.len() ==> vfs.state().holds(&#[trigger] files@[i]),
            are_durable(vfs.journal(), vfs.state(), files@, at as int),
        decreases files@.len() - at,
    {
        let ghost before = vfs.journal();
        if !has_path(files, at, &files[at].path) {
            match vfs.sync(&files[at]) {
                Ok(()) => {},
                Err(error) => {
                    return Err(WalError::io(error));
                },
            }
            proof {
                durable_files_stay(before, vfs.journal(), vfs.state(), files@, at as int, files@[at as int].id);
                assert(is_durable(vfs.journal(), vfs.state(), files@[at as int]));
                assert(path_is_durable(vfs.journal(), vfs.state(), files@, files@[at as int].path@));
            }
        } else {
            proof {
                let i = choose|i: int| 0 <= i < at && (#[trigger] files@[i]).path@ == files@[at as int].path@;
                assert(path_is_durable(vfs.journal(), vfs.state(), files@, files@[i].path@));
            }
        }
        at += 1;
    }
    let ghost before = vfs.journal();
    if sync_dir {
        match vfs.sync_dir(dir) {
            Ok(()) => {},
            Err(error) => {
                return Err(WalError::io(error));
            },
        }
        proof {
            durable_files_stay(before, vfs.journal(), vfs.state(), files@, files@.len() as int, 0);
        }
    }
    Ok(())
}

/// How far a batch of appends has come.
#[derive(Debug, Clone, Copy, PartialEq, Eq, Structural)]
pub enum BatchPhase {
    Writing,
    Syncing,
    Finished,
}

/// A batch of appends on its way to the segment files.
pub struct BatchRun {
    pub assigned: Vec<(u64, Vec<u8>)>,
    /// Which of the callers wait until their record is durable.
    pub syncs: Vec<bool>,
    pub phase: BatchPhase,
}

/// What is to be done after a step of a batch.
pub enum BatchAction {
    /// The requests with these places are answered with these sequences.
    Answer(Vec<(usize, u64)>),
    /// The step failed and is tried again after a while.
    Retry(WalError),
    /// The log is closing: the requests that were not answered stay without
    /// an answer.
    Abandon,
}

/// The places and sequences of the requests that wait, or do not wait, until
/// their record is durable.
pub open spec fn answers(assigned: Seq<(u64, Seq<u8>)>, syncs: Seq<bool>, waiting: bool) -> Seq<(usize, u64)>
    decreases syncs.len(),
{
    if syncs.len() == 0 {
        Seq::empty()
    } else {
        let at = syncs.len() - 1;
        let rest = answers(assigned, syncs.drop_last(), waiting);
        if syncs.last() == waiting {
            rest.push((at as usize, assigned[at].0))
        } else {
            rest
        }
    }
}

impl BatchRun {
    pub open spec fn valid(&self) -> bool {
        self.syncs@.len() == self.assigned@.len()
    }

    /// The records of the batch.
    pub open spec fn records(&self) -> Seq<(u64, Seq<u8>)> {
        records::record_views(self.assigned@)
    }

    fn answer_all(&self, waiting: bool) -> (found: Vec<(usize, u64)>)
        requires
            self.valid(),
        ensures
            found@ == answers(self.records(), self.syncs@, waiting),
    {
        let mut found: Vec<(usize, u64)> = Vec::new();
        let mut at: usize = 0;
        assert(self.syncs@.take(0) =~= Seq::<bool>::empty());
        while at < self.syncs.len()
            invariant
                self.valid(),
                at <= self.syncs@.len(),
                found@ == answers(self.records(), self.syncs@.take(at as int), waiting),
            decreases self.syncs@.len() - at,
        {
            proof {
                assert(self.syncs@.take(at + 1).drop_last() =~= self.syncs@.take(at as int));
                assert(self.syncs@.take(at + 1).last() == self.syncs@[at as int]);
                assert(self.records()[at as int].0 == self.assigned@[at as int].0);
            }
            if self.syncs[at] == waiting {
                found.push((at, self.assigned[at].0));
            }
            at += 1;
        }
        assert(self.syncs@.take(self.syncs@.len() as int) =~= self.syncs@);
        found
    }

    /// Takes the batch one step further. A step that fails is tried again
    /// unless the log is closing.
    pub fn step<V: Vfs>(&mut self, writer: &mut LogWriter, vfs: &mut V, closing: bool) -> (action: BatchAction)
        requires
            old(self).valid(),
            old(self).phase != BatchPhase::Finished,
            old(writer).valid(old(vfs)),
            old(self).phase == BatchPhase::Writing ==> old(writer).reach() + records::batch_bound(old(self).records())
                <= usize::MAX,
        ensures
            final(self).valid(),
            final(self).assigned == old(self).assigned,
            final(self).syncs == old(self).syncs,
            final(writer).valid(final(vfs)),
            final(writer).keeps(old(writer)),
            final(vfs).dependable() == old(vfs).dependable(),
            final(self).phase != BatchPhase::Finished ==> final(self).phase == old(self).phase || action is Answer,
            match old(self).phase {
                BatchPhase::Writing => match action {
                    BatchAction::Answer(answered) => {
                        &&& final(writer).appended(final(vfs), old(writer), old(vfs), old(self).records())
                        &&& final(vfs).journal() == old(vfs).journal()
                        &&& answered@ == answers(old(self).records(), old(self).syncs@, false)
                        &&& final(self).phase == (if answers(old(self).records(), old(self).syncs@, true).len() == 0 {
                            BatchPhase::Finished
                        } else {
                            BatchPhase::Syncing
                        })
                    },
                    BatchAction::Retry(error) => {
                        &&& !closing
                        &&& final(self).phase == BatchPhase::Writing
                        &&& final(writer).failed(final(vfs), old(writer), old(vfs), old(self).records(), error@)
                        &&& final(vfs).journal() == old(vfs).journal()
                        &&& final(writer).reach() <= old(writer).reach()
                    },
                    BatchAction::Abandon => {
                        &&& closing
                        &&& final(self).phase == BatchPhase::Finished
                        &&& final(vfs).journal() == old(vfs).journal()
                        &&& exists|error: WalErrorView| #[trigger]
                            final(writer).failed(final(vfs), old(writer), old(vfs), old(self).records(), error)
                    },
                },
                _ => {
                    &&& final(vfs).state() == old(vfs).state()
                    &&& final(vfs).journal().advances(old(vfs).journal(), old(vfs).state())
                    &&& match action {
                        BatchAction::Answer(answered) => {
                            &&& answered@ == answers(old(self).records(), old(self).syncs@, true)
                            &&& final(self).phase == BatchPhase::Finished
                            &&& final(writer).flushed(final(vfs), old(writer))
                        },
                        BatchAction::Retry(_) => {
                            &&& !closing
                            &&& *final(writer) == *old(writer)
                            &&& final(self).phase == BatchPhase::Syncing
                        },
                        BatchAction::Abandon => {
                            &&& closing
                            &&& *final(writer) == *old(writer)
                            &&& final(self).phase == BatchPhase::Finished
                        },
                    }
                    &&& old(vfs).dependable() && (old(writer).directory_dirty ==> old(vfs).state().directories.contains(
                        old(writer).dir@,
                    )) ==> action is Answer
                },
            },
    {
        match self.phase {
            BatchPhase::Writing => match writer.write_records(vfs, &self.assigned) {
                Ok(()) => {
                    let answered: Vec<(usize, u64)> = self.answer_all(false);
                    let waiting: Vec<(usize, u64)> = self.answer_all(true);
                    if waiting.len() == 0 {
                        self.phase = BatchPhase::Finished;
                    } else {
                        self.phase = BatchPhase::Syncing;
                    }
                    BatchAction::Answer(answered)
                },
                Err(error) => if closing {
                    self.phase = BatchPhase::Finished;
                    BatchAction::Abandon
                } else {
                    BatchAction::Retry(error)
                },
            },
            _ => match writer.flush(vfs) {
                Ok(()) => {
                    self.phase = BatchPhase::Finished;
                    BatchAction::Answer(self.answer_all(true))
                },
                Err(error) => if closing {
                    self.phase = BatchPhase::Finished;
                    BatchAction::Abandon
                } else {
                    BatchAction::Retry(error)
                },
            },
        }
    }
}

impl LogWriter {
    /// All records that were appended are durable.
    pub open spec fn flushed<V: Vfs>(&self, vfs: &V, before: &LogWriter) -> bool {
        &&& self.dirty_files@.len() == 0
        &&& !self.directory_dirty
        &&& self.active == before.active
        &&& self.next_segment_number == before.next_segment_number
        &&& are_durable(vfs.journal(), vfs.state(), before.dirty_files@, before.dirty_files@.len() as int)
        &&& before.directory_dirty ==> vfs.journal().names.contains_key(before.dir@)
            && vfs.journal().names[before.dir@] == vfs.state().names
    }

    /// Makes all records that were appended durable.
    pub fn flush<V: Vfs>(&mut self, vfs: &mut V) -> (result: Result<(), WalError>)
        requires
            old(self).valid(old(vfs)),
        ensures
            final(self).valid(final(vfs)),
            final(self).keeps(old(self)),
            final(vfs).state() == old(vfs).state(),
            final(vfs).dependable() == old(vfs).dependable(),
            final(vfs).journal().advances(old(vfs).journal(), old(vfs).state()),
            match result {
                Ok(()) => final(self).flushed(final(vfs), old(self)),
                Err(error) => error is Io && *final(self) == *old(self),
            },
            old(vfs).dependable() && (old(self).directory_dirty ==> old(vfs).state().directories.contains(
                old(self).dir@,
            )) ==> result is Ok,
    {
        match perform_sync(vfs, &self.dirty_files, self.directory_dirty, self.dir.as_str()) {
            Ok(()) => {},
            Err(error) => {
                return Err(error);
            },
        }
        self.dirty_files = Vec::new();
        self.directory_dirty = false;
        Ok(())
    }
}

/// What the writer waits for.
pub enum WriterEvent {
    /// Requests from the queue; none when the queue is closed and empty.
    Batch(Vec<AppendRequest>),
    /// The log is closing.
    Cancelled,
}

/// What the writer does next.
pub enum WriterAction {
    /// No more requests are taken into the queue.
    CloseQueue,
    /// The batch is taken through its steps.
    Process(BatchRun),
    /// A last flush, and the end.
    Finish,
}

/// The loop of the writer.
pub struct WriterLoop {
    pub writer: LogWriter,
    pub stopping: bool,
}

/// Which of the requests wait until their record is durable.
pub open spec fn syncs_of(batch: Seq<AppendRequest>) -> Seq<bool> {
    batch.map_values(|request: AppendRequest| request.sync)
}

impl WriterLoop {
    pub fn new(options: &WalOptions) -> (writer: WriterLoop)
        ensures
            !writer.stopping,
            writer.writer.dir@ == options.dir@,
            writer.writer.max_segment_size == options.max_segment_size,
            writer.writer.next_sequence == 0,
            writer.writer.next_segment_number == 1,
            writer.writer.active is None,
            writer.writer.dirty_files@.len() == 0,
            !writer.writer.directory_dirty,
    {
        WriterLoop { writer: LogWriter::new(options), stopping: false }
    }

    /// Decides what an event asks for, and numbers the records of a batch.
    pub fn receive(&mut self, event: WriterEvent) -> (action: WriterAction)
        requires
            event matches WriterEvent::Batch(batch) ==> old(self).writer.next_sequence + batch@.len() <= u64::MAX,
        ensures
            match event {
                WriterEvent::Cancelled => {
                    &&& action is CloseQueue
                    &&& final(self).stopping
                    &&& final(self).writer == old(self).writer
                },
                WriterEvent::Batch(batch) => {
                    &&& final(self).stopping == old(self).stopping
                    &&& if batch@.len() == 0 {
                        &&& action is Finish
                        &&& final(self).writer == old(self).writer
                    } else {
                        &&& action matches WriterAction::Process(run)
                        &&& run.valid()
                        &&& run.phase == BatchPhase::Writing
                        &&& run.records() == numbered(payloads_of(batch@), old(self).writer.next_sequence)
                        &&& run.syncs@ == syncs_of(batch@)
                        &&& final(self).writer == (LogWriter {
                            next_sequence: (old(self).writer.next_sequence + batch@.len()) as u64,
                            ..old(self).writer
                        })
                    }
                },
            },
    {
        match event {
            WriterEvent::Cancelled => {
                self.stopping = true;
                WriterAction::CloseQueue
            },
            WriterEvent::Batch(batch) => {
                if batch.len() == 0 {
                    return WriterAction::Finish;
                }
                let assigned: Vec<(u64, Vec<u8>)> = self.writer.assign_records(&batch);
                let mut syncs: Vec<bool> = Vec::new();
                let mut at: usize = 0;
                while at < batch.len()
                    invariant
                        at <= batch@.len(),
                        syncs@ == syncs_of(batch@).take(at as int),
                    decreases batch@.len() - at,
                {
                    syncs.push(batch[at].sync);
                    assert(syncs@ =~= syncs_of(batch@).take(at + 1));
                    at += 1;
                }
                assert(syncs@ =~= syncs_of(batch@));
                assert(records::record_views(assigned@).len() == batch@.len());
                WriterAction::Process(BatchRun { assigned, syncs, phase: BatchPhase::Writing })
            },
        }
    }
}

/// What the end of a log came to.
pub struct Shutdown {
    /// The sequence that each of the last requests is answered with. One whose
    /// record could not be written, or made durable where its caller waits for
    /// that, is not answered.
    pub answers: Vec<Option<u64>>,
    /// Why the last flush failed, if it did.
    pub failure: Option<WalError>,
}

/// Puts answers to requests at the places of the requests.
fn put_answers(answers: &mut Vec<Option<u64>>, answered: &Vec<(usize, u64)>)
    requires
        forall|k: int| 0 <= k < answered@.len() ==> (#[trigger] answered@[k]).0 < old(answers)@.len(),
    ensures
        final(answers)@.len() == old(answers)@.len(),
        forall|at: int|
            0 <= at < final(answers)@.len() ==> {
                ||| !mentions(answered@, at) && #[trigger] final(answers)@[at] == old(answers)@[at]
                ||| exists|k: int|
                    0 <= k < answered@.len() && (#[trigger] answered@[k]).0 == at && final(answers)@[at] == Some(
                        answered@[k].1,
                    )
            },
{
    let mut done: usize = 0;
    while done < answered.len()
        invariant
            done <= answered@.len(),
            answers@.len() == old(answers)@.len(),
            forall|k: int| 0 <= k < answered@.len() ==> (#[trigger] answered@[k]).0 < old(answers)@.len(),
            forall|at: int|
                0 <= at < answers@.len() ==> {
                    ||| !mentions(answered@.take(done as int), at) && #[trigger] answers@[at] == old(answers)@[at]
                    ||| exists|k: int|
                        0 <= k < done && (#[trigger] answered@[k]).0 == at && answers@[at] == Some(answered@[k].1)
                },
        decreases answered@.len() - done,
    {
        let (place, sequence): (usize, u64) = answered[done];
        let ghost before = answers@;
        answers.set(place, Some(sequence));
        proof {
            let earlier = answered@.take(done as int);
            let later = answered@.take(done + 1);
            assert forall|at: int| 0 <= at < answers@.len() implies {
                ||| !mentions(later, at) && #[trigger] answers@[at] == old(answers)@[at]
                ||| exists|k: int|
                    0 <= k < done + 1 && (#[trigger] answered@[k]).0 == at && answers@[at] == Some(answered@[k].1)
            } by {
                if at == place {
                    assert(answered@[done as int].0 == at);
                } else {
                    assert(answers@[at] == before[at]);
                    if mentions(later, at) {
                        let k = choose|k: int| 0 <= k < later.len() && (#[trigger] later[k]).0 == at;
                        assert(earlier[k].0 == at);
                    }
                }
            }
        }
        done += 1;
    }
    assert(answered@.take(done as int) =~= answered@);
}

/// Whether every request that was answered got its own sequence.
pub open spec fn answers_in_order(answers: Seq<Option<u64>>, first: int) -> bool {
    forall|at: int| 0 <= at < answers.len() ==> (#[trigger] answers[at] matches Some(sequence) ==> sequence == first + at)
}

/// Whether every request was answered.
pub open spec fn answers_all(answers: Seq<Option<u64>>) -> bool {
    forall|at: int| 0 <= at < answers.len() ==> #[trigger] answers[at] is Some
}

/// Whether the records were appended, and where `durable` holds, everything
/// that was appended is durable.
pub open spec fn is_written<V: Vfs>(
    before: &LogWriter,
    held: &V,
    vfs: &V,
    records: Seq<(u64, Seq<u8>)>,
    durable: bool,
) -> bool {
    exists|writer: LogWriter| is_written_by(&writer, before, held, vfs, records, durable)
}

/// Whether the records were appended by a writer that was then in this state.
pub open spec fn is_written_by<V: Vfs>(
    writer: &LogWriter,
    before: &LogWriter,
    held: &V,
    vfs: &V,
    records: Seq<(u64, Seq<u8>)>,
    durable: bool,
) -> bool {
    &&& writer.appended(vfs, before, held, records)
    &&& durable ==> {
        &&& are_durable(vfs.journal(), vfs.state(), writer.dirty_files@, writer.dirty_files@.len() as int)
        &&& writer.directory_dirty ==> vfs.journal().names.contains_key(before.dir@)
            && vfs.journal().names[before.dir@] == vfs.state().names
    }
}

/// What is durable stays so when more is made durable.
proof fn written_stays_written<V: Vfs>(
    writer: &LogWriter,
    before: &LogWriter,
    held: &V,
    vfs: &V,
    later: &V,
    records: Seq<(u64, Seq<u8>)>,
    durable: bool,
)
    requires
        is_written_by(writer, before, held, vfs, records, durable),
        later.state() == vfs.state(),
        later.journal().advances(vfs.journal(), vfs.state()),
    ensures
        is_written_by(writer, before, held, later, records, durable),
{
    let dirty = writer.dirty_files@;
    assert(writer.appended(later, before, held, records));
    if durable {
        assert forall|i: int| 0 <= i < dirty.len() implies path_is_durable(
            later.journal(),
            later.state(),
            dirty,
            (#[trigger] dirty[i]).path@,
        ) by {
            assert(path_is_durable(vfs.journal(), vfs.state(), dirty, dirty[i].path@));
            let j = choose|j: int|
                0 <= j < dirty.len() && (#[trigger] dirty[j]).path@ == dirty[i].path@ && is_durable(
                    vfs.journal(),
                    vfs.state(),
                    dirty[j],
                );
            assert(later.journal().files.contains_key(dirty[j].id));
            assert(is_durable(later.journal(), later.state(), dirty[j]));
        }
    }
}

/// The place of a request is mentioned in the answers that its caller asked
/// for, and in no others.
proof fn requests_are_mentioned(records: Seq<(u64, Seq<u8>)>, syncs: Seq<bool>)
    requires
        syncs.len() <= usize::MAX,
    ensures
        forall|at: int|
            0 <= at < syncs.len() ==> mentions(answers(records, syncs, #[trigger] syncs[at]), at) && !mentions(
                answers(records, syncs, !syncs[at]),
                at,
            ),
{
    assert forall|at: int| 0 <= at < syncs.len() implies mentions(
        answers(records, syncs, #[trigger] syncs[at]),
        at,
    ) && !mentions(answers(records, syncs, !syncs[at]), at) by {
        every_request_has_one_answer(records, syncs, at);
        let found = answers(records, syncs, syncs[at]);
        let k = choose|k: int| 0 <= k < found.len() && found[k] == (at as usize, records[at].0);
        assert(found[k].0 == at);
    }
}

/// Takes a batch through its steps while the log is closing, and gives the
/// answer to each request.
pub fn run_last_batch<V: Vfs>(run: BatchRun, writer: &mut LogWriter, vfs: &mut V) -> (answers: Vec<Option<u64>>)
    requires
        run.valid(),
        run.phase == BatchPhase::Writing,
        old(writer).valid(old(vfs)),
        old(writer).reach() + records::batch_bound(run.records()) <= usize::MAX,
    ensures
        final(writer).valid(final(vfs)),
        final(writer).keeps(old(writer)),
        final(vfs).dependable() == old(vfs).dependable(),
        answers@.len() == run.records().len(),
        forall|at: int|
            0 <= at < answers@.len() ==> (#[trigger] answers@[at] matches Some(sequence) ==> sequence
                == run.records()[at].0 && is_written(
                old(writer),
                old(vfs),
                final(vfs),
                run.records(),
                run.syncs@[at],
            )),
        forall|written: Seq<Seq<(u64, Seq<u8>)>>|
            #![trigger history::log_is(old(writer), old(vfs), written)]
            {
                &&& history::log_is(old(writer), old(vfs), written)
                &&& written.len() + 1 < u32::MAX
                &&& old(vfs).dependable()
                &&& old(vfs).state().directories.contains(old(writer).dir@)
            } ==> {
                &&& answers_all(answers@)
                &&& final(vfs).state().directories.contains(old(writer).dir@)
                &&& history::stores(
                    final(writer),
                    final(vfs),
                    written.flatten() + run.records(),
                    written.len() + 1,
                )
            },
{
    let mut run: BatchRun = run;
    let ghost records = run.records();
    let ghost syncs = run.syncs@;
    let ghost opened = *writer;
    let ghost system = *vfs;
    let count: usize = run.syncs.len();
    let mut answers: Vec<Option<u64>> = Vec::new();
    while answers.len() < count
        invariant
            answers@.len() <= count,
            forall|at: int| 0 <= at < answers@.len() ==> #[trigger] answers@[at] is None,
        decreases count - answers@.len(),
    {
        answers.push(None);
    }
    proof {
        requests_are_mentioned(records, syncs);
        answers_are_before(records, syncs, false);
        answers_are_before(records, syncs, true);
        assert forall|written: Seq<Seq<(u64, Seq<u8>)>>|
            #[trigger] history::log_is(writer, vfs, written) && vfs.dependable() implies {
            &&& opened.refusal(records) is None
            &&& opened.welcome(&system, records)
        } by {
            history::log_takes_a_batch(&opened, &system, written, records);
        }
    }
    let answered: Vec<(usize, u64)> = match run.step(writer, vfs, true) {
        BatchAction::Answer(answered) => answered,
        _ => {
            return answers;
        },
    };
    put_answers(&mut answers, &answered);
    let ghost early = answers@;
    let ghost wrote = *writer;
    let ghost held = *vfs;
    proof {
        let fresh = opened.placement(records).fresh;
        assert forall|written: Seq<Seq<(u64, Seq<u8>)>>|
            #[trigger] history::log_is(&opened, &system, written) && written.len() + 1 < u32::MAX implies
            history::is_stored(
            &wrote,
            &held,
            written.flatten() + records,
            written.len() + 1,
            history::extended(written, records, fresh),
        ) by {
            history::appended_batch_extends_the_log(&opened, &system, &wrote, &held, written, records);
        }
        assert(is_written_by(&wrote, &opened, &system, &held, records, false));
        assert forall|at: int| 0 <= at < count implies (#[trigger] early[at] is Some <==> !syncs[at]) && (
        early[at] matches Some(sequence) ==> sequence == records[at].0) by {
            assert(syncs[at] == syncs[at]);
        }
    }
    if let BatchPhase::Finished = run.phase {
        proof {
            assert forall|at: int| 0 <= at < count implies #[trigger] early[at] is Some by {
                if syncs[at] {
                    assert(mentions(self::answers(records, syncs, true), at));
                }
            }
        }
        return answers;
    }
    let answered: Vec<(usize, u64)> = match run.step(writer, vfs, true) {
        BatchAction::Answer(answered) => answered,
        _ => {
            proof {
                written_stays_written(&wrote, &opened, &system, &held, vfs, records, false);
            }
            return answers;
        },
    };
    put_answers(&mut answers, &answered);
    proof {
        written_stays_written(&wrote, &opened, &system, &held, vfs, records, false);
        assert(is_written_by(&wrote, &opened, &system, vfs, records, true));
        assert forall|at: int| 0 <= at < count implies #[trigger] answers@[at] is Some && answers@[at]->0
            == records[at].0 by {
            assert(syncs[at] == syncs[at]);
            assert(early[at] is Some <==> !syncs[at]);
        }
        assert forall|written: Seq<Seq<(u64, Seq<u8>)>>|
            #[trigger] history::log_is(&opened, &system, written) && written.len() + 1 < u32::MAX implies
            history::stores(writer, vfs, written.flatten() + records, written.len() + 1) by {
            let now = history::extended(written, records, opened.placement(records).fresh);
            assert(history::is_stored(&wrote, &held, written.flatten() + records, written.len() + 1, now));
            history::flushed_log_is_durable(&wrote, &held, writer, vfs, now);
            assert(history::is_stored(writer, vfs, written.flatten() + records, written.len() + 1, now));
        }
    }
    answers
}

impl WriterLoop {
    /// Writes the requests that are left in a closed queue, and makes the whole
    /// log durable.
    pub fn shut_down<V: Vfs>(&mut self, vfs: &mut V, left: Vec<AppendRequest>) -> (ended: Shutdown)
        requires
            old(self).writer.valid(old(vfs)),
            old(self).writer.next_sequence + left@.len() <= u64::MAX,
            old(self).writer.reach() + records::batch_bound(
                numbered(payloads_of(left@), old(self).writer.next_sequence),
            ) <= usize::MAX,
        ensures
            final(self).writer.valid(final(vfs)),
            final(self).writer.dir@ == old(self).writer.dir@,
            final(self).writer.next_sequence == old(self).writer.next_sequence + left@.len(),
            final(vfs).dependable() == old(vfs).dependable(),
            ended.answers@.len() == left@.len(),
            answers_in_order(ended.answers@, old(self).writer.next_sequence as int),
            forall|at: int|
                0 <= at < left@.len() && #[trigger] ended.answers@[at] is Some ==> is_written(
                    &LogWriter { next_sequence: final(self).writer.next_sequence, ..old(self).writer },
                    old(vfs),
                    final(vfs),
                    numbered(payloads_of(left@), old(self).writer.next_sequence),
                    left@[at].sync,
                ),
            ended.failure is None ==> final(self).writer.dirty_files@.len() == 0 && !final(self).writer.directory_dirty,
            ended.failure matches Some(error) ==> error is Io,
            forall|written: Seq<Seq<(u64, Seq<u8>)>>|
                #![trigger history::log_is(&old(self).writer, old(vfs), written)]
                {
                    &&& history::log_is(&old(self).writer, old(vfs), written)
                    &&& written.len() + 1 < u32::MAX
                    &&& old(vfs).dependable()
                    &&& old(vfs).state().directories.contains(old(self).writer.dir@)
                } ==> {
                    &&& answers_all(ended.answers@)
                    &&& ended.failure is None
                    &&& history::saves(
                        &final(self).writer,
                        final(vfs),
                        written.flatten() + numbered(payloads_of(left@), old(self).writer.next_sequence),
                    )
                },
    {
        let ghost first = self.writer.next_sequence;
        let ghost batch = numbered(payloads_of(left@), first);
        let ghost opened = self.writer;
        let ghost system = *vfs;
        let answers: Vec<Option<u64>> = match self.receive(WriterEvent::Batch(left)) {
            WriterAction::Process(run) => run_last_batch(run, &mut self.writer, vfs),
            _ => Vec::new(),
        };
        let ghost wrote = self.writer;
        let ghost held = *vfs;
        proof {
            assert forall|at: int| 0 <= at < answers@.len() implies (#[trigger] answers@[at] matches Some(sequence)
                ==> sequence == first + at) by {
                assert(batch[at].0 == first + at);
            }
            assert forall|written: Seq<Seq<(u64, Seq<u8>)>>|
                #[trigger] history::log_is(&opened, &system, written) && written.len() + 1 < u32::MAX
                    && system.dependable() && system.state().directories.contains(opened.dir@) implies {
                &&& answers_all(answers@)
                &&& held.state().directories.contains(opened.dir@)
                &&& history::stores(&wrote, &held, written.flatten() + batch, written.len() + 1)
            } by {
                if left@.len() == 0 {
                    assert(written.flatten() + batch =~= written.flatten());
                    assert(history::is_stored(&wrote, &held, written.flatten() + batch, written.len() + 1, written));
                } else {
                    let numbered_writer = LogWriter {
                        next_sequence: (first + left@.len()) as u64,
                        ..opened
                    };
                    assert(history::log_is(&numbered_writer, &system, written));
                }
            }
        }
        let result = self.writer.flush(vfs);
        proof {
            let numbered_writer = LogWriter { next_sequence: (first + left@.len()) as u64, ..opened };
            assert forall|at: int| 0 <= at < left@.len() && #[trigger] answers@[at] is Some implies is_written(
                &numbered_writer,
                &system,
                vfs,
                batch,
                left@[at].sync,
            ) by {
                let durable = left@[at].sync;
                assert(syncs_of(left@)[at] == durable);
                assert(is_written(&numbered_writer, &system, &held, batch, durable));
                let writer = choose|writer: LogWriter|
                    is_written_by(&writer, &numbered_writer, &system, &held, batch, durable);
                written_stays_written(&writer, &numbered_writer, &system, &held, vfs, batch, durable);
            }
            assert forall|written: Seq<Seq<(u64, Seq<u8>)>>|
                #[trigger] history::log_is(&opened, &system, written) && written.len() + 1 < u32::MAX
                    && system.dependable() && system.state().directories.contains(opened.dir@) implies result is Ok
                && history::saves(&self.writer, vfs, written.flatten() + batch) by {
                let all = written.flatten() + batch;
                let most = written.len() + 1;
                assert(history::stores(&wrote, &held, all, most));
                let segments = choose|segments: Seq<Seq<(u64, Seq<u8>)>>|
                    history::is_stored(&wrote, &held, all, most, segments);
                history::flushed_log_is_durable(&wrote, &held, &self.writer, vfs, segments);
                assert(history::is_saved(&self.writer, vfs, all, segments));
            }
        }
        match result {
            Ok(()) => Shutdown { answers, failure: None },
            Err(error) => Shutdown { answers, failure: Some(error) },
        }
    }
}

/// Opens a log in an empty directory. Segment files from a previous run are
/// not recovered, so a directory that holds any file is refused.
pub fn open_log<V: Vfs>(vfs: &mut V, options: &WalOptions) -> (result: Result<WriterLoop, WalError>)
    ensures
        final(vfs).dependable() == old(vfs).dependable(),
        final(vfs).journal() == old(vfs).journal(),
        final(vfs).state().keeps(old(vfs).state()),
        final(vfs).state().names == old(vfs).state().names,
        final(vfs).state().data == old(vfs).state().data,
        options::options_fault(options) is Some ==> final(vfs).state() == old(vfs).state(),
        match result {
            Ok(opened) => {
                &&& options::options_fault(options) is None
                &&& final(vfs).state().directories.contains(options.dir@)
                &&& !vfs::is_occupied(old(vfs).state().names, options.dir@)
                &&& !opened.stopping
                &&& opened.writer.dir@ == options.dir@
                &&& opened.writer.max_segment_size == options.max_segment_size
                &&& opened.writer.next_sequence == 0
                &&& opened.writer.next_segment_number == 1
                &&& opened.writer.active is None
                &&& opened.writer.dirty_files@.len() == 0
                &&& !opened.writer.directory_dirty
            },
            Err(error) => match options::options_fault(options) {
                Some(message) => error@ == WalErrorView::InvalidOptions(message),
                None => {
                    ||| error is Io && !old(vfs).dependable()
                    ||| error@ == WalErrorView::ExistingSegments(options.dir@) && vfs::is_occupied(
                        old(vfs).state().names,
                        options.dir@,
                    )
                },
            },
        },
{
    match options.validate() {
        Ok(()) => {},
        Err(message) => {
            return Err(WalError::InvalidOptions(String::from_str(message)));
        },
    }
    match vfs.create_dir(options.dir.as_str()) {
        Ok(()) => {},
        Err(error) => {
            return Err(WalError::io(error));
        },
    }
    let names: Vec<String> = match vfs::list_names(&*vfs, options.dir.as_str()) {
        Ok(names) => names,
        Err(error) => {
            return Err(WalError::io(error));
        },
    };
    if names.len() > 0 {
        assert(vfs::is_file_name(names@[0]@));
        return Err(WalError::ExistingSegments(options.dir.clone()));
    }
    Ok(WriterLoop::new(options))
}

/// Whether the request with a place is answered.
pub open spec fn mentions(answered: Seq<(usize, u64)>, at: int) -> bool {
    exists|k: int| 0 <= k < answered.len() && (#[trigger] answered[k]).0 == at
}

/// Every request of a batch is answered once: at once or after its record is
/// durable, whichever its caller asked for, with the sequence of its record.
pub proof fn every_request_has_one_answer(assigned: Seq<(u64, Seq<u8>)>, syncs: Seq<bool>, at: int)
    requires
        0 <= at < syncs.len() <= usize::MAX,
    ensures
        answers(assigned, syncs, syncs[at]).contains((at as usize, assigned[at].0)),
        !mentions(answers(assigned, syncs, !syncs[at]), at),
    decreases syncs.len(),
{
    let rest = syncs.drop_last();
    let last = syncs.len() - 1;
    let found = answers(assigned, syncs, syncs[at]);
    let others = answers(assigned, syncs, !syncs[at]);
    if at < last {
        every_request_has_one_answer(assigned, rest, at);
        let before = answers(assigned, rest, syncs[at]);
        let k = choose|k: int| 0 <= k < before.len() && before[k] == (at as usize, assigned[at].0);
        assert(found[k] == before[k]);
        let kept = answers(assigned, rest, !syncs[at]);
        if mentions(others, at) {
            let k = choose|k: int| 0 <= k < others.len() && (#[trigger] others[k]).0 == at;
            assert(k < kept.len());
            assert(kept[k].0 == at);
        }
    } else {
        assert(found[found.len() - 1] == (at as usize, assigned[at].0));
        answers_are_before(assigned, rest, !syncs[at]);
        if mentions(others, at) {
            let k = choose|k: int| 0 <= k < others.len() && (#[trigger] others[k]).0 == at;
            assert(answers(assigned, rest, !syncs[at])[k].0 < rest.len());
        }
    }
}

proof fn answers_are_before(assigned: Seq<(u64, Seq<u8>)>, syncs: Seq<bool>, waiting: bool)
    requires
        syncs.len() <= usize::MAX,
    ensures
        forall|k: int|
            0 <= k < answers(assigned, syncs, waiting).len() ==> {
                let (place, sequence) = #[trigger] answers(assigned, syncs, waiting)[k];
                place < syncs.len() && sequence == assigned[place as int].0
            },
    decreases syncs.len(),
{
    if syncs.len() > 0 {
        let rest = syncs.drop_last();
        answers_are_before(assigned, rest, waiting);
        let kept = answers(assigned, rest, waiting);
        let found = answers(assigned, syncs, waiting);
        assert forall|k: int| 0 <= k < found.len() implies (#[trigger] found[k]).0 < syncs.len() && found[k].1
            == assigned[found[k].0 as int].0 by {
            if k < kept.len() {
                assert(kept[k] == found[k]);
            }
        }
    }
}

/// The sequences of the records of one batch follow those of the batches
/// before it, without a gap.
pub proof fn numbered_records_follow(payloads: Seq<Seq<u8>>, first: u64)
    requires
        first + payloads.len() <= u64::MAX,
    ensures
        first > 0 ==> records::follows(Some((first - 1) as u64), numbered(payloads, first)),
        records::follows(None, numbered(payloads, first)),
    decreases payloads.len(),
{
    if payloads.len() > 0 {
        let rest = payloads.skip(1);
        numbered_records_follow(rest, (first + 1) as u64);
        assert(numbered(payloads, first).skip(1) =~= numbered(rest, (first + 1) as u64));
    }
}

/// Requests are taken as their callers made them: each record has the payload of
/// its request and the sequence that lies as far from the first as the request
/// lies in the batch, and is waited for if and only if the caller asked for it.
pub proof fn requests_are_taken_as_asked(batch: Seq<AppendRequest>, first: u64, at: int)
    requires
        0 <= at < batch.len(),
        first + batch.len() <= u64::MAX,
    ensures
        numbered(payloads_of(batch), first).len() == batch.len(),
        numbered(payloads_of(batch), first)[at].0 == first + at,
        numbered(payloads_of(batch), first)[at].1 == batch[at].payload@,
        syncs_of(batch).len() == batch.len(),
        syncs_of(batch)[at] == batch[at].sync,
{
}

/// A caller that waits until its record is durable is answered after the flush,
/// and any other one before it, each with the sequence of its record. Nobody
/// else is answered.
pub proof fn callers_are_answered_when_they_asked(
    batch: Seq<AppendRequest>,
    first: u64,
    waiting: bool,
    at: int,
)
    requires
        0 <= at < batch.len() <= usize::MAX,
        first + batch.len() <= u64::MAX,
    ensures
        ({
            let told = answers(numbered(payloads_of(batch), first), syncs_of(batch), waiting);
            &&& told.contains((at as usize, (first + at) as u64)) <==> batch[at].sync == waiting
            &&& forall|k: int| 0 <= k < told.len() ==> (#[trigger] told[k]).0 < batch.len() && told[k].1 == first + told[k].0
            &&& forall|k: int, l: int| 0 <= k < l < told.len() ==> (#[trigger] told[k]).0 < (#[trigger] told[l]).0
        }),
{
    let assigned = numbered(payloads_of(batch), first);
    let syncs = syncs_of(batch);
    let told = answers(assigned, syncs, waiting);
    every_request_has_one_answer(assigned, syncs, at);
    answers_are_before(assigned, syncs, waiting);
    answers_stand_in_order(assigned, syncs, waiting);
    if syncs[at] != waiting && told.contains((at as usize, (first + at) as u64)) {
        let k = choose|k: int| 0 <= k < told.len() && told[k] == (at as usize, (first + at) as u64);
        assert(told[k].0 == at);
        assert(mentions(told, at));
    }
    assert forall|k: int| 0 <= k < told.len() implies (#[trigger] told[k]).0 < batch.len() && told[k].1 == first
        + told[k].0 by {
        let (place, sequence) = answers(assigned, syncs, waiting)[k];
        assert(assigned[place as int].0 == first + place);
    }
}

proof fn answers_stand_in_order(assigned: Seq<(u64, Seq<u8>)>, syncs: Seq<bool>, waiting: bool)
    requires
        syncs.len() <= usize::MAX,
    ensures
        ({
            let told = answers(assigned, syncs, waiting);
            forall|k: int, l: int| 0 <= k < l < told.len() ==> (#[trigger] told[k]).0 < (#[trigger] told[l]).0
        }),
    decreases syncs.len(),
{
    if syncs.len() > 0 {
        let rest = syncs.drop_last();
        let before = answers(assigned, rest, waiting);
        let told = answers(assigned, syncs, waiting);
        answers_stand_in_order(assigned, rest, waiting);
        answers_are_before(assigned, rest, waiting);
        assert forall|k: int, l: int| 0 <= k < l < told.len() implies (#[trigger] told[k]).0 < (
        #[trigger] told[l]).0 by {
            assert(told[k] == before[k]);
            if l < before.len() {
                assert(told[l] == before[l]);
            } else {
                let (place, sequence) = answers(assigned, rest, waiting)[k];
                assert(place < rest.len());
            }
        }
    }
}

/// No segment grows beyond the limit, unless it holds a single batch. A batch
/// starts a new segment, with the next number, if and only if there is none yet
/// or the active one holds records and would pass the limit with the batch.
pub proof fn log_rotates_at_its_limit<V: Vfs>(
    writer: &LogWriter,
    vfs: &V,
    before: &LogWriter,
    held: &V,
    batch: Seq<(u64, Seq<u8>)>,
)
    requires
        writer.appended(vfs, before, held, batch),
        before.valid(held),
    ensures
        ({
            let header = FILE_HEADER_SIZE as int;
            let now = writer.active->0;
            let full = before.active matches Some(active) && active.offset > header && active.offset
                + records::batch_bytes(active.number, active.offset as int, batch).len() > before.max_segment_size;
            &&& writer.active is Some
            &&& now.offset <= before.max_segment_size || now.offset == header + records::batch_bytes(
                now.number,
                header,
                batch,
            ).len()
            &&& if before.active is None || full {
                &&& now.number == before.next_segment_number
                &&& writer.next_segment_number == before.next_segment_number + 1
                &&& now.offset == header + records::batch_bytes(now.number, header, batch).len()
            } else {
                &&& now.number == before.active->0.number
                &&& now.file == before.active->0.file
                &&& writer.next_segment_number == before.next_segment_number
                &&& now.offset == before.active->0.offset + records::batch_bytes(
                    now.number,
                    before.active->0.offset as int,
                    batch,
                ).len()
            }
        }),
{
}

/// What is appended changes neither the directory, nor the size of segments, nor
/// the next sequence.
pub proof fn appends_keep_the_writer(before: &LogWriter, after: &LogWriter)
    requires
        after.keeps(before),
    ensures
        after.dir@ == before.dir@,
        after.max_segment_size == before.max_segment_size,
        after.next_sequence == before.next_sequence,
{
}

/// The next batch of a settled log starts where its active file ends.
pub proof fn settled_log_goes_on_at_its_end<V: Vfs>(writer: &LogWriter, vfs: &V)
    requires
        writer.settled(vfs),
        writer.active is Some,
    ensures
        vfs.state().contents(&writer.active->0.file).len() == writer.reach(),
{
}

/// A batch is refused where the active segment, or the one that the batch goes
/// to, has a number that four bytes cannot hold, and nowhere else.
pub proof fn batch_is_refused_where_numbers_end(writer: &LogWriter, batch: Seq<(u64, Seq<u8>)>)
    ensures
        writer.refusal(batch) is None <==> {
            &&& writer.active matches Some(active) ==> active.number <= 0xffff_ffff
            &&& writer.placement(batch).number <= 0xffff_ffff
        },
{
}

/// A batch that is not refused fails only for reasons of the filesystem: where
/// every call succeeds, nothing stands behind the log and no file has the name of
/// the next segment, it does not fail.
pub proof fn batch_fails_only_with_the_filesystem<V: Vfs>(
    after: &LogWriter,
    vfs: &V,
    before: &LogWriter,
    held: &V,
    batch: Seq<(u64, Seq<u8>)>,
    error: WalErrorView,
)
    requires
        after.failed(vfs, before, held, batch, error),
        before.refusal(batch) is None,
    ensures
        error is Io,
        !held.dependable() || (before.active is Some && before.active->0.offset != held.state().contents(
            &before.active->0.file,
        ).len()) || held.state().names.contains_key(
            segment_names::segment_path(before.dir@, before.placement(batch).number as nat),
        ),
{
}

/// A batch that fails takes nothing away: every file keeps its name, every file
/// but the active one its bytes, and no sequence is used twice or given back.
pub proof fn failed_batch_keeps_the_log<V: Vfs>(
    after: &LogWriter,
    vfs: &V,
    before: &LogWriter,
    held: &V,
    batch: Seq<(u64, Seq<u8>)>,
    error: WalErrorView,
    path: Seq<char>,
    id: u64,
)
    requires
        after.failed(vfs, before, held, batch, error),
    ensures
        held.state().names.contains_key(path) ==> vfs.state().names.contains_key(path) && vfs.state().names[path]
            == held.state().names[path],
        held.state().data.contains_key(id) && (before.active matches Some(active) ==> active.file.id != id) ==> {
            &&& vfs.state().data.contains_key(id)
            &&& vfs.state().data[id] == held.state().data[id]
        },
        after.dir@ == before.dir@ && after.next_sequence == before.next_sequence,
        after.dirty_files@ == before.dirty_files@,
        before.directory_dirty ==> after.directory_dirty,
        before.next_segment_number <= after.next_segment_number,
{
    if held.state().data.contains_key(id) {
        assert(held.state().data.dom().contains(id));
    }
}

/// Whether a file is among those that are still to be made durable.
pub open spec fn awaits_sync(files: Seq<VfsFile>, file: VfsFile) -> bool {
    exists|i: int| 0 <= i < files.len() && (#[trigger] files[i]).id == file.id
}

/// A batch stands at the end of its file once it is appended: behind what was
/// there, or behind the header of a new file, which is then to be made durable
/// with its directory.
pub proof fn appended_batch_ends_its_file<V: Vfs>(
    after: &LogWriter,
    vfs: &V,
    before: &LogWriter,
    held: &V,
    batch: Seq<(u64, Seq<u8>)>,
)
    requires
        after.appended(vfs, before, held, batch),
        before.settled(held),
    ensures
        after.active is Some,
        ({
            let active = after.active->0;
            let place = before.placement(batch);
            let bytes = records::batch_bytes(place.number, place.start, batch);
            let contents = vfs.state().data[active.file.id];
            &&& active.number == place.number
            &&& active.offset == contents.len()
            &&& awaits_sync(after.dirty_files@, active.file)
            &&& forall|i: int|
                #![trigger before.dirty_files@[i]]
                0 <= i < before.dirty_files@.len() ==> i < after.dirty_files@.len() && after.dirty_files@[i]
                    == before.dirty_files@[i]
            &&& before.directory_dirty ==> after.directory_dirty
            &&& place.fresh ==> {
                &&& contents == envelope::file_header(place.number, 4096) + bytes
                &&& after.directory_dirty
                &&& after.next_segment_number == before.next_segment_number + 1
                &&& !held.state().data.contains_key(active.file.id)
            }
            &&& !place.fresh ==> {
                &&& before.active is Some && active.file == before.active->0.file
                &&& contents == held.state().data[active.file.id] + bytes
                &&& after.next_segment_number == before.next_segment_number
            }
        }),
{
    let active = after.active->0;
    let place = before.placement(batch);
    let bytes = records::batch_bytes(place.number, place.start, batch);
    let old_files = before.dirty_files@;
    let new_files = after.dirty_files@;
    if has_file(old_files, active.file.id) {
        let i = choose|i: int| 0 <= i < old_files.len() && (#[trigger] old_files[i]).id == active.file.id;
        assert(new_files[i].id == active.file.id);
    } else {
        assert(new_files[old_files.len() as int].id == active.file.id);
        assert forall|i: int| #![trigger old_files[i]] 0 <= i < old_files.len() implies new_files[i] == old_files[i] by {
            assert(new_files.drop_last()[i] == new_files[i]);
        }
    }
    if place.fresh {
        envelope::header_is_laid_out(place.number, 4096);
    } else {
        let contents = held.state().contents(&active.file);
        assert(contents.len() == place.start);
        vfs::written_bytes_stand_in_their_place(contents, place.start, bytes, 0);
    }
}

/// After a flush nothing is left to be made durable: the bytes of every file that
/// was, by its path, are durable as they are, and so are the names.
pub proof fn flushed_log_is_durable<V: Vfs>(after: &LogWriter, vfs: &V, before: &LogWriter, at: int)
    requires
        after.flushed(vfs, before),
        0 <= at < before.dirty_files@.len(),
    ensures
        after.dirty_files@.len() == 0,
        !after.directory_dirty,
        after.active == before.active,
        after.next_segment_number == before.next_segment_number,
        exists|j: int|
            #![trigger before.dirty_files@[j]]
            0 <= j < before.dirty_files@.len() && before.dirty_files@[j].path@ == before.dirty_files@[at].path@
                && vfs.journal().files.contains_key(before.dirty_files@[j].id)
                && vfs.journal().files[before.dirty_files@[j].id] == vfs.state().data[before.dirty_files@[j].id],
        before.directory_dirty ==> vfs.journal().names.contains_key(before.dir@) && vfs.journal().names[before.dir@]
            == vfs.state().names,
{
    let files = before.dirty_files@;
    assert(path_is_durable(vfs.journal(), vfs.state(), files, files[at].path@));
    let j = choose|j: int|
        0 <= j < files.len() && (#[trigger] files[j]).path@ == files[at].path@ && is_durable(
            vfs.journal(),
            vfs.state(),
            files[j],
        );
    assert(files[j].path@ == files[at].path@);
}

/// Where every request is answered, each of them has an answer.
pub proof fn answered_requests_have_answers(answers: Seq<Option<u64>>, first: int, at: int)
    requires
        answers_all(answers),
        answers_in_order(answers, first),
        0 <= at < answers.len(),
    ensures
        answers[at] is Some,
        answers[at]->0 == first + at,
{
    assert(answers[at] is Some);
}

} // verus!
