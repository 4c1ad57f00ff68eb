//! Record-level segments with an index in memory.

use std::cmp::Ordering;
use vstd::prelude::*;
use crate::align;
use crate::framing;
use crate::segment::envelope;
use crate::segment::envelope::{IndexLookup, LoadedIndex, SegmentHeader, ALIGNMENT, FILE_HEADER_SIZE};
use crate::segment::error;
use crate::segment::error::{SegmentError, SegmentErrorView};
use crate::segment::record;
use crate::segment::record::{Decoded, SegmentScan};
use crate::segment_names;
use crate::text;
use crate::vfs;
use crate::vfs::{IoError, IoErrorKind, OpenOptions, Vfs, VfsFile};

verus! {

/// A logical record position within one segment.
#[derive(Debug, Clone, Copy, PartialEq, Eq, Ord, Hash, Structural)]
pub struct SegmentOffset(u64);

impl SegmentOffset {
    /// The position as a number.
    pub closed spec fn value(self) -> u64 {
        self.0
    }

    pub fn new(value: u64) -> (offset: SegmentOffset)
        ensures
            offset.value() == value,
    {
        SegmentOffset(value)
    }

    pub fn get(self) -> (value: u64)
        ensures
            value == self.value(),
    {
        self.0
    }
}

impl PartialOrd for SegmentOffset {
    fn partial_cmp(&self, other: &SegmentOffset) -> (order: Option<Ordering>) {
        if self.0 < other.0 {
            Some(Ordering::Less)
        } else if self.0 > other.0 {
            Some(Ordering::Greater)
        } else {
            Some(Ordering::Equal)
        }
    }
}

impl vstd::std_specs::cmp::PartialOrdSpecImpl for SegmentOffset {
    open spec fn obeys_partial_cmp_spec() -> bool {
        true
    }

    /// Offsets are ordered as their numbers.
    open spec fn partial_cmp_spec(&self, other: &SegmentOffset) -> Option<Ordering> {
        if self.value() < other.value() {
            Some(Ordering::Less)
        } else if self.value() > other.value() {
            Some(Ordering::Greater)
        } else {
            Some(Ordering::Equal)
        }
    }
}

/// The result of attempting to append one record to a segment.
#[derive(Debug, Clone, Copy, PartialEq, Eq, Structural)]
pub enum AppendResult {
    Appended(SegmentOffset),
    Full,
}

/// What a segment allows.
#[derive(Debug, Clone, Copy, PartialEq, Eq, Structural)]
pub enum SegmentState {
    /// Records can be appended.
    Active,
    /// Records were found by a scan; the segment waits to be sealed again.
    NeedsRepair,
    /// The segment is immutable.
    Sealed,
}

/// A segment of records between a header and, once sealed, an index.
#[derive(Debug)]
pub struct FileSegment {
    pub number: u64,
    pub file: VfsFile,
    pub max_records_size: u64,
    pub alignment: usize,
    /// Where each record starts, and after them where the last one ends.
    pub record_index: Vec<u64>,
    pub state: SegmentState,
}

/// The alignment that records need on a filesystem.
pub open spec fn needed_alignment(required: Option<u64>) -> u64 {
    match required {
        Some(alignment) => alignment,
        None => ALIGNMENT as u64,
    }
}

/// What is reported of an alignment that records cannot have.
pub open spec fn vfs_alignment_error(required: Option<u64>) -> Option<SegmentErrorView> {
    let alignment = needed_alignment(required);
    if alignment > usize::MAX {
        Some(SegmentErrorView::OffsetExhausted)
    } else if !envelope::is_alignment(alignment as int) {
        Some(
            SegmentErrorView::Io(
                "VFS alignment "@ + text::decimal(alignment as nat)
                    + " must divide the 4096-byte segment envelope"@,
            ),
        )
    } else {
        None
    }
}

/// The alignment that records need on a filesystem.
fn record_alignment<V: Vfs>(vfs: &V) -> (result: Result<usize, SegmentError>)
    ensures
        match result {
            Ok(alignment) => {
                &&& vfs_alignment_error(vfs.required_alignment()) is None
                &&& alignment == needed_alignment(vfs.required_alignment())
                &&& envelope::is_alignment(alignment as int)
            },
            Err(error) => vfs_alignment_error(vfs.required_alignment()) == Some(error@),
        },
{
    let alignment: u64 = match vfs.alignment() {
        Some(alignment) => alignment,
        None => ALIGNMENT as u64,
    };
    if alignment > usize::MAX as u64 {
        return Err(SegmentError::OffsetExhausted);
    }
    match envelope::validate_alignment(alignment as usize) {
        Ok(()) => Ok(alignment as usize),
        Err(_) => {
            let mut message: String = String::from_str("VFS alignment ");
            text::push_decimal(&mut message, alignment);
            message.append(" must divide the 4096-byte segment envelope");
            Err(SegmentError::Io(message))
        },
    }
}

/// Rounds the size of the record area up to the record alignment.
pub fn align_max_records_size(max_records_size: u64, alignment: usize) -> (result: Result<u64, SegmentError>)
    requires
        alignment > 0,
    ensures
        match result {
            Ok(size) => size == align::aligned(max_records_size as int, alignment as int),
            Err(error) => {
                &&& align::aligned(max_records_size as int, alignment as int) > u64::MAX
                &&& error@ == SegmentErrorView::OffsetExhausted
            },
        },
{
    match align::checked_align_up(max_records_size, alignment as u64) {
        Some(size) => Ok(size),
        None => Err(SegmentError::OffsetExhausted),
    }
}

/// Why no segment can be created, whatever the filesystem holds.
pub open spec fn creation_error(required: Option<u64>, max_records_size: u64) -> Option<SegmentErrorView> {
    if vfs_alignment_error(required) is Some {
        vfs_alignment_error(required)
    } else if align::aligned(max_records_size as int, needed_alignment(required) as int) > u64::MAX {
        Some(SegmentErrorView::OffsetExhausted)
    } else {
        None
    }
}

/// What a segment file comes to when it is opened.
pub enum Opening {
    Opened { header: SegmentHeader, max_records_size: int, sealed: bool, positions: Seq<u64>, end: int },
    Failed(SegmentErrorView),
}

/// What a segment file comes to when it is opened, on a filesystem with the
/// given alignment and for a record area of the given size.
pub open spec fn opening(contents: Seq<u8>, path: Seq<char>, required: Option<u64>, max_records_size: u64) -> Opening {
    let header = envelope::header_value(contents.take(FILE_HEADER_SIZE as int));
    let step = header.alignment as int;
    let needed = needed_alignment(required);
    let (positions, stop, why) = record::scanned(header.segment_number, contents, FILE_HEADER_SIZE as int, step);
    if envelope::file_header_fault(contents, false) is Some {
        Opening::Failed(error::corrupt(path, envelope::file_header_fault(contents, false)->0))
    } else if align::aligned(max_records_size as int, step) > u64::MAX {
        Opening::Failed(SegmentErrorView::OffsetExhausted)
    } else if vfs_alignment_error(required) is Some {
        Opening::Failed(vfs_alignment_error(required)->0)
    } else if step % needed as int != 0 {
        Opening::Failed(
            SegmentErrorView::Io(
                "segment record alignment "@ + text::decimal(header.alignment as nat)
                    + " does not satisfy VFS alignment "@ + text::decimal(needed as nat),
            ),
        )
    } else {
        match envelope::index_lookup(contents, step) {
            IndexLookup::Impossible(message) => Opening::Failed(error::corrupt(path, message)),
            IndexLookup::Found { segment_number, records_size, index } => if segment_number != header.segment_number {
                Opening::Failed(
                    error::corrupt(
                        path,
                        "segment header identifies "@ + text::decimal(header.segment_number as nat)
                            + ", but its footer identifies "@ + text::decimal(segment_number as nat),
                    ),
                )
            } else {
                Opening::Opened {
                    header,
                    max_records_size: align::aligned(max_records_size as int, step),
                    sealed: true,
                    positions: index,
                    end: FILE_HEADER_SIZE + records_size,
                }
            },
            IndexLookup::Missing => Opening::Opened {
                header,
                max_records_size: align::aligned(max_records_size as int, step),
                sealed: false,
                positions,
                end: stop,
            },
        }
    }
}

impl FileSegment {
    /// Where the records end.
    pub open spec fn records_end(&self) -> int {
        self.record_index@.last() as int
    }

    /// Where the records start.
    pub open spec fn positions(&self) -> Seq<u64> {
        self.record_index@.drop_last()
    }

    /// The index is one that a segment can have, and the file holds what it
    /// lists.
    pub open spec fn valid<V: Vfs>(&self, vfs: &V) -> bool {
        &&& envelope::is_alignment(self.alignment as int)
        &&& self.record_index@.len() > 0
        &&& envelope::is_index(self.positions(), self.records_end(), self.alignment as int)
        &&& self.records_end() % self.alignment as int == 0
        &&& FILE_HEADER_SIZE <= self.records_end()
        &&& vfs.state().holds(&self.file)
        &&& self.records_end() <= vfs.state().contents(&self.file).len()
    }

    /// The file holds nothing after the records.
    pub open spec fn settled<V: Vfs>(&self, vfs: &V) -> bool {
        vfs.state().contents(&self.file).len() == self.records_end()
    }

    /// The same segment, whatever was appended to it.
    pub open spec fn same_segment(&self, other: &FileSegment) -> bool {
        &&& self.number == other.number
        &&& self.file == other.file
        &&& self.max_records_size == other.max_records_size
        &&& self.alignment == other.alignment
    }

    /// Creates a segment with a header and no records. A file whose header
    /// cannot be written is removed again.
    pub fn create<V: Vfs>(vfs: &mut V, dir: &str, number: u64, max_records_size: u64) -> (result: Result<
        FileSegment,
        SegmentError,
    >)
        ensures
            final(vfs).dependable() == old(vfs).dependable(),
            final(vfs).required_alignment() == old(vfs).required_alignment(),
            final(vfs).journal() == old(vfs).journal(),
            ({
                let path = segment_names::segment_path(dir@, number as nat);
                let alignment = needed_alignment(old(vfs).required_alignment());
                let error = creation_error(old(vfs).required_alignment(), max_records_size);
                &&& match result {
                    Ok(segment) => {
                        &&& error is None
                        &&& segment.number == number
                        &&& segment.file.path@ == path
                        &&& segment.alignment == alignment
                        &&& segment.max_records_size == align::aligned(max_records_size as int, alignment as int)
                        &&& segment.record_index@ == seq![FILE_HEADER_SIZE as u64]
                        &&& segment.state == SegmentState::Active
                        &&& segment.valid(final(vfs))
                        &&& segment.settled(final(vfs))
                        &&& !old(vfs).state().names.contains_key(path)
                        &&& !old(vfs).state().data.contains_key(segment.file.id)
                        &&& final(vfs).state().same_but(
                            old(vfs).state().with_file(path, segment.file.id),
                            segment.file.id,
                        )
                        &&& final(vfs).state().contents(&segment.file) == envelope::file_header(
                            number,
                            alignment as u32,
                        )
                    },
                    Err(found) => {
                        &&& final(vfs).state().keeps(old(vfs).state())
                        &&& error is Some ==> error == Some(found@) && final(vfs).state() == old(vfs).state()
                        &&& error is None ==> found is Io && (old(vfs).dependable() ==> old(
                            vfs,
                        ).state().names.contains_key(path) && final(vfs).state() == old(vfs).state())
                    },
                }
                &&& old(vfs).dependable() ==> (result is Ok <==> error is None && !old(
                    vfs,
                ).state().names.contains_key(path))
            }),
    {
        let alignment: usize = match record_alignment(&*vfs) {
            Ok(alignment) => alignment,
            Err(error) => {
                return Err(error);
            },
        };
        let max_records_size: u64 = match align_max_records_size(max_records_size, alignment) {
            Ok(size) => size,
            Err(error) => {
                return Err(error);
            },
        };
        let path: String = segment_names::numbered_path(dir, number);
        let file: VfsFile = match vfs.open(path.as_str(), OpenOptions::CreateNew) {
            Ok(file) => file,
            Err(error) => {
                return Err(SegmentError::io(error));
            },
        };
        let header: Vec<u8> = match envelope::encode_file_header(number, alignment) {
            Ok(header) => header,
            Err(error) => {
                return Err(error);
            },
        };
        proof {
            envelope::header_round_trip(number, alignment, Seq::empty(), false);
            envelope::alignment_is_small(alignment as int);
        }
        let failure: IoError = match vfs.append(&file, &header) {
            Ok(position) => {
                if position == 0 {
                    let record_index: Vec<u64> = vec![FILE_HEADER_SIZE as u64];
                    proof {
                        assert(record_index@ =~= seq![FILE_HEADER_SIZE as u64]);
                        assert(record_index@.drop_last() =~= Seq::<u64>::empty());
                        assert(vfs.state().contents(&file) =~= header@);
                    }
                    return Ok(
                        FileSegment {
                            number,
                            file,
                            max_records_size,
                            alignment,
                            record_index,
                            state: SegmentState::Active,
                        },
                    );
                }
                IoError::new(IoErrorKind::Other, "new segment file is not empty")
            },
            Err(error) => error,
        };
        match vfs.remove(path.as_str()) {
            Ok(()) => {},
            Err(cleanup) => {
                if cleanup.kind != IoErrorKind::NotFound {
                    return Err(SegmentError::io(cleanup));
                }
            },
        }
        Err(SegmentError::io(failure))
    }

    /// Why a record is not appended, whatever the filesystem does.
    pub open spec fn append_error(&self, payload: Seq<u8>) -> Option<SegmentErrorView> {
        let size = record::aligned_record(self.number, self.records_end(), payload, self.alignment as int).len();
        if self.state != SegmentState::Active {
            Some(SegmentErrorView::Sealed)
        } else if self.number > u32::MAX {
            Some(SegmentErrorView::SegmentNumberTooLarge(self.number))
        } else if size > self.max_records_size {
            Some(SegmentErrorView::RecordTooLarge { size: size as u64, max: self.max_records_size })
        } else if FILE_HEADER_SIZE + self.max_records_size > u64::MAX {
            Some(SegmentErrorView::OffsetExhausted)
        } else {
            None
        }
    }

    /// Whether a record ends outside the record area.
    pub open spec fn is_full_for(&self, payload: Seq<u8>) -> bool {
        self.records_end() + record::aligned_record(
            self.number,
            self.records_end(),
            payload,
            self.alignment as int,
        ).len() > FILE_HEADER_SIZE + self.max_records_size
    }

    /// Appends one payload or reports that the record area is full.
    pub fn append<V: Vfs>(&mut self, vfs: &mut V, payload: &[u8]) -> (result: Result<AppendResult, SegmentError>)
        requires
            old(self).valid(old(vfs)),
            old(self).records_end() + record::aligned_record(
                old(self).number,
                old(self).records_end(),
                payload@,
                old(self).alignment as int,
            ).len() <= usize::MAX,
        ensures
            final(self).valid(final(vfs)),
            final(self).same_segment(old(self)),
            final(self).state == old(self).state,
            final(vfs).dependable() == old(vfs).dependable(),
            final(vfs).required_alignment() == old(vfs).required_alignment(),
            final(vfs).journal() == old(vfs).journal(),
            final(vfs).state().same_but(old(vfs).state(), old(self).file.id),
            ({
                let position = old(self).records_end();
                let record = record::aligned_record(
                    old(self).number,
                    position,
                    payload@,
                    old(self).alignment as int,
                );
                let error = old(self).append_error(payload@);
                match result {
                    Ok(AppendResult::Full) => {
                        &&& error is None
                        &&& old(self).is_full_for(payload@)
                        &&& *final(self) == *old(self)
                        &&& final(vfs).state() == old(vfs).state()
                    },
                    Ok(AppendResult::Appended(offset)) => {
                        &&& error is None
                        &&& !old(self).is_full_for(payload@)
                        &&& offset.value() == old(self).positions().len()
                        &&& final(self).record_index@ == old(self).record_index@.push((position + record.len()) as u64)
                        &&& final(vfs).state().contents(&old(self).file) == vfs::overwritten(
                            old(vfs).state().contents(&old(self).file),
                            position,
                            record,
                        )
                        &&& old(self).settled(old(vfs)) ==> final(self).settled(final(vfs))
                    },
                    Err(found) => {
                        &&& *final(self) == *old(self)
                        &&& error is Some ==> error == Some(found@) && final(vfs).state() == old(vfs).state()
                        &&& error is None ==> {
                            &&& !old(self).is_full_for(payload@)
                            &&& found is Io
                            &&& !(old(vfs).dependable() && old(self).settled(old(vfs)))
                        }
                    },
                }
            }),
    {
        if self.state != SegmentState::Active {
            return Err(SegmentError::Sealed);
        }
        let ghost before = self.record_index@;
        let position: u64 = self.record_index[self.record_index.len() - 1];
        let encoded: Vec<u8> = match record::encode_record(self.number, position, payload, self.alignment) {
            Ok(encoded) => encoded,
            Err(error) => {
                return Err(error);
            },
        };
        let encoded_size: u64 = encoded.len() as u64;
        if encoded_size > self.max_records_size {
            return Err(SegmentError::RecordTooLarge { size: encoded_size, max: self.max_records_size });
        }
        let next_position: u64 = match position.checked_add(encoded_size) {
            Some(next_position) => next_position,
            None => {
                return Err(SegmentError::OffsetExhausted);
            },
        };
        let records_limit: u64 = match (FILE_HEADER_SIZE as u64).checked_add(self.max_records_size) {
            Some(records_limit) => records_limit,
            None => {
                return Err(SegmentError::OffsetExhausted);
            },
        };
        if next_position > records_limit {
            return Ok(AppendResult::Full);
        }
        let actual_position: u64 = match vfs.append(&self.file, &encoded) {
            Ok(position) => position,
            Err(error) => {
                return Err(SegmentError::io(error));
            },
        };
        if actual_position != position {
            let mut message: String = String::from_str("segment append position is ");
            text::push_decimal(&mut message, actual_position);
            message.append(", expected ");
            text::push_decimal(&mut message, position);
            return Err(SegmentError::Io(message));
        }
        let offset: SegmentOffset = SegmentOffset::new((self.record_index.len() - 1) as u64);
        self.record_index.push(next_position);
        proof {
            let step = self.alignment as int;
            let bare = record::fragments(self.number as u32, position as int, payload@);
            framing::record_is_not_empty(
                record::FULL,
                self.number as u32,
                position - FILE_HEADER_SIZE,
                payload@,
                true,
            );
            align::aligned_bounds(bare.len() as int, step);
            align::multiples_add(position as int, encoded_size as int, step);
            assert(self.positions() =~= before);
            assert forall|i: int| 0 <= i < before.len() implies FILE_HEADER_SIZE <= #[trigger] before[i]
                < next_position && before[i] as int % step == 0 by {
                if i < before.len() - 1 {
                    assert(before.drop_last()[i] == before[i]);
                }
            }
            assert forall|i: int, j: int| 0 <= i < j < before.len() implies before[i] < before[j] by {
                if j < before.len() - 1 {
                    assert(before.drop_last()[i] < before.drop_last()[j]);
                } else {
                    assert(before.drop_last()[i] == before[i]);
                }
            }
            if before.len() > 1 {
                assert(before.drop_last()[0] == before[0]);
            }
        }
        Ok(AppendResult::Appended(offset))
    }

    /// Reads one payload by its segment-local offset.
    pub fn read<V: Vfs>(&self, vfs: &V, offset: SegmentOffset) -> (result: Result<Option<Vec<u8>>, SegmentError>)
        requires
            self.valid(vfs),
        ensures
            offset.value() >= self.positions().len() ==> (result matches Ok(found) && found is None),
            offset.value() < self.positions().len() ==> {
                let outcome = record::decoded_record(
                    self.number,
                    vfs.state().contents(&self.file),
                    self.record_index@[offset.value() as int] as int,
                    self.record_index@[offset.value() + 1] as int,
                    self.alignment as int,
                );
                match result {
                    Ok(found) => {
                        &&& found matches Some(payload)
                        &&& outcome == (Decoded::Record {
                            next: self.record_index@[offset.value() + 1] as int,
                            payload: payload@,
                        })
                    },
                    Err(error) => {
                        ||| error is Io && !vfs.dependable()
                        ||| record::decoding_error(self.file.path@, outcome, error@)
                        ||| outcome is Nothing && error@ == error::corrupt(
                            self.file.path@,
                            "segment index points to no record"@,
                        )
                        ||| {
                            &&& outcome matches Decoded::Record { next, .. }
                            &&& next != self.record_index@[offset.value() + 1]
                            &&& error@ == error::corrupt(
                                self.file.path@,
                                "segment index does not bound one record"@,
                            )
                        }
                    },
                }
            },
    {
        let index: u64 = offset.get();
        if index >= (self.record_index.len() - 1) as u64 {
            return Ok(None);
        }
        let index: usize = index as usize;
        let position: u64 = self.record_index[index];
        let end: u64 = self.record_index[index + 1];
        match record::read_record(vfs, &self.file, self.number, position, end, self.alignment) {
            Ok(payload) => Ok(Some(payload)),
            Err(error) => Err(error),
        }
    }

    /// Makes the segment immutable and writes its index and footer.
    pub fn seal<V: Vfs>(&mut self, vfs: &mut V) -> (result: Result<(), SegmentError>)
        requires
            old(self).valid(old(vfs)),
            envelope::index_size(old(self).positions().len(), old(self).alignment as int) <= usize::MAX,
        ensures
            final(self).same_segment(old(self)),
            final(self).record_index@ == old(self).record_index@,
            final(self).valid(final(vfs)),
            final(vfs).dependable() == old(vfs).dependable(),
            final(vfs).required_alignment() == old(vfs).required_alignment(),
            final(vfs).journal() == old(vfs).journal(),
            final(vfs).state().same_but(old(vfs).state(), old(self).file.id),
            old(self).state == SegmentState::Sealed ==> {
                &&& result is Ok
                &&& *final(self) == *old(self)
                &&& final(vfs).state() == old(vfs).state()
            },
            old(self).state != SegmentState::Sealed ==> {
                let end = old(self).records_end();
                let tail = envelope::seal_bytes(
                    old(self).number,
                    (end - FILE_HEADER_SIZE) as u64,
                    old(self).positions(),
                    old(self).alignment as int,
                );
                let error = envelope::seal_error(old(self).positions().len(), old(self).alignment);
                match result {
                    Ok(()) => {
                        &&& error is None
                        &&& final(self).state == SegmentState::Sealed
                        &&& final(vfs).state().contents(&old(self).file) == old(vfs).state().contents(
                            &old(self).file,
                        ).take(end) + tail
                    },
                    Err(found) => {
                        &&& final(self).state == old(self).state
                        &&& error is Some ==> error == Some(found@) && final(vfs).state() == old(vfs).state()
                        &&& error is None ==> found is Io && !(old(vfs).dependable() && end + tail.len() <= usize::MAX)
                    },
                }
            },
    {
        if self.state == SegmentState::Sealed {
            return Ok(());
        }
        let last: usize = self.record_index.len() - 1;
        let position: u64 = self.record_index[last];
        let records_size: u64 = position - FILE_HEADER_SIZE as u64;
        let positions: &[u64] = &self.record_index.as_slice()[0..last];
        assert(positions@ =~= self.positions());
        let encoded: Vec<u8> = match envelope::encode_index_footer(self.number, records_size, positions, self.alignment) {
            Ok(encoded) => encoded,
            Err(error) => {
                return Err(error);
            },
        };
        let ghost contents = vfs.state().contents(&self.file);
        match vfs.truncate(&self.file, position) {
            Ok(()) => {},
            Err(error) => {
                return Err(SegmentError::io(error));
            },
        }
        let actual_position: u64 = match vfs.append(&self.file, &encoded) {
            Ok(position) => position,
            Err(error) => {
                return Err(SegmentError::io(error));
            },
        };
        if actual_position != position {
            let mut message: String = String::from_str("segment tail position is ");
            text::push_decimal(&mut message, actual_position);
            message.append(", expected ");
            text::push_decimal(&mut message, position);
            return Err(SegmentError::Io(message));
        }
        assert(contents.take(position as int).take(position as int) =~= contents.take(position as int));
        self.state = SegmentState::Sealed;
        Ok(())
    }

    /// Opens a segment that was created before.
    pub fn open<V: Vfs>(vfs: &mut V, path: &str, max_records_size: u64) -> (result: Result<FileSegment, SegmentError>)
        ensures
            final(vfs).dependable() == old(vfs).dependable(),
            final(vfs).required_alignment() == old(vfs).required_alignment(),
            final(vfs).journal() == old(vfs).journal(),
            final(vfs).state() == old(vfs).state(),
            ({
                let id = old(vfs).state().names[path@];
                let opening = opening(
                    old(vfs).state().data[id],
                    path@,
                    old(vfs).required_alignment(),
                    max_records_size,
                );
                match result {
                    Ok(segment) => {
                        &&& old(vfs).state().names.contains_key(path@)
                        &&& segment.file.id == id
                        &&& segment.file.path@ == path@
                        &&& segment.valid(final(vfs))
                        &&& final(vfs).state() == old(vfs).state()
                        &&& segment.opens(opening, old(vfs).dependable())
                    },
                    Err(error) => {
                        ||| old(vfs).state().names.contains_key(path@) && opening == Opening::Failed(error@)
                        ||| error is Io && (old(vfs).dependable() ==> !old(vfs).state().names.contains_key(path@))
                    },
                }
            }),
    {
        let file: VfsFile = match vfs.open(path, OpenOptions::Existing) {
            Ok(file) => file,
            Err(error) => {
                return Err(SegmentError::io(error));
            },
        };
        FileSegment::open0(path, &*vfs, file, max_records_size)
    }

    /// Whether the segment is what its file says.
    pub open spec fn opens(&self, opening: Opening, dependable: bool) -> bool {
        &&& opening matches Opening::Opened { header, max_records_size, sealed, positions, end }
        &&& self.number == header.segment_number
        &&& self.alignment == header.alignment
        &&& self.max_records_size == max_records_size
        &&& sealed ==> self.state == SegmentState::Sealed && self.positions() == positions && self.records_end() == end
        &&& !sealed ==> self.state == SegmentState::NeedsRepair && self.positions().is_prefix_of(positions)
        &&& !sealed && dependable ==> self.positions() == positions && self.records_end() == end
    }

    /// Makes a segment of an opened file: from its index where it is sealed,
    /// from a scan of its records where it is not.
    pub fn open0<V: Vfs>(path: &str, vfs: &V, file: VfsFile, max_records_size: u64) -> (result: Result<
        FileSegment,
        SegmentError,
    >)
        requires
            vfs.state().holds(&file),
            file.path@ == path@,
        ensures
            ({
                let opening = opening(
                    vfs.state().contents(&file),
                    path@,
                    vfs.required_alignment(),
                    max_records_size,
                );
                match result {
                    Ok(segment) => {
                        &&& segment.file == file
                        &&& segment.valid(vfs)
                        &&& segment.opens(opening, vfs.dependable())
                    },
                    Err(error) => opening == Opening::Failed(error@) || error is Io && !vfs.dependable(),
                }
            }),
    {
        let ghost contents = vfs.state().contents(&file);
        let header: SegmentHeader = match envelope::read_file_header(vfs, &file, false) {
            Ok(header) => header,
            Err(error) => {
                return Err(error);
            },
        };
        let max_records_size: u64 = match align_max_records_size(max_records_size, header.alignment) {
            Ok(size) => size,
            Err(error) => {
                return Err(error);
            },
        };
        let required: usize = match record_alignment(vfs) {
            Ok(required) => required,
            Err(error) => {
                return Err(error);
            },
        };
        if header.alignment % required != 0 {
            let mut message: String = String::from_str("segment record alignment ");
            text::push_decimal(&mut message, header.alignment as u64);
            message.append(" does not satisfy VFS alignment ");
            text::push_decimal(&mut message, required as u64);
            return Err(SegmentError::Io(message));
        }
        match envelope::load_index(vfs, &file, header.alignment) {
            Err(error) => {
                return Err(error);
            },
            Ok(Some(loaded)) => {
                let LoadedIndex { segment_number, records_size, index } = loaded;
                if header.segment_number != segment_number {
                    let mut message: String = String::from_str("segment header identifies ");
                    text::push_decimal(&mut message, header.segment_number);
                    message.append(", but its footer identifies ");
                    text::push_decimal(&mut message, segment_number);
                    return Err(SegmentError::Corruption { path: String::from_str(path), message });
                }
                let records_end: u64 = match (FILE_HEADER_SIZE as u64).checked_add(records_size) {
                    Some(records_end) => records_end,
                    None => {
                        return Err(SegmentError::OffsetExhausted);
                    },
                };
                proof {
                    align::multiples_add(FILE_HEADER_SIZE as int, records_size as int, header.alignment as int);
                }
                let mut record_index: Vec<u64> = index;
                record_index.push(records_end);
                assert(record_index@.drop_last() =~= index@);
                return Ok(
                    FileSegment {
                        number: header.segment_number,
                        file,
                        max_records_size,
                        alignment: header.alignment,
                        record_index,
                        state: SegmentState::Sealed,
                    },
                );
            },
            Ok(None) => {},
        }
        let scan: SegmentScan = match record::scan_file(vfs, &file, true) {
            Ok(scan) => scan,
            Err(error) => {
                return Err(error);
            },
        };
        let mut record_index: Vec<u64> = scan.index;
        record_index.push(scan.valid_len);
        assert(record_index@.drop_last() =~= scan.index@);
        Ok(
            FileSegment {
                number: scan.segment_number,
                file,
                max_records_size,
                alignment: header.alignment,
                record_index,
                state: SegmentState::NeedsRepair,
            },
        )
    }

    /// How many records the segment holds.
    pub fn record_count(&self) -> (count: u64)
        ensures
            count == (if self.record_index@.len() > 0 {
                self.record_index@.len() - 1
            } else {
                0
            }),
    {
        (self.record_index.len().saturating_sub(1)) as u64
    }

    pub fn number(&self) -> (number: u64)
        ensures
            number == self.number,
    {
        self.number
    }

    /// Whether the segment waits to be sealed again.
    pub fn needs_repair(&self) -> (needed: bool)
        ensures
            needed == (self.state == SegmentState::NeedsRepair),
    {
        self.state == SegmentState::NeedsRepair
    }
}

/// The bytes of a segment file that holds the given records.
pub open spec fn unsealed_bytes(number: u64, records: Seq<Seq<u8>>, alignment: usize) -> Seq<u8> {
    envelope::file_header(number, alignment as u32) + record::stream_bytes(
        number,
        FILE_HEADER_SIZE as int,
        records,
        alignment as int,
    )
}

/// The bytes of a sealed segment file that holds the given records.
pub open spec fn sealed_bytes(number: u64, records: Seq<Seq<u8>>, alignment: usize) -> Seq<u8> {
    let before = unsealed_bytes(number, records, alignment);
    before + envelope::seal_bytes(
        number,
        (before.len() - FILE_HEADER_SIZE) as u64,
        record::stream_index(number, FILE_HEADER_SIZE as int, records, alignment as int),
        alignment as int,
    )
}

/// A sealed segment is opened with the index of its records, and each of them
/// is read back through it.
pub proof fn sealed_segment_is_reopened(
    number: u64,
    records: Seq<Seq<u8>>,
    alignment: usize,
    path: Seq<char>,
    required: Option<u64>,
    max_records_size: u64,
)
    requires
        number <= u32::MAX,
        envelope::is_alignment(alignment as int),
        vfs_alignment_error(required) is None,
        alignment as int % needed_alignment(required) as int == 0,
        align::aligned(max_records_size as int, alignment as int) <= u64::MAX,
        sealed_bytes(number, records, alignment).len() <= u64::MAX,
        envelope::index_size(records.len(), alignment as int) <= usize::MAX,
    ensures
        ({
            let contents = sealed_bytes(number, records, alignment);
            let end = unsealed_bytes(number, records, alignment).len() as int;
            let positions = record::stream_index(number, FILE_HEADER_SIZE as int, records, alignment as int);
            let index = positions.push(end as u64);
            &&& opening(contents, path, required, max_records_size) == (Opening::Opened {
                header: SegmentHeader { segment_number: number, alignment },
                max_records_size: align::aligned(max_records_size as int, alignment as int),
                sealed: true,
                positions,
                end,
            })
            &&& forall|i: int|
                0 <= i < records.len() ==> #[trigger] record::decoded_record(
                    number,
                    contents,
                    index[i] as int,
                    index[i + 1] as int,
                    alignment as int,
                ) == (Decoded::Record { next: index[i + 1] as int, payload: records[i] })
        }),
{
    let step = alignment as int;
    let header = envelope::file_header(number, alignment as u32);
    let stream = record::stream_bytes(number, FILE_HEADER_SIZE as int, records, step);
    let before = unsealed_bytes(number, records, alignment);
    let positions = record::stream_index(number, FILE_HEADER_SIZE as int, records, step);
    let contents = sealed_bytes(number, records, alignment);
    let tail = envelope::seal_bytes(number, (before.len() - FILE_HEADER_SIZE) as u64, positions, step);
    envelope::header_round_trip(number, alignment, Seq::empty(), false);
    assert(header + Seq::<u8>::empty() =~= header);
    assert(contents.take(FILE_HEADER_SIZE as int) =~= header);
    assert(FILE_HEADER_SIZE as int % step == 0);
    record::stream_index_is_index(number, FILE_HEADER_SIZE as int, records, alignment);
    assert(envelope::is_index(positions, before.len() as int, step));
    envelope::seal_round_trip(number, before, positions, alignment);
    assert forall|i: int| 0 <= i < records.len() implies #[trigger] record::decoded_record(
        number,
        contents,
        positions.push(before.len() as u64)[i] as int,
        positions.push(before.len() as u64)[i + 1] as int,
        step,
    ) == (Decoded::Record { next: positions.push(before.len() as u64)[i + 1] as int, payload: records[i] }) by {
        record::indexed_record_is_read(number, header, records, tail, alignment, i);
        assert(header + stream + tail =~= contents);
    }
}

/// A segment that was not sealed is opened with the positions of its records,
/// unless the last of them happen to look like an index and a footer.
pub proof fn unsealed_segment_is_recovered(
    number: u64,
    records: Seq<Seq<u8>>,
    alignment: usize,
    path: Seq<char>,
    required: Option<u64>,
    max_records_size: u64,
)
    requires
        number <= u32::MAX,
        envelope::is_alignment(alignment as int),
        vfs_alignment_error(required) is None,
        alignment as int % needed_alignment(required) as int == 0,
        align::aligned(max_records_size as int, alignment as int) <= u64::MAX,
        unsealed_bytes(number, records, alignment).len() <= u64::MAX,
    ensures
        ({
            let contents = unsealed_bytes(number, records, alignment);
            envelope::index_lookup(contents, alignment as int) is Missing ==> opening(
                contents,
                path,
                required,
                max_records_size,
            ) == (Opening::Opened {
                header: SegmentHeader { segment_number: number, alignment },
                max_records_size: align::aligned(max_records_size as int, alignment as int),
                sealed: false,
                positions: record::stream_index(number, FILE_HEADER_SIZE as int, records, alignment as int),
                end: contents.len() as int,
            })
        }),
{
    let header = envelope::file_header(number, alignment as u32);
    let contents = unsealed_bytes(number, records, alignment);
    envelope::header_round_trip(number, alignment, Seq::empty(), false);
    assert(header + Seq::<u8>::empty() =~= header);
    assert(contents.take(FILE_HEADER_SIZE as int) =~= header);
    record::stream_is_scanned(number, header, records, alignment);
}

/// A segment whose last record was cut, wherever that was, is opened with the
/// positions of the records before it, unless its end happens to look like an
/// index and a footer.
pub proof fn cut_segment_is_recovered(
    number: u64,
    records: Seq<Seq<u8>>,
    last: Seq<u8>,
    cut: int,
    alignment: usize,
    path: Seq<char>,
    required: Option<u64>,
    max_records_size: u64,
)
    requires
        number <= u32::MAX,
        envelope::is_alignment(alignment as int),
        vfs_alignment_error(required) is None,
        alignment as int % needed_alignment(required) as int == 0,
        align::aligned(max_records_size as int, alignment as int) <= u64::MAX,
        ({
            let whole = unsealed_bytes(number, records, alignment);
            let record = record::aligned_record(number, whole.len() as int, last, alignment as int);
            &&& 0 < cut < record.len()
            &&& whole.len() + record.len() <= u64::MAX
        }),
    ensures
        ({
            let whole = unsealed_bytes(number, records, alignment);
            let record = record::aligned_record(number, whole.len() as int, last, alignment as int);
            let contents = whole + record.take(cut);
            envelope::index_lookup(contents, alignment as int) is Missing ==> opening(
                contents,
                path,
                required,
                max_records_size,
            ) == (Opening::Opened {
                header: SegmentHeader { segment_number: number, alignment },
                max_records_size: align::aligned(max_records_size as int, alignment as int),
                sealed: false,
                positions: record::stream_index(number, FILE_HEADER_SIZE as int, records, alignment as int),
                end: whole.len() as int,
            })
        }),
{
    let header = envelope::file_header(number, alignment as u32);
    let whole = unsealed_bytes(number, records, alignment);
    let record = record::aligned_record(number, whole.len() as int, last, alignment as int);
    let contents = whole + record.take(cut);
    envelope::header_round_trip(number, alignment, Seq::empty(), false);
    assert(header + Seq::<u8>::empty() =~= header);
    assert(contents.take(FILE_HEADER_SIZE as int) =~= header);
    record::cut_stream_is_scanned(number, header, records, last, cut, alignment);
}

/// What stands at an offset of a segment, if the segment has it.
pub open spec fn record_at(segment: &FileSegment, contents: Seq<u8>, at: int) -> Option<Decoded> {
    if 0 <= at < segment.positions().len() {
        Some(
            record::decoded_record(
                segment.number,
                contents,
                segment.record_index@[at] as int,
                segment.record_index@[at + 1] as int,
                segment.alignment as int,
            ),
        )
    } else {
        None
    }
}

/// A segment that lists the same records, and more, answers as before for
/// them while their bytes stay.
proof fn answers_stay(before: &FileSegment, after: &FileSegment, held: Seq<u8>, holds: Seq<u8>, at: int)
    requires
        before.record_index@.len() > 0,
        envelope::is_alignment(before.alignment as int),
        envelope::is_index(before.positions(), before.records_end(), before.alignment as int),
        before.records_end() <= held.len(),
        before.records_end() <= holds.len(),
        held.take(before.records_end()) == holds.take(before.records_end()),
        after.same_segment(before),
        before.record_index@.is_prefix_of(after.record_index@),
        0 <= at < before.positions().len(),
    ensures
        record_at(after, holds, at) == record_at(before, held, at),
{
    let end = before.record_index@[at + 1] as int;
    let last = before.records_end();
    assert(before.positions()[at] == before.record_index@[at]);
    if at + 1 < before.positions().len() {
        assert(before.positions()[at + 1] == before.record_index@[at + 1]);
    }
    assert(end <= last);
    assert(held.take(end) =~= held.take(last).take(end));
    assert(holds.take(end) =~= holds.take(last).take(end));
    record::decoding_is_local(
        before.number as u32,
        held,
        holds,
        before.record_index@[at] as int,
        end,
        before.alignment as int,
        false,
        Seq::empty(),
    );
}

/// A record that was appended is read back at its offset, and the records
/// before it are read as before.
pub proof fn appended_record_is_read<V: Vfs>(
    before: &FileSegment,
    after: &FileSegment,
    earlier: &V,
    later: &V,
    payload: Seq<u8>,
)
    requires
        before.valid(earlier),
        before.append_error(payload) is None,
        !before.is_full_for(payload),
        after.same_segment(before),
        ({
            let end = before.records_end();
            let record = record::aligned_record(before.number, end, payload, before.alignment as int);
            &&& after.record_index@ == before.record_index@.push((end + record.len()) as u64)
            &&& later.state().contents(&after.file) == vfs::overwritten(
                earlier.state().contents(&before.file),
                end,
                record,
            )
            &&& later.state().contents(&after.file).len() <= u64::MAX
        }),
    ensures
        after.positions().len() == before.positions().len() + 1,
        record_at(after, later.state().contents(&after.file), before.positions().len() as int) == Some(
            Decoded::Record { next: after.records_end(), payload },
        ),
        forall|at: int|
            0 <= at < before.positions().len() ==> #[trigger] record_at(after, later.state().contents(&after.file), at)
                == record_at(before, earlier.state().contents(&before.file), at),
{
    let held = earlier.state().contents(&before.file);
    let holds = later.state().contents(&after.file);
    let end = before.records_end();
    let step = before.alignment as int;
    let record = record::aligned_record(before.number, end, payload, step);
    let front = held.take(end);
    let rest = if end + record.len() < held.len() {
        held.skip((end + record.len()) as int)
    } else {
        Seq::empty()
    };
    assert(holds =~= front + record + rest);
    assert(holds.take(end) =~= front);
    record::record_round_trip(before.number, front, payload, rest, before.alignment);
    let count = before.positions().len() as int;
    assert(after.record_index@[count] == end);
    assert(record::decoded_record(before.number, front + record + rest, end, (end + record.len()) as int, step)
        is Record);
    assert forall|at: int| 0 <= at < count implies #[trigger] record_at(after, holds, at) == record_at(
        before,
        held,
        at,
    ) by {
        answers_stay(before, after, held, holds, at);
    }
}

/// After a seal nothing can be appended, and every record is read as before.
pub proof fn sealed_segment_answers_alike<V: Vfs>(
    before: &FileSegment,
    after: &FileSegment,
    earlier: &V,
    later: &V,
    payload: Seq<u8>,
    at: int,
)
    requires
        before.valid(earlier),
        after.same_segment(before),
        after.record_index@ == before.record_index@,
        after.state == SegmentState::Sealed,
        ({
            let end = before.records_end();
            let tail = envelope::seal_bytes(
                before.number,
                (end - FILE_HEADER_SIZE) as u64,
                before.positions(),
                before.alignment as int,
            );
            let held = earlier.state().contents(&before.file);
            let holds = later.state().contents(&after.file);
            holds == (if before.state == SegmentState::Sealed {
                held
            } else {
                held.take(end) + tail
            })
        }),
    ensures
        after.append_error(payload) == Some(SegmentErrorView::Sealed),
        after.positions().len() == before.positions().len(),
        record_at(after, later.state().contents(&after.file), at) == record_at(
            before,
            earlier.state().contents(&before.file),
            at,
        ),
{
    let held = earlier.state().contents(&before.file);
    let holds = later.state().contents(&after.file);
    if 0 <= at < before.positions().len() {
        assert(holds.take(before.records_end()) =~= held.take(before.records_end()));
        answers_stay(before, after, held, holds, at);
    }
}

/// Two offsets are equal exactly where their numbers are.
pub proof fn equal_offsets_are_one_number(left: SegmentOffset, right: SegmentOffset)
    ensures
        left == right <==> left.value() == right.value(),
{
}

/// A segment is created where 4096 is a multiple of the filesystem's alignment
/// and the record area, rounded up to it, can be addressed. A filesystem without
/// an alignment gets pages of 4096 bytes.
pub proof fn segments_have_whole_steps(required: Option<u64>, max_records_size: u64)
    ensures
        ({
            let step: int = match required {
                Some(alignment) => alignment as int,
                None => 4096,
            };
            &&& needed_alignment(required) == step
            &&& creation_error(required, max_records_size) is None ==> 0 < step <= 4096 && 4096int % step == 0
            &&& 0 < step && 4096int % step == 0 && max_records_size + step <= u64::MAX ==> creation_error(
                required,
                max_records_size,
            ) is None
        }),
{
    let step = needed_alignment(required) as int;
    if step > 0 && 4096int % step == 0 {
        envelope::alignment_is_small(step);
        align::aligned_bounds(max_records_size as int, step);
    }
}

/// A segment that opens was checked: its header is one that was written, its
/// alignment is a multiple of the filesystem's, and where it is sealed its footer
/// names the same segment.
pub proof fn opened_segment_was_checked(
    contents: Seq<u8>,
    path: Seq<char>,
    required: Option<u64>,
    max_records_size: u64,
)
    ensures
        opening(contents, path, required, max_records_size) matches Opening::Opened {
            header,
            max_records_size: size,
            sealed,
            positions,
            end,
        } ==> {
            &&& contents.len() >= 4096
            &&& contents.take(32) == envelope::file_header(header.segment_number, header.alignment as u32).take(32)
            &&& header.alignment > 0 && header.alignment as int % needed_alignment(required) as int == 0
            &&& max_records_size <= size < max_records_size + header.alignment
            &&& size % header.alignment as int == 0
            &&& sealed ==> 4096 <= end <= contents.len() && contents.skip(end) == envelope::seal_bytes(
                header.segment_number,
                (end - 4096) as u64,
                positions,
                header.alignment as int,
            )
        },
{
    if let Opening::Opened { header, max_records_size: size, sealed, positions, end } = opening(
        contents,
        path,
        required,
        max_records_size,
    ) {
        let bytes = contents.take(FILE_HEADER_SIZE as int);
        assert(contents.len() >= FILE_HEADER_SIZE);
        envelope::read_header_was_written(bytes, false);
        assert(bytes.take(32) =~= contents.take(32));
        align::aligned_bounds(max_records_size as int, header.alignment as int);
        envelope::found_index_was_sealed(contents, header.alignment as int);
    }
}

/// A record is appended where it ends inside the record area, and the segment is
/// full where it does not, unless the segment is sealed, its number is too large
/// or no record area of its size holds the record.
pub proof fn records_fill_their_area(segment: &FileSegment, payload: Seq<u8>)
    requires
        segment.records_end() >= 4096,
        segment.max_records_size + 4096 <= u64::MAX,
    ensures
        ({
            let record = record::aligned_record(
                segment.number,
                segment.records_end(),
                payload,
                segment.alignment as int,
            );
            let end = segment.records_end() + record.len();
            &&& segment.append_error(payload) is None && !segment.is_full_for(payload) ==> end
                <= 4096 + segment.max_records_size
            &&& segment.state == SegmentState::Active && segment.number <= 0xffff_ffff && end <= 4096
                + segment.max_records_size ==> segment.append_error(payload) is None && !segment.is_full_for(payload)
            &&& segment.state != SegmentState::Active ==> segment.append_error(payload) == Some(
                SegmentErrorView::Sealed,
            )
            &&& record.len() > segment.max_records_size ==> segment.append_error(payload) is Some
            &&& record.len() <= segment.max_records_size && end > 4096 + segment.max_records_size
                ==> segment.is_full_for(payload)
        }),
{
}

/// An alignment that memory cannot address exhausts the offsets. Any other that
/// does not divide a page is an error of the filesystem.
pub proof fn odd_alignments_are_told_apart(required: Option<u64>)
    ensures
        ({
            let step = needed_alignment(required);
            &&& step > usize::MAX ==> vfs_alignment_error(required) == Some(SegmentErrorView::OffsetExhausted)
            &&& step <= usize::MAX ==> (vfs_alignment_error(required) is None <==> step > 0 && 4096int % step as int
                == 0)
            &&& step <= usize::MAX && vfs_alignment_error(required) is Some ==> vfs_alignment_error(required)->0 is Io
        }),
{
}

/// A segment that was opened is what its file says: a sealed one takes no more
/// records, and one that is not sealed is repaired before it does.
pub proof fn opened_segment_is_what_its_file_says(segment: &FileSegment, opening: Opening, dependable: bool)
    requires
        segment.opens(opening, dependable),
    ensures
        opening is Opened,
        ({
            let header = opening->header;
            &&& segment.number == header.segment_number
            &&& segment.alignment == header.alignment
            &&& segment.max_records_size == opening->max_records_size
            &&& segment.state != SegmentState::Active
            &&& segment.state == SegmentState::Sealed <==> opening->sealed
            &&& opening->sealed || dependable ==> segment.positions() == opening->positions && segment.records_end()
                == opening->end
            &&& segment.positions().len() <= opening->positions.len()
            &&& forall|i: int|
                0 <= i < segment.positions().len() ==> #[trigger] segment.positions()[i] == opening->positions[i]
        }),
{
}

} // verus!
