//! Streaming scan of segments whose records are padded to pages.

use vstd::prelude::*;
use crate::align;
use crate::bytestr;
use crate::crc;
use crate::framing;
use crate::framing::{Fragment, RecordFault, RecordType, BLOCK_SIZE, HEADER_SIZE};
use crate::le;
use crate::segment::envelope;
use crate::segment::envelope::{SegmentHeader, ALIGNMENT, FILE_HEADER_SIZE};
use crate::segment::error;
use crate::segment::error::{SegmentError, SegmentErrorView};
use crate::segment::record;
use crate::segment::record::{SegmentScan, FULL};
use crate::vfs::{OpenOptions, Vfs, VfsFile};

verus! {

/// Where a scan stands.
pub struct ScanState {
    pub position: int,
    /// Where the last whole record, or the padding after it, ends.
    pub good_end: int,
    pub fragmented: bool,
    /// The fragments of the record that is being read, and where it starts.
    pub gathered: Seq<u8>,
    pub record_position: int,
}

/// What a scan comes to next.
pub enum ScanOutcome {
    Record { start: int, payload: Seq<u8>, state: ScanState },
    End { good_end: int },
    /// What the end of a file that was cut may look like.
    Tail { fault: RecordFault, good_end: int },
    /// What no cut explains.
    Hard { fault: RecordFault, good_end: int },
    /// The file ends before where it is said to end.
    Starved,
}

/// Where the block that holds `position` starts.
pub open spec fn block_start(position: int) -> int {
    position - (position - FILE_HEADER_SIZE) % (BLOCK_SIZE as int)
}

/// Where the part of the block that belongs to the file ends.
pub open spec fn block_end(position: int, len: int) -> int {
    if block_start(position) + BLOCK_SIZE < len {
        block_start(position) + BLOCK_SIZE
    } else {
        len
    }
}

/// Where the page that holds `position` ends, or the file before it.
pub open spec fn page_end(position: int, len: int) -> int {
    let next = align::aligned(position + 1, ALIGNMENT as int);
    if next < len {
        next
    } else {
        len
    }
}

/// Whether a scan stands between records, at zeros up to the end of its page
/// that are too few to be a header.
pub open spec fn at_short_padding(contents: Seq<u8>, len: int, state: ScanState) -> bool {
    let next = page_end(state.position, len);
    &&& !state.fragmented
    &&& next - state.position < HEADER_SIZE
    &&& bytestr::is_zero(contents.subrange(state.position, next))
}

/// What the scan of a file of `len` bytes comes to next.
pub open spec fn next_outcome(segment_number: u32, contents: Seq<u8>, len: int, state: ScanState) -> ScanOutcome
    decreases len - state.position,
{
    let position = state.position;
    let room = framing::room(position - FILE_HEADER_SIZE);
    let left = len - position;
    if left <= 0 {
        if state.fragmented {
            ScanOutcome::Tail { fault: RecordFault::IncompleteFragmentsAtEnd, good_end: state.good_end }
        } else {
            ScanOutcome::End { good_end: state.good_end }
        }
    } else if block_end(position, len) > contents.len() {
        ScanOutcome::Starved
    } else if room < HEADER_SIZE {
        let size = if left < room { left } else { room };
        if !bytestr::is_zero(contents.subrange(position, position + size)) {
            ScanOutcome::Tail { fault: RecordFault::DirtyTrailer, good_end: state.good_end }
        } else {
            next_outcome(segment_number, contents, len, skipped(state, position + size))
        }
    } else if left < HEADER_SIZE {
        if bytestr::is_zero(contents.subrange(position, len)) && !state.fragmented {
            ScanOutcome::End { good_end: len }
        } else {
            ScanOutcome::Tail { fault: RecordFault::HeaderCut, good_end: state.good_end }
        }
    } else if at_short_padding(contents, len, state) {
        proof {
            align::aligned_bounds(position + 1, ALIGNMENT as int);
        }
        next_outcome(segment_number, contents, len, skipped(state, page_end(position, len)))
    } else {
        let bytes = contents.subrange(position, block_end(position, len));
        proof {
            framing::fragment_is_inside(FULL, segment_number, bytes, room, left);
            align::aligned_bounds(position + 1, ALIGNMENT as int);
        }
        match framing::fragment_at(FULL, segment_number, bytes, room, left) {
            Fragment::Starved => ScanOutcome::Starved,
            Fragment::Faulty(RecordFault::ZeroHeader) => {
                let next = page_end(position, len);
                if !bytestr::is_zero(contents.subrange(position, next)) {
                    ScanOutcome::Tail { fault: RecordFault::DirtyPage, good_end: state.good_end }
                } else {
                    next_outcome(segment_number, contents, len, skipped(state, next))
                }
            },
            Fragment::Faulty(RecordFault::CrossesBlock) => ScanOutcome::Tail {
                fault: RecordFault::BodyCut,
                good_end: state.good_end,
            },
            Fragment::Faulty(fault) => ScanOutcome::Tail { fault, good_end: state.good_end },
            Fragment::Valid(kind, fragment) => {
                let next = position + HEADER_SIZE + fragment.len();
                let gathered = state.gathered + fragment;
                match kind {
                    RecordType::Full => if state.fragmented {
                        ScanOutcome::Hard { fault: RecordFault::FullInside, good_end: state.good_end }
                    } else {
                        ScanOutcome::Record {
                            start: position,
                            payload: fragment,
                            state: ScanState { position: next, good_end: next, ..state },
                        }
                    },
                    RecordType::First => if state.fragmented {
                        ScanOutcome::Hard { fault: RecordFault::FirstInside, good_end: state.good_end }
                    } else {
                        next_outcome(
                            segment_number,
                            contents,
                            len,
                            ScanState {
                                position: next,
                                fragmented: true,
                                gathered,
                                record_position: position,
                                ..state
                            },
                        )
                    },
                    RecordType::Middle => if !state.fragmented {
                        ScanOutcome::Hard { fault: RecordFault::MiddleAlone, good_end: state.good_end }
                    } else {
                        next_outcome(
                            segment_number,
                            contents,
                            len,
                            ScanState { position: next, gathered, ..state },
                        )
                    },
                    RecordType::Last => if !state.fragmented {
                        ScanOutcome::Hard { fault: RecordFault::LastAlone, good_end: state.good_end }
                    } else {
                        ScanOutcome::Record {
                            start: state.record_position,
                            payload: gathered,
                            state: ScanState {
                                position: next,
                                good_end: next,
                                fragmented: false,
                                gathered: Seq::empty(),
                                ..state
                            },
                        }
                    },
                }
            },
        }
    }
}

/// The state after zeros up to `next` were passed.
pub open spec fn skipped(state: ScanState, next: int) -> ScanState {
    ScanState {
        position: next,
        good_end: if state.fragmented {
            state.good_end
        } else {
            next
        },
        ..state
    }
}

/// A record that a scan found, and where it starts.
#[derive(Debug)]
pub struct ScannedRecord {
    pub position: u64,
    pub payload: Vec<u8>,
}

/// What reading a fragment comes to.
enum FragmentRead {
    Fragment(RecordType, Vec<u8>),
    Faulty(RecordFault),
    Failed(SegmentError),
}

/// Reads the records of a segment file one after another, a block at a time.
pub struct SegmentScanner {
    file: VfsFile,
    file_len: u64,
    segment_number: u64,
    tolerate_tail: bool,
    position: u64,
    last_good_end: u64,
    fragments: Vec<u8>,
    fragmented: bool,
    record_position: u64,
    /// Where the cached block starts, if one is cached.
    block_start: Option<u64>,
    block: Vec<u8>,
    finished: bool,
}

impl SegmentScanner {
    /// The file that is read.
    pub closed spec fn source(&self) -> VfsFile {
        self.file
    }

    /// How many bytes of the file are read.
    pub closed spec fn len(&self) -> int {
        self.file_len as int
    }

    pub closed spec fn number(&self) -> u64 {
        self.segment_number
    }

    pub closed spec fn tolerates(&self) -> bool {
        self.tolerate_tail
    }

    pub closed spec fn is_finished(&self) -> bool {
        self.finished
    }

    /// Where the records that were read end.
    pub closed spec fn good_end(&self) -> int {
        self.last_good_end as int
    }

    /// Where the scan stands.
    pub closed spec fn state(&self) -> ScanState {
        ScanState {
            position: self.position as int,
            good_end: self.last_good_end as int,
            fragmented: self.fragmented,
            gathered: self.fragments@,
            record_position: self.record_position as int,
        }
    }

    /// The scanner stands inside its file, and what it keeps of the file is
    /// what the file holds.
    pub closed spec fn valid<V: Vfs>(&self, vfs: &V) -> bool {
        let contents = vfs.state().contents(&self.file);
        &&& vfs.state().holds(&self.file)
        &&& self.segment_number <= u32::MAX
        &&& FILE_HEADER_SIZE <= self.position
        &&& !self.fragmented ==> self.fragments@.len() == 0
        &&& self.block_start matches Some(start) ==> {
            &&& FILE_HEADER_SIZE <= start < self.file_len
            &&& (start - FILE_HEADER_SIZE) % (BLOCK_SIZE as int) == 0
            &&& block_end(start as int, self.file_len as int) <= contents.len()
            &&& self.block@ == contents.subrange(start as int, block_end(start as int, self.file_len as int))
        }
    }

    /// A scanner of all records of an opened file.
    pub fn open0<V: Vfs>(vfs: &V, file: &VfsFile, tolerate_tail: bool) -> (result: Result<
        SegmentScanner,
        SegmentError,
    >)
        requires
            vfs.state().holds(file),
        ensures
            ({
                let contents = vfs.state().contents(file);
                let number = envelope::header_value(contents.take(FILE_HEADER_SIZE as int)).segment_number;
                match result {
                    Ok(scanner) => {
                        &&& envelope::file_header_fault(contents, true) is None
                        &&& number <= u32::MAX
                        &&& scanner.valid(vfs)
                        &&& scanner.source().id == file.id
                        &&& scanner.source().path@ == file.path@
                        &&& scanner.len() == contents.len()
                        &&& scanner.number() == number
                        &&& scanner.tolerates() == tolerate_tail
                        &&& !scanner.is_finished()
                        &&& scanner.good_end() == FILE_HEADER_SIZE
                        &&& scanner.state() == fresh_state(FILE_HEADER_SIZE as int)
                    },
                    Err(error) => {
                        ||| envelope::file_header_fault(contents, true) matches Some(message) && error@
                            == error::corrupt(file.path@, message)
                        ||| error is Io && !vfs.dependable()
                        ||| {
                            &&& envelope::file_header_fault(contents, true) is None
                            &&& number > u32::MAX
                            &&& error@ == error::corrupt(file.path@, RecordFault::SegmentNumberRange.words())
                        }
                    },
                }
            }),
    {
        let header: SegmentHeader = match envelope::read_file_header(vfs, file, true) {
            Ok(header) => header,
            Err(error) => {
                return Err(error);
            },
        };
        let file_len: u64 = match vfs.size(file) {
            Ok(size) => size,
            Err(error) => {
                return Err(SegmentError::io(error));
            },
        };
        if header.segment_number > u32::MAX as u64 {
            return Err(SegmentError::record(file.path.as_str(), RecordFault::SegmentNumberRange));
        }
        let scanner = SegmentScanner {
            file: file.clone(),
            file_len,
            segment_number: header.segment_number,
            tolerate_tail,
            position: FILE_HEADER_SIZE as u64,
            last_good_end: FILE_HEADER_SIZE as u64,
            fragments: Vec::new(),
            fragmented: false,
            record_position: FILE_HEADER_SIZE as u64,
            block_start: None,
            block: Vec::new(),
            finished: false,
        };
        assert(scanner.fragments@ =~= Seq::<u8>::empty());
        Ok(scanner)
    }

    /// A scanner of the records between two positions.
    pub fn range<V: Vfs>(vfs: &V, file: &VfsFile, segment_number: u64, position: u64, end: u64) -> (result: Result<
        SegmentScanner,
        SegmentError,
    >)
        requires
            vfs.state().holds(file),
            FILE_HEADER_SIZE <= position,
        ensures
            match result {
                Ok(scanner) => {
                    &&& segment_number <= u32::MAX
                    &&& scanner.valid(vfs)
                    &&& scanner.source().id == file.id
                    &&& scanner.source().path@ == file.path@
                    &&& scanner.len() == end
                    &&& scanner.number() == segment_number
                    &&& !scanner.tolerates()
                    &&& !scanner.is_finished()
                    &&& scanner.state() == fresh_state(position as int)
                },
                Err(error) => segment_number > u32::MAX && error@ == error::corrupt(
                    file.path@,
                    RecordFault::SegmentNumberRange.words(),
                ),
            },
    {
        if segment_number > u32::MAX as u64 {
            return Err(SegmentError::record(file.path.as_str(), RecordFault::SegmentNumberRange));
        }
        let scanner = SegmentScanner {
            file: file.clone(),
            file_len: end,
            segment_number,
            tolerate_tail: false,
            position,
            last_good_end: position,
            fragments: Vec::new(),
            fragmented: false,
            record_position: position,
            block_start: None,
            block: Vec::new(),
            finished: false,
        };
        assert(scanner.fragments@ =~= Seq::<u8>::empty());
        Ok(scanner)
    }

    /// The path of the file that is read.
    pub fn path(&self) -> (path: String)
        ensures
            path@ == self.source().path@,
    {
        self.file.path.clone()
    }

    pub fn segment_number(&self) -> (number: u64)
        ensures
            number == self.number(),
    {
        self.segment_number
    }

    /// Where the records that were read end.
    pub fn valid_len(&self) -> (len: u64)
        ensures
            len == self.good_end(),
    {
        self.last_good_end
    }

    /// Reads bytes that stand in one block, and keeps the block.
    fn read_range<V: Vfs>(&mut self, vfs: &V, position: u64, length: usize) -> (result: Result<Vec<u8>, SegmentError>)
        requires
            old(self).valid(vfs),
            FILE_HEADER_SIZE <= position < old(self).file_len,
            position + length <= block_end(position as int, old(self).file_len as int),
        ensures
            final(self).valid(vfs),
            final(self).file == old(self).file,
            final(self).file_len == old(self).file_len,
            final(self).segment_number == old(self).segment_number,
            final(self).tolerate_tail == old(self).tolerate_tail,
            final(self).finished == old(self).finished,
            final(self).state() == old(self).state(),
            final(self).position == old(self).position,
            final(self).fragmented == old(self).fragmented,
            final(self).fragments == old(self).fragments,
            final(self).last_good_end == old(self).last_good_end,
            final(self).record_position == old(self).record_position,
            ({
                let contents = vfs.state().contents(&old(self).file);
                match result {
                    Ok(bytes) => {
                        &&& block_end(position as int, old(self).file_len as int) <= contents.len()
                        &&& bytes@ == contents.subrange(position as int, position + length)
                    },
                    Err(error) => error is Io && (vfs.dependable() ==> block_end(
                        position as int,
                        old(self).file_len as int,
                    ) > contents.len()),
                }
            }),
    {
        let ghost contents = vfs.state().contents(&self.file);
        let block_offset: u64 = (position - FILE_HEADER_SIZE as u64) % (BLOCK_SIZE as u64);
        let start: u64 = position - block_offset;
        proof {
            assert(start == block_start(position as int));
            assert((start - FILE_HEADER_SIZE) % (BLOCK_SIZE as int) == 0);
            assert(block_start(start as int) == start);
        }
        let cached: bool = match self.block_start {
            Some(block_start) => block_start == start,
            None => false,
        };
        if !cached {
            let left: u64 = self.file_len - start;
            let size: usize = if left < BLOCK_SIZE as u64 { left as usize } else { BLOCK_SIZE };
            let block: Vec<u8> = match vfs.read_at(&self.file, start, size) {
                Ok(block) => block,
                Err(error) => {
                    return Err(SegmentError::io(error));
                },
            };
            self.block = block;
            self.block_start = Some(start);
        }
        let from: usize = block_offset as usize;
        let bytes: Vec<u8> = bytestr::copy_range(&self.block, from, from + length);
        assert(bytes@ =~= contents.subrange(position as int, position + length));
        Ok(bytes)
    }
}

/// The page that holds a position ends inside its block.
proof fn page_stands_in_block(position: int, len: int)
    requires
        FILE_HEADER_SIZE <= position < len,
    ensures
        position < page_end(position, len) <= block_end(position, len),
{
    align::aligned_bounds(position + 1, ALIGNMENT as int);
    let next = align::aligned(position + 1, ALIGNMENT as int);
    let end = block_start(position) + BLOCK_SIZE;
    let block = (position - FILE_HEADER_SIZE) / (BLOCK_SIZE as int);
    let page = next / (ALIGNMENT as int);
    assert(end == ALIGNMENT * (9 + 8 * block));
    assert(next == ALIGNMENT * page);
    assert(page <= 9 + 8 * block);
}

impl SegmentScanner {
    /// Ends the scan where the file may have been cut.
    fn tail_error(&mut self, fault: RecordFault) -> (result: Option<Result<ScannedRecord, SegmentError>>)
        ensures
            final(self).finished,
            final(self).only_finished(old(self)),
            match result {
                None => old(self).tolerate_tail,
                Some(Err(error)) => !old(self).tolerate_tail && error@ == error::corrupt(
                    old(self).file.path@,
                    fault.words(),
                ),
                Some(Ok(_)) => false,
            },
    {
        self.finished = true;
        if self.tolerate_tail {
            None
        } else {
            Some(Err(SegmentError::record(self.file.path.as_str(), fault)))
        }
    }

    /// Ends the scan where no cut explains the bytes.
    fn hard_error(&mut self, fault: RecordFault) -> (result: Option<Result<ScannedRecord, SegmentError>>)
        ensures
            final(self).finished,
            final(self).only_finished(old(self)),
            match result {
                Some(Err(error)) => error@ == error::corrupt(old(self).file.path@, fault.words()),
                _ => false,
            },
    {
        self.finished = true;
        Some(Err(SegmentError::record(self.file.path.as_str(), fault)))
    }

    spec fn only_finished(&self, before: &SegmentScanner) -> bool {
        *self == (SegmentScanner { finished: self.finished, ..*before })
    }

    /// What a result of [`Self::next`] means.
    pub open spec fn steps<V: Vfs>(
        &self,
        before: &SegmentScanner,
        vfs: &V,
        result: Option<Result<ScannedRecord, SegmentError>>,
    ) -> bool {
        let outcome = next_outcome(
            before.number() as u32,
            vfs.state().contents(&before.source()),
            before.len(),
            before.state(),
        );
        if before.is_finished() {
            &&& result is None
            &&& self.is_finished()
            &&& self.good_end() == before.good_end()
        } else {
            match (outcome, result) {
                (ScanOutcome::Record { start, payload, state }, Some(Ok(record))) => {
                    &&& record.position == start
                    &&& record.payload@ == payload
                    &&& self.state() == state
                    &&& self.good_end() == state.good_end
                    &&& !self.is_finished()
                },
                (ScanOutcome::End { good_end }, None) => self.is_finished() && self.good_end() == good_end,
                (ScanOutcome::Tail { fault, good_end }, None) => {
                    &&& before.tolerates()
                    &&& self.is_finished()
                    &&& self.good_end() == good_end
                },
                (ScanOutcome::Tail { fault, good_end }, Some(Err(error))) => {
                    &&& self.is_finished()
                    &&& {
                        ||| !before.tolerates() && error@ == error::corrupt(before.source().path@, fault.words())
                        ||| error is Io && !vfs.dependable()
                    }
                },
                (ScanOutcome::Hard { fault, good_end }, Some(Err(error))) => {
                    &&& self.is_finished()
                    &&& {
                        ||| error@ == error::corrupt(before.source().path@, fault.words())
                        ||| error is Io && !vfs.dependable()
                    }
                },
                (ScanOutcome::Starved, Some(Err(error))) => self.is_finished() && error is Io,
                (_, Some(Err(error))) => self.is_finished() && error is Io && !vfs.dependable(),
                _ => false,
            }
        }
    }

    /// Reads the fragment at the position of the scan.
    fn read_fragment<V: Vfs>(&mut self, vfs: &V, block_remaining: usize, file_remaining: u64) -> (result: FragmentRead)
        requires
            old(self).valid(vfs),
            old(self).position + file_remaining == old(self).file_len,
            block_remaining == framing::room(old(self).position - FILE_HEADER_SIZE),
            HEADER_SIZE <= block_remaining,
            HEADER_SIZE <= file_remaining,
        ensures
            final(self).valid(vfs),
            *final(self) == (SegmentScanner {
                block: final(self).block,
                block_start: final(self).block_start,
                ..*old(self)
            }),
            ({
                let contents = vfs.state().contents(&old(self).file);
                let end = block_end(old(self).position as int, old(self).file_len as int);
                let found = framing::fragment_at(
                    FULL,
                    old(self).segment_number as u32,
                    contents.subrange(old(self).position as int, end),
                    block_remaining as int,
                    file_remaining as int,
                );
                match result {
                    FragmentRead::Fragment(kind, payload) => end <= contents.len() && found == Fragment::Valid(
                        kind,
                        payload@,
                    ),
                    FragmentRead::Faulty(fault) => {
                        &&& end <= contents.len()
                        &&& found matches Fragment::Faulty(why)
                        &&& fault == (if why is CrossesBlock {
                            RecordFault::BodyCut
                        } else {
                            why
                        })
                    },
                    FragmentRead::Failed(error) => error is Io && (vfs.dependable() ==> end > contents.len()),
                }
            }),
    {
        let position: u64 = self.position;
        let ghost contents = vfs.state().contents(&self.file);
        let ghost end = block_end(position as int, self.file_len as int);
        let header: Vec<u8> = match self.read_range(vfs, position, HEADER_SIZE) {
            Ok(header) => header,
            Err(error) => {
                return FragmentRead::Failed(error);
            },
        };
        let ghost bytes = contents.subrange(position as int, end);
        proof {
            reveal(framing::fragment_at);
            assert(header@ =~= bytes.take(HEADER_SIZE as int));
        }
        if bytestr::all_zero(&header) {
            return FragmentRead::Faulty(RecordFault::ZeroHeader);
        }
        let expected_checksum: u32 = le::get_u32(&header, 0);
        let fragment_len: usize = le::get_u16(&header, 4) as usize;
        let kind_byte: u8 = header[6];
        let log_number: u32 = le::get_u32(&header, 7);
        let physical_len: usize = HEADER_SIZE + fragment_len;
        if physical_len > block_remaining || physical_len as u64 > file_remaining {
            return FragmentRead::Faulty(RecordFault::BodyCut);
        }
        if log_number as u64 != self.segment_number {
            return FragmentRead::Faulty(RecordFault::WrongSegment);
        }
        let kind: RecordType = match RecordType::decode(FULL, kind_byte) {
            Ok(kind) => kind,
            Err(fault) => {
                return FragmentRead::Faulty(fault);
            },
        };
        let fragment: Vec<u8> = if fragment_len == 0 {
            Vec::new()
        } else {
            match self.read_range(vfs, position + HEADER_SIZE as u64, fragment_len) {
                Ok(fragment) => fragment,
                Err(error) => {
                    return FragmentRead::Failed(error);
                },
            }
        };
        assert(fragment@ =~= bytes.subrange(HEADER_SIZE as int, physical_len as int));
        if crc::physical_checksum(kind_byte, log_number, &fragment) != expected_checksum {
            return FragmentRead::Faulty(RecordFault::ChecksumMismatch);
        }
        FragmentRead::Fragment(kind, fragment)
    }

    /// Where the page that is being read ends, or the file before it.
    fn page_limit(&self) -> (limit: u64)
        requires
            FILE_HEADER_SIZE <= self.position < self.file_len,
        ensures
            limit == page_end(self.position as int, self.file_len as int),
            self.position < limit <= block_end(self.position as int, self.file_len as int),
    {
        proof {
            page_stands_in_block(self.position as int, self.file_len as int);
        }
        match align::checked_align_up(self.position + 1, ALIGNMENT as u64) {
            Some(next_page) => if next_page < self.file_len {
                next_page
            } else {
                self.file_len
            },
            None => self.file_len,
        }
    }

    /// Finds the next record.
    #[verifier::rlimit(60)]
    pub fn next<V: Vfs>(&mut self, vfs: &V) -> (result: Option<Result<ScannedRecord, SegmentError>>)
        requires
            old(self).valid(vfs),
        ensures
            final(self).valid(vfs),
            final(self).source() == old(self).source(),
            final(self).len() == old(self).len(),
            final(self).number() == old(self).number(),
            final(self).tolerates() == old(self).tolerates(),
            final(self).steps(old(self), vfs, result),
    {
        if self.finished {
            return None;
        }
        let number: u32 = self.segment_number as u32;
        let ghost contents = vfs.state().contents(&self.file);
        let ghost wanted = next_outcome(number, contents, self.file_len as int, self.state());
        loop
            invariant
                self.valid(vfs),
                !self.finished,
                !old(self).finished,
                self.file == old(self).file,
                self.file_len == old(self).file_len,
                self.segment_number == old(self).segment_number,
                self.tolerate_tail == old(self).tolerate_tail,
                number == self.segment_number,
                contents == vfs.state().contents(&self.file),
                wanted == next_outcome(number, contents, old(self).file_len as int, old(self).state()),
                wanted == next_outcome(number, contents, self.file_len as int, self.state()),
            decreases self.file_len - self.position,
        {
            let position: u64 = self.position;
            if position >= self.file_len {
                if self.fragmented {
                    return self.tail_error(RecordFault::IncompleteFragmentsAtEnd);
                }
                self.finished = true;
                return None;
            }
            let block_remaining: usize = BLOCK_SIZE - ((position - FILE_HEADER_SIZE as u64) % (BLOCK_SIZE as u64))
                as usize;
            let file_remaining: u64 = self.file_len - position;
            let ghost end = block_end(position as int, self.file_len as int);
            if block_remaining < HEADER_SIZE {
                let available: usize = if file_remaining < block_remaining as u64 {
                    file_remaining as usize
                } else {
                    block_remaining
                };
                let trailer: Vec<u8> = match self.read_range(vfs, position, available) {
                    Ok(trailer) => trailer,
                    Err(error) => {
                        self.finished = true;
                        return Some(Err(error));
                    },
                };
                if !bytestr::all_zero(&trailer) {
                    return self.tail_error(RecordFault::DirtyTrailer);
                }
                self.position = position + available as u64;
                if !self.fragmented {
                    self.last_good_end = self.position;
                }
                continue;
            }
            if file_remaining < HEADER_SIZE as u64 {
                let tail: Vec<u8> = match self.read_range(vfs, position, file_remaining as usize) {
                    Ok(tail) => tail,
                    Err(error) => {
                        self.finished = true;
                        return Some(Err(error));
                    },
                };
                if bytestr::all_zero(&tail) && !self.fragmented {
                    self.last_good_end = self.file_len;
                    self.finished = true;
                    return None;
                }
                return self.tail_error(RecordFault::HeaderCut);
            }
            let next_page: u64 = self.page_limit();
            if !self.fragmented && next_page - position < HEADER_SIZE as u64 {
                let padding: Vec<u8> = match self.read_range(vfs, position, (next_page - position) as usize) {
                    Ok(padding) => padding,
                    Err(error) => {
                        self.finished = true;
                        return Some(Err(error));
                    },
                };
                if bytestr::all_zero(&padding) {
                    self.position = next_page;
                    self.last_good_end = next_page;
                    continue;
                }
            }
            let (kind, fragment): (RecordType, Vec<u8>) = match self.read_fragment(
                vfs,
                block_remaining,
                file_remaining,
            ) {
                FragmentRead::Fragment(kind, fragment) => (kind, fragment),
                FragmentRead::Faulty(RecordFault::ZeroHeader) => {
                    let padding: Vec<u8> = match self.read_range(vfs, position, (next_page - position) as usize) {
                        Ok(padding) => padding,
                        Err(error) => {
                            self.finished = true;
                            return Some(Err(error));
                        },
                    };
                    if !bytestr::all_zero(&padding) {
                        return self.tail_error(RecordFault::DirtyPage);
                    }
                    self.position = next_page;
                    if !self.fragmented {
                        self.last_good_end = self.position;
                    }
                    continue;
                },
                FragmentRead::Faulty(fault) => {
                    return self.tail_error(fault);
                },
                FragmentRead::Failed(error) => {
                    self.finished = true;
                    return Some(Err(error));
                },
            };
            proof {
                framing::fragment_is_inside(
                    FULL,
                    number,
                    contents.subrange(position as int, end),
                    block_remaining as int,
                    file_remaining as int,
                );
            }
            let next_position: u64 = position + HEADER_SIZE as u64 + fragment.len() as u64;
            match kind {
                RecordType::Full => {
                    if self.fragmented {
                        return self.hard_error(RecordFault::FullInside);
                    }
                    self.position = next_position;
                    self.last_good_end = next_position;
                    return Some(Ok(ScannedRecord { position, payload: fragment }));
                },
                RecordType::First => {
                    if self.fragmented {
                        return self.hard_error(RecordFault::FirstInside);
                    }
                    self.position = next_position;
                    self.fragmented = true;
                    self.record_position = position;
                    bytestr::put_bytes(&mut self.fragments, &fragment);
                },
                RecordType::Middle => {
                    if !self.fragmented {
                        return self.hard_error(RecordFault::MiddleAlone);
                    }
                    self.position = next_position;
                    bytestr::put_bytes(&mut self.fragments, &fragment);
                },
                RecordType::Last => {
                    if !self.fragmented {
                        return self.hard_error(RecordFault::LastAlone);
                    }
                    self.position = next_position;
                    bytestr::put_bytes(&mut self.fragments, &fragment);
                    self.fragmented = false;
                    self.last_good_end = next_position;
                    let mut payload: Vec<u8> = Vec::new();
                    payload.append(&mut self.fragments);
                    assert(self.fragments@ =~= Seq::<u8>::empty());
                    return Some(Ok(ScannedRecord { position: self.record_position, payload }));
                },
            }
        }
    }
}

/// Where a scan that starts at `position` stands.
pub open spec fn fresh_state(position: int) -> ScanState {
    ScanState {
        position,
        good_end: position,
        fragmented: false,
        gathered: Seq::empty(),
        record_position: position,
    }
}

/// What stops a scan.
pub enum ScanEnd {
    /// The records end at `good_end`.
    Clean { good_end: int },
    Failed(RecordFault),
    Starved,
}

/// Where the records start that a scan finds from a state on, and what stops
/// it.
pub open spec fn scan_all(
    segment_number: u32,
    contents: Seq<u8>,
    len: int,
    state: ScanState,
    tolerate_tail: bool,
) -> (Seq<u64>, ScanEnd)
    decreases len - state.position,
{
    match next_outcome(segment_number, contents, len, state) {
        ScanOutcome::Record { start, payload, state: after } => if state.position < after.position <= len {
            let (rest, end) = scan_all(segment_number, contents, len, after, tolerate_tail);
            (seq![start as u64] + rest, end)
        } else {
            (Seq::empty(), ScanEnd::Starved)
        },
        ScanOutcome::End { good_end } => (Seq::empty(), ScanEnd::Clean { good_end }),
        ScanOutcome::Tail { fault, good_end } => if tolerate_tail {
            (Seq::empty(), ScanEnd::Clean { good_end })
        } else {
            (Seq::empty(), ScanEnd::Failed(fault))
        },
        ScanOutcome::Hard { fault, good_end } => (Seq::empty(), ScanEnd::Failed(fault)),
        ScanOutcome::Starved => (Seq::empty(), ScanEnd::Starved),
    }
}

/// A scan stands after the record that it found, and before the end.
pub proof fn scan_moves_on(segment_number: u32, contents: Seq<u8>, len: int, state: ScanState)
    requires
        FILE_HEADER_SIZE <= state.position,
    ensures
        match next_outcome(segment_number, contents, len, state) {
            ScanOutcome::Record { state: after, .. } => state.position < after.position <= len,
            _ => true,
        },
    decreases len - state.position,
{
    let position = state.position;
    let room = framing::room(position - FILE_HEADER_SIZE);
    let left = len - position;
    if left > 0 && block_end(position, len) <= contents.len() {
        if room < HEADER_SIZE {
            let size = if left < room { left } else { room };
            scan_moves_on(segment_number, contents, len, skipped(state, position + size));
        } else if left >= HEADER_SIZE {
            let bytes = contents.subrange(position, block_end(position, len));
            framing::fragment_is_inside(FULL, segment_number, bytes, room, left);
            page_stands_in_block(position, len);
            scan_moves_on(segment_number, contents, len, skipped(state, page_end(position, len)));
            if let Fragment::Valid(kind, fragment) = framing::fragment_at(FULL, segment_number, bytes, room, left) {
                let next = position + HEADER_SIZE + fragment.len();
                let gathered = state.gathered + fragment;
                scan_moves_on(
                    segment_number,
                    contents,
                    len,
                    ScanState { position: next, fragmented: true, gathered, record_position: position, ..state },
                );
                scan_moves_on(segment_number, contents, len, ScanState { position: next, gathered, ..state });
            }
        }
    }
}

/// The records that a scan finds end after the file header.
pub proof fn scan_keeps_header(segment_number: u32, contents: Seq<u8>, len: int, state: ScanState)
    requires
        FILE_HEADER_SIZE <= state.position,
        FILE_HEADER_SIZE <= state.good_end,
    ensures
        match next_outcome(segment_number, contents, len, state) {
            ScanOutcome::Record { state: after, .. } => FILE_HEADER_SIZE <= after.good_end,
            ScanOutcome::End { good_end } => FILE_HEADER_SIZE <= good_end,
            ScanOutcome::Tail { good_end, .. } => FILE_HEADER_SIZE <= good_end,
            ScanOutcome::Hard { good_end, .. } => FILE_HEADER_SIZE <= good_end,
            ScanOutcome::Starved => true,
        },
    decreases len - state.position,
{
    let position = state.position;
    let room = framing::room(position - FILE_HEADER_SIZE);
    let left = len - position;
    if left > 0 && block_end(position, len) <= contents.len() {
        if room < HEADER_SIZE {
            let size = if left < room { left } else { room };
            scan_keeps_header(segment_number, contents, len, skipped(state, position + size));
        } else if left >= HEADER_SIZE {
            let bytes = contents.subrange(position, block_end(position, len));
            framing::fragment_is_inside(FULL, segment_number, bytes, room, left);
            page_stands_in_block(position, len);
            scan_keeps_header(segment_number, contents, len, skipped(state, page_end(position, len)));
            if let Fragment::Valid(kind, fragment) = framing::fragment_at(FULL, segment_number, bytes, room, left) {
                let next = position + HEADER_SIZE + fragment.len();
                let gathered = state.gathered + fragment;
                scan_keeps_header(
                    segment_number,
                    contents,
                    len,
                    ScanState { position: next, fragmented: true, gathered, record_position: position, ..state },
                );
                scan_keeps_header(segment_number, contents, len, ScanState { position: next, gathered, ..state });
            }
        }
    }
}

/// What is wrong with the start of a file, if anything.
pub open spec fn opening_fault(contents: Seq<u8>) -> Option<Seq<char>> {
    match envelope::file_header_fault(contents, true) {
        Some(message) => Some(message),
        None => if stored_number(contents) > u32::MAX {
            Some(RecordFault::SegmentNumberRange.words())
        } else {
            None
        },
    }
}

/// The segment number in a file's header.
pub open spec fn stored_number(contents: Seq<u8>) -> u64 {
    envelope::header_value(contents.take(FILE_HEADER_SIZE as int)).segment_number
}

/// A scan does not run out of bytes that the file holds.
pub proof fn held_file_is_scanned(segment_number: u32, contents: Seq<u8>, len: int, state: ScanState)
    requires
        FILE_HEADER_SIZE <= state.position,
        len <= contents.len(),
    ensures
        !(next_outcome(segment_number, contents, len, state) is Starved),
    decreases len - state.position,
{
    let position = state.position;
    let room = framing::room(position - FILE_HEADER_SIZE);
    let left = len - position;
    if left > 0 {
        if room < HEADER_SIZE {
            let size = if left < room { left } else { room };
            held_file_is_scanned(segment_number, contents, len, skipped(state, position + size));
        } else if left >= HEADER_SIZE {
            let bytes = contents.subrange(position, block_end(position, len));
            assert(bytes.len() == left || bytes.len() == room);
            reveal(framing::fragment_at);
            framing::fragment_is_inside(FULL, segment_number, bytes, room, left);
            page_stands_in_block(position, len);
            held_file_is_scanned(segment_number, contents, len, skipped(state, page_end(position, len)));
            if let Fragment::Valid(kind, fragment) = framing::fragment_at(FULL, segment_number, bytes, room, left) {
                let next = position + HEADER_SIZE + fragment.len();
                let gathered = state.gathered + fragment;
                held_file_is_scanned(
                    segment_number,
                    contents,
                    len,
                    ScanState { position: next, fragmented: true, gathered, record_position: position, ..state },
                );
                held_file_is_scanned(segment_number, contents, len, ScanState { position: next, gathered, ..state });
            }
        }
    }
}

/// Reads all records, and says where they start and, rounded up to a page,
/// where they end.
fn scan0<V: Vfs>(vfs: &V, scanner: SegmentScanner) -> (result: Result<SegmentScan, SegmentError>)
    requires
        scanner.valid(vfs),
        !scanner.is_finished(),
    ensures
        ({
            let (index, end) = scan_all(
                scanner.number() as u32,
                vfs.state().contents(&scanner.source()),
                scanner.len(),
                scanner.state(),
                scanner.tolerates(),
            );
            match result {
                Ok(scan) => {
                    &&& end matches ScanEnd::Clean { good_end }
                    &&& scan.segment_number == scanner.number()
                    &&& scan.index@ == index
                    &&& scan.valid_len == align::aligned(good_end, ALIGNMENT as int)
                },
                Err(error) => {
                    ||| error is Io && (end is Starved || !vfs.dependable())
                    ||| end matches ScanEnd::Failed(fault) && error@ == error::corrupt(
                        scanner.source().path@,
                        fault.words(),
                    )
                    ||| {
                        &&& end matches ScanEnd::Clean { good_end }
                        &&& align::aligned(good_end, ALIGNMENT as int) > u64::MAX
                        &&& error is OffsetExhausted
                    }
                },
            }
        }),
{
    let mut reader: SegmentScanner = scanner;
    let ghost number = reader.number() as u32;
    let ghost contents = vfs.state().contents(&reader.source());
    let ghost whole = scan_all(number, contents, reader.len(), reader.state(), reader.tolerates());
    let mut index: Vec<u64> = Vec::new();
    assert(Seq::<u64>::empty() + whole.0 =~= whole.0);
    loop
        invariant_except_break
            !reader.is_finished(),
            ({
                let rest = scan_all(number, contents, reader.len(), reader.state(), reader.tolerates());
                whole == (index@ + rest.0, rest.1)
            }),
        invariant
            reader.valid(vfs),
            number == reader.number() as u32,
            reader.source() == scanner.source(),
            reader.number() == scanner.number(),
            reader.len() == scanner.len(),
            reader.tolerates() == scanner.tolerates(),
            contents == vfs.state().contents(&reader.source()),
            whole == scan_all(
                scanner.number() as u32,
                vfs.state().contents(&scanner.source()),
                scanner.len(),
                scanner.state(),
                scanner.tolerates(),
            ),
        ensures
            whole == (index@, ScanEnd::Clean { good_end: reader.good_end() }),
        decreases reader.file_len - reader.position,
    {
        let ghost before = reader;
        proof {
            scan_moves_on(number, contents, reader.len(), reader.state());
        }
        match reader.next(vfs) {
            None => {
                assert(index@ + Seq::<u64>::empty() =~= index@);
                break;
            },
            Some(Err(error)) => {
                return Err(error);
            },
            Some(Ok(record)) => {
                proof {
                    let further = scan_all(number, contents, reader.len(), reader.state(), reader.tolerates());
                    assert(index@ + (seq![record.position] + further.0) =~= index@.push(record.position) + further.0);
                }
                index.push(record.position);
            },
        }
    }
    match align::checked_align_up(reader.valid_len(), ALIGNMENT as u64) {
        Some(valid_len) => Ok(SegmentScan { segment_number: reader.segment_number(), index, valid_len }),
        None => Err(SegmentError::OffsetExhausted),
    }
}

/// Whether the error is what the scan of a file comes to.
pub open spec fn scan_failure(
    path: Seq<char>,
    contents: Seq<u8>,
    tolerate_tail: bool,
    dependable: bool,
    error: SegmentErrorView,
) -> bool {
    let number = envelope::header_value(contents.take(FILE_HEADER_SIZE as int)).segment_number;
    let (index, end) = scan_all(
        number as u32,
        contents,
        contents.len() as int,
        fresh_state(FILE_HEADER_SIZE as int),
        tolerate_tail,
    );
    if envelope::file_header_fault(contents, true) is Some {
        ||| error == error::corrupt(path, envelope::file_header_fault(contents, true)->0)
        ||| error is Io && !dependable
    } else if number > u32::MAX {
        ||| error == error::corrupt(path, RecordFault::SegmentNumberRange.words())
        ||| error is Io && !dependable
    } else {
        ||| error is Io && (end is Starved || !dependable)
        ||| end matches ScanEnd::Failed(fault) && error == error::corrupt(path, fault.words())
        ||| {
            &&& end matches ScanEnd::Clean { good_end }
            &&& align::aligned(good_end, ALIGNMENT as int) > u64::MAX
            &&& error is OffsetExhausted
        }
    }
}

/// Finds the records of an opened segment file.
pub fn scan_file<V: Vfs>(vfs: &V, file: &VfsFile, tolerate_tail: bool) -> (result: Result<SegmentScan, SegmentError>)
    requires
        vfs.state().holds(file),
    ensures
        ({
            let contents = vfs.state().contents(file);
            let number = envelope::header_value(contents.take(FILE_HEADER_SIZE as int)).segment_number;
            match result {
                Ok(scan) => {
                    let (index, end) = scan_all(
                        number as u32,
                        contents,
                        contents.len() as int,
                        fresh_state(FILE_HEADER_SIZE as int),
                        tolerate_tail,
                    );
                    &&& envelope::file_header_fault(contents, true) is None
                    &&& number <= u32::MAX
                    &&& scan.segment_number == number
                    &&& scan.index@ == index
                    &&& end matches ScanEnd::Clean { good_end }
                    &&& scan.valid_len == align::aligned(good_end, ALIGNMENT as int)
                },
                Err(error) => scan_failure(file.path@, contents, tolerate_tail, vfs.dependable(), error@),
            }
        }),
{
    match SegmentScanner::open0(vfs, file, tolerate_tail) {
        Ok(scanner) => scan0(vfs, scanner),
        Err(error) => Err(error),
    }
}

/// Finds the records of the segment file at a path.
pub fn scan_segment<V: Vfs>(vfs: &mut V, path: &str, tolerate_tail: bool) -> (result: Result<SegmentScan, SegmentError>)
    ensures
        final(vfs).dependable() == old(vfs).dependable(),
        final(vfs).journal() == old(vfs).journal(),
        final(vfs).state() == old(vfs).state(),
        ({
            let contents = old(vfs).state().data[old(vfs).state().names[path@]];
            let number = envelope::header_value(contents.take(FILE_HEADER_SIZE as int)).segment_number;
            match result {
                Ok(scan) => {
                    let (index, end) = scan_all(
                        number as u32,
                        contents,
                        contents.len() as int,
                        fresh_state(FILE_HEADER_SIZE as int),
                        tolerate_tail,
                    );
                    &&& old(vfs).state().names.contains_key(path@)
                    &&& envelope::file_header_fault(contents, true) is None
                    &&& number <= u32::MAX
                    &&& scan.segment_number == number
                    &&& scan.index@ == index
                    &&& end matches ScanEnd::Clean { good_end }
                    &&& scan.valid_len == align::aligned(good_end, ALIGNMENT as int)
                },
                Err(error) => {
                    ||| error is Io && (old(vfs).dependable() ==> !old(vfs).state().names.contains_key(path@))
                    ||| old(vfs).state().names.contains_key(path@) && scan_failure(
                        path@,
                        contents,
                        tolerate_tail,
                        old(vfs).dependable(),
                        error@,
                    )
                },
            }
        }),
{
    match vfs.open(path, OpenOptions::Existing) {
        Ok(file) => scan_file(&*vfs, &file, tolerate_tail),
        Err(error) => Err(SegmentError::io(error)),
    }
}

/// Reads the record that an index says starts at `position`.
pub fn read_record<V: Vfs>(vfs: &V, file: &VfsFile, segment_number: u64, position: u64, end: u64) -> (result: Result<
    Vec<u8>,
    SegmentError,
>)
    requires
        vfs.state().holds(file),
        FILE_HEADER_SIZE <= position,
    ensures
        ({
            let outcome = next_outcome(
                segment_number as u32,
                vfs.state().contents(file),
                end as int,
                fresh_state(position as int),
            );
            if segment_number > u32::MAX {
                result matches Err(error) && error@ == error::corrupt(
                    file.path@,
                    RecordFault::SegmentNumberRange.words(),
                )
            } else {
                match result {
                    Ok(payload) => outcome matches ScanOutcome::Record { start, payload: found, .. } && start == position
                        && found == payload@,
                    Err(error) => {
                        ||| error is Io && (outcome is Starved || !vfs.dependable())
                        ||| outcome matches ScanOutcome::Tail { fault, .. } && error@ == error::corrupt(
                            file.path@,
                            fault.words(),
                        )
                        ||| outcome matches ScanOutcome::Hard { fault, .. } && error@ == error::corrupt(
                            file.path@,
                            fault.words(),
                        )
                        ||| outcome is End && error@ == error::corrupt(
                            file.path@,
                            "segment index points to no record"@,
                        )
                        ||| {
                            &&& outcome matches ScanOutcome::Record { start, .. }
                            &&& start != position
                            &&& error@ == error::corrupt(file.path@, "segment index points inside a record"@)
                        }
                    },
                }
            }
        }),
{
    let mut scanner: SegmentScanner = match SegmentScanner::range(vfs, file, segment_number, position, end) {
        Ok(scanner) => scanner,
        Err(error) => {
            return Err(error);
        },
    };
    match scanner.next(vfs) {
        Some(Ok(record)) => {
            if record.position == position {
                Ok(record.payload)
            } else {
                error::corruption(file.path.as_str(), "segment index points inside a record")
            }
        },
        Some(Err(error)) => Err(error),
        None => error::corruption(file.path.as_str(), "segment index points to no record"),
    }
}

/// The rest of a record that starts where a scan stands is what the scan finds.
proof fn rest_is_found(
    segment_number: u32,
    contents: Seq<u8>,
    len: int,
    state: ScanState,
    payload: Seq<u8>,
    first: bool,
)
    requires
        FILE_HEADER_SIZE <= state.position,
        framing::room(state.position - FILE_HEADER_SIZE) >= HEADER_SIZE,
        state.fragmented == !first,
        first ==> state.gathered.len() == 0 && state.position % ALIGNMENT as int == 0,
        len <= contents.len(),
        ({
            let record = framing::record_bytes(
                FULL,
                segment_number,
                state.position - FILE_HEADER_SIZE,
                payload,
                first,
            );
            &&& state.position + record.len() <= len
            &&& contents.subrange(state.position, state.position + record.len()) == record
        }),
    ensures
        ({
            let record = framing::record_bytes(
                FULL,
                segment_number,
                state.position - FILE_HEADER_SIZE,
                payload,
                first,
            );
            let stop = state.position + record.len();
            &&& next_outcome(segment_number, contents, len, state) matches ScanOutcome::Record {
                start,
                payload: found,
                state: after,
            }
            &&& start == (if first {
                state.position
            } else {
                state.record_position
            })
            &&& found == state.gathered + payload
            &&& stands_at(after, stop)
        }),
    decreases
        payload.len(),
        (if framing::room(state.position - FILE_HEADER_SIZE) == HEADER_SIZE {
            1int
        } else {
            0
        }),
{
    let position = state.position;
    let grid = position - FILE_HEADER_SIZE;
    let room = framing::room(grid);
    let record = framing::record_bytes(FULL, segment_number, grid, payload, first);
    let stop = position + record.len();
    framing::record_is_not_empty(FULL, segment_number, grid, payload, first);
    let size = framing::portion(payload.len(), room);
    let last = size == payload.len();
    let kind = RecordType::placed(first, last);
    let fragment = framing::fragment_bytes(kind.byte(FULL), segment_number, payload.take(size));
    framing::fragment_size(kind.byte(FULL), segment_number, payload.take(size));
    let next = position + HEADER_SIZE + size;
    assert(record.len() >= HEADER_SIZE + size);
    assert(next <= block_end(position, len));
    let bytes = contents.subrange(position, block_end(position, len));
    let after = bytes.skip(HEADER_SIZE + size);
    assert(bytes.take(HEADER_SIZE + size) =~= contents.subrange(position, stop).take(HEADER_SIZE + size));
    assert(record.take(HEADER_SIZE + size) =~= fragment);
    assert(bytes =~= fragment + after);
    framing::fragment_round_trip(FULL, kind, segment_number, payload.take(size), after, room, len - position);
    if last {
        assert(payload.take(size) =~= payload);
        if first {
            assert(state.gathered + payload =~= payload);
        }
    } else {
        let rest = framing::record_bytes(FULL, segment_number, grid + HEADER_SIZE + size, payload.skip(size), false);
        assert(record.skip(HEADER_SIZE + size) =~= rest);
        assert(contents.subrange(next, stop) =~= contents.subrange(position, stop).skip(HEADER_SIZE + size));
        let gathered = state.gathered + payload.take(size);
        let further = if first {
            ScanState { position: next, fragmented: true, gathered, record_position: position, ..state }
        } else {
            ScanState { position: next, gathered, ..state }
        };
        rest_is_found(segment_number, contents, len, further, payload.skip(size), false);
        assert(gathered + payload.skip(size) =~= state.gathered + payload);
    }
}

/// The scan stands between two records, at `position`.
pub open spec fn stands_at(state: ScanState, position: int) -> bool {
    &&& state.position == position
    &&& state.good_end == position
    &&& !state.fragmented
    &&& state.gathered.len() == 0
}

/// A scan goes past padding, where the contents end with it or hold a header's
/// length more.
pub proof fn padding_is_skipped(segment_number: u32, contents: Seq<u8>, len: int, state: ScanState)
    requires
        FILE_HEADER_SIZE <= state.position,
        stands_at(state, state.position),
        len <= contents.len(),
        align::aligned(state.position, ALIGNMENT as int) <= len,
        align::aligned(state.position, ALIGNMENT as int) == len || state.position + HEADER_SIZE <= len,
        bytestr::is_zero(contents.subrange(state.position, align::aligned(state.position, ALIGNMENT as int))),
    ensures
        next_outcome(segment_number, contents, len, state) == next_outcome(
            segment_number,
            contents,
            len,
            skipped(state, align::aligned(state.position, ALIGNMENT as int)),
        ),
{
    let stop = state.position;
    let next = align::aligned(stop, ALIGNMENT as int);
    let room = framing::room(stop - FILE_HEADER_SIZE);
    align::aligned_bounds(stop, ALIGNMENT as int);
    assert(next <= len);
    if next == stop {
        assert(skipped(state, next) == state);
    } else {
        let padding = contents.subrange(stop, next);
        align::aligned_bounds(stop + 1, ALIGNMENT as int);
        assert(page_end(stop, len) == next);
        if room < HEADER_SIZE {
            assert(next == stop + room);
        } else if next - stop >= HEADER_SIZE {
            assert(next <= block_end(stop, len));
            let bytes = contents.subrange(stop, block_end(stop, len));
            assert(bytes.take(HEADER_SIZE as int) =~= padding.take(HEADER_SIZE as int));
            reveal(framing::fragment_at);
            assert(bytestr::is_zero(bytes.take(HEADER_SIZE as int)));
        }
    }
}

/// The record that starts where a scan stands is what the scan finds, and what
/// [`read_record`] reads, whatever stands before and after it.
pub proof fn record_is_found(segment_number: u64, before: Seq<u8>, payload: Seq<u8>, after: Seq<u8>, state: ScanState)
    requires
        segment_number <= u32::MAX,
        FILE_HEADER_SIZE <= before.len(),
        before.len() as int % ALIGNMENT as int == 0,
        stands_at(state, before.len() as int),
    ensures
        ({
            let start = before.len() as int;
            let record = record::aligned_record(segment_number, start, payload, ALIGNMENT as int);
            let contents = before + record + after;
            let stop = start + record::fragments(segment_number as u32, start, payload).len();
            forall|len: int|
                stop <= len <= contents.len() ==> {
                    &&& #[trigger] next_outcome(segment_number as u32, contents, len, state) matches ScanOutcome::Record {
                        start: at,
                        payload: found,
                        state: further,
                    }
                    &&& at == start
                    &&& found == payload
                    &&& stands_at(further, stop)
                }
        }),
{
    let start = before.len() as int;
    let record = record::aligned_record(segment_number, start, payload, ALIGNMENT as int);
    let contents = before + record + after;
    let bare = record::fragments(segment_number as u32, start, payload);
    align::aligned_bounds(bare.len() as int, ALIGNMENT as int);
    assert(contents.subrange(start, start + bare.len()) =~= bare);
    assert forall|len: int| start + bare.len() <= len <= contents.len() implies {
        &&& #[trigger] next_outcome(segment_number as u32, contents, len, state) matches ScanOutcome::Record {
            start: at,
            payload: found,
            state: further,
        }
        &&& at == start
        &&& found == payload
        &&& stands_at(further, start + bare.len())
    } by {
        rest_is_found(segment_number as u32, contents, len, state, payload, true);
        assert(state.gathered + payload =~= payload);
    }
}

/// A scan finds the records that were appended, in order, and where they end.
pub proof fn stream_is_found(
    segment_number: u64,
    before: Seq<u8>,
    records: Seq<Seq<u8>>,
    state: ScanState,
    tolerate_tail: bool,
)
    requires
        segment_number <= u32::MAX,
        FILE_HEADER_SIZE <= before.len(),
        before.len() as int % ALIGNMENT as int == 0,
        stands_at(state, before.len() as int),
    ensures
        ({
            let start = before.len() as int;
            let contents = before + record::stream_bytes(segment_number, start, records, ALIGNMENT as int);
            scan_all(segment_number as u32, contents, contents.len() as int, state, tolerate_tail) == (
                record::stream_index(segment_number, start, records, ALIGNMENT as int),
                ScanEnd::Clean { good_end: contents.len() as int },
            )
        }),
    decreases records.len(),
{
    let number = segment_number as u32;
    let start = before.len() as int;
    let step = ALIGNMENT as int;
    let stream = record::stream_bytes(segment_number, start, records, step);
    let contents = before + stream;
    let len = contents.len() as int;
    if records.len() > 0 {
        let record = record::aligned_record(segment_number, start, records[0], step);
        let rest = record::stream_bytes(segment_number, start + record.len(), records.skip(1), step);
        let bare = record::fragments(number, start, records[0]);
        let stop = start + bare.len();
        let next = start + record.len();
        framing::record_is_not_empty(FULL, number, start - FILE_HEADER_SIZE, records[0], true);
        align::aligned_bounds(bare.len() as int, step);
        align::aligned_shift(bare.len() as int, start, step);
        align::multiples_add(start, record.len() as int, step);
        stream_is_whole_pages(segment_number, start, records);
        align::multiples_add(start, stream.len() as int, step);
        record_is_found(segment_number, before, records[0], rest, state);
        assert(before + record + rest =~= contents);
        let outcome = next_outcome(number, contents, len, state);
        if let ScanOutcome::Record { start: at, payload, state: after } = outcome {
            assert(contents.subrange(stop, next) =~= bytestr::zeros(next - stop));
            padding_is_skipped(number, contents, len, after);
            let further = skipped(after, next);
            scan_moves_on(number, contents, len, after);
            scan_moves_on(number, contents, len, further);
            assert(before + record + rest =~= (before + record) + rest);
            stream_is_found(segment_number, before + record, records.skip(1), further, tolerate_tail);
            assert(scan_all(number, contents, len, after, tolerate_tail) == scan_all(
                number,
                contents,
                len,
                further,
                tolerate_tail,
            ));
        }
    }
}

/// Padded records fill whole pages.
pub proof fn stream_is_whole_pages(segment_number: u64, position: int, records: Seq<Seq<u8>>)
    ensures
        record::stream_bytes(segment_number, position, records, ALIGNMENT as int).len() as int % ALIGNMENT as int == 0,
    decreases records.len(),
{
    if records.len() > 0 {
        let record = record::aligned_record(segment_number, position, records[0], ALIGNMENT as int);
        let bare = record::fragments(segment_number as u32, position, records[0]);
        align::aligned_bounds(bare.len() as int, ALIGNMENT as int);
        stream_is_whole_pages(segment_number, position + record.len(), records.skip(1));
        align::multiples_add(
            record.len() as int,
            record::stream_bytes(segment_number, position + record.len(), records.skip(1), ALIGNMENT as int).len()
                as int,
            ALIGNMENT as int,
        );
    }
}

/// The rest of a record that is cut at the end of a file is a torn tail.
#[verifier::spinoff_prover]
#[verifier::rlimit(60)]
proof fn cut_rest_is_torn(
    segment_number: u32,
    contents: Seq<u8>,
    state: ScanState,
    payload: Seq<u8>,
    first: bool,
)
    requires
        FILE_HEADER_SIZE <= state.position <= contents.len(),
        framing::room(state.position - FILE_HEADER_SIZE) >= HEADER_SIZE,
        state.fragmented == !first,
        ({
            let record = framing::record_bytes(
                FULL,
                segment_number,
                state.position - FILE_HEADER_SIZE,
                payload,
                first,
            );
            &&& contents.len() < state.position + record.len()
            &&& contents.skip(state.position) == record.take(contents.len() - state.position)
            &&& first ==> contents.len() - state.position >= HEADER_SIZE && state.position % ALIGNMENT as int == 0
        }),
    ensures
        next_outcome(segment_number, contents, contents.len() as int, state) matches ScanOutcome::Tail { good_end, .. }
            && good_end == state.good_end,
    decreases
        payload.len(),
        (if framing::room(state.position - FILE_HEADER_SIZE) == HEADER_SIZE {
            1int
        } else {
            0
        }),
{
    let len = contents.len() as int;
    let position = state.position;
    let grid = position - FILE_HEADER_SIZE;
    let room = framing::room(grid);
    let record = framing::record_bytes(FULL, segment_number, grid, payload, first);
    let held = len - position;
    let size = framing::portion(payload.len(), room);
    let last = size == payload.len();
    let kind = RecordType::placed(first, last);
    let fragment = framing::fragment_bytes(kind.byte(FULL), segment_number, payload.take(size));
    framing::fragment_size(kind.byte(FULL), segment_number, payload.take(size));
    let next = position + HEADER_SIZE + size;
    assert(record.take(HEADER_SIZE + size) =~= fragment);
    if held >= HEADER_SIZE {
        let bytes = contents.subrange(position, block_end(position, len));
        if len < next {
            assert(block_end(position, len) == len);
            assert(bytes =~= contents.skip(position));
            assert(record.take(held) =~= fragment.take(held));
            framing::cut_fragment(FULL, kind, segment_number, payload.take(size), room, held);
        } else {
            let after = bytes.skip(HEADER_SIZE + size);
            assert(next <= block_end(position, len));
            assert(bytes.take(HEADER_SIZE + size) =~= contents.skip(position).take(HEADER_SIZE + size));
            assert(record.take(held).take(HEADER_SIZE + size) =~= fragment);
            assert(bytes =~= fragment + after);
            framing::fragment_round_trip(FULL, kind, segment_number, payload.take(size), after, room, held);
            let rest = framing::record_bytes(
                FULL,
                segment_number,
                grid + HEADER_SIZE + size,
                payload.skip(size),
                false,
            );
            assert(record.skip(HEADER_SIZE + size) =~= rest);
            assert(contents.skip(next) =~= record.take(held).skip(HEADER_SIZE + size));
            assert(record.take(held).skip(HEADER_SIZE + size) =~= rest.take(held - HEADER_SIZE - size));
            let gathered = state.gathered + payload.take(size);
            let further = if first {
                ScanState { position: next, fragmented: true, gathered, record_position: position, ..state }
            } else {
                ScanState { position: next, gathered, ..state }
            };
            cut_rest_is_torn(segment_number, contents, further, payload.skip(size), false);
        }
    }
}

/// A record of which the file holds the first header but not all fragments is
/// a torn tail, which ends where the records before it end.
#[verifier::spinoff_prover]
#[verifier::rlimit(60)]
pub proof fn cut_record_is_torn(segment_number: u64, before: Seq<u8>, payload: Seq<u8>, cut: int, state: ScanState)
    requires
        segment_number <= u32::MAX,
        FILE_HEADER_SIZE <= before.len(),
        before.len() as int % ALIGNMENT as int == 0,
        stands_at(state, before.len() as int),
        HEADER_SIZE <= cut < record::fragments(segment_number as u32, before.len() as int, payload).len(),
    ensures
        ({
            let contents = before + record::fragments(segment_number as u32, before.len() as int, payload).take(cut);
            next_outcome(segment_number as u32, contents, contents.len() as int, state) matches ScanOutcome::Tail {
                good_end,
                ..
            } && good_end == before.len()
        }),
{
    let bare = record::fragments(segment_number as u32, before.len() as int, payload);
    let contents = before + bare.take(cut);
    assert(contents.skip(before.len() as int) =~= bare.take(cut));
    cut_rest_is_torn(segment_number as u32, contents, state, payload, true);
}

/// Fragments out of order are damage that no cut explains: a scan fails there,
/// whether or not a torn end is tolerated. A fragment that cannot be read is
/// passed over only where torn ends are tolerated, and ends the scan.
pub proof fn fragments_out_of_order_are_damage(
    segment_number: u32,
    contents: Seq<u8>,
    len: int,
    state: ScanState,
    tolerate_tail: bool,
)
    requires
        FILE_HEADER_SIZE <= state.position,
        HEADER_SIZE <= len - state.position,
        block_end(state.position, len) <= contents.len(),
        framing::room(state.position - FILE_HEADER_SIZE) >= HEADER_SIZE,
        !at_short_padding(contents, len, state),
    ensures
        ({
            let found = framing::fragment_at(
                FULL,
                segment_number,
                contents.subrange(state.position, block_end(state.position, len)),
                framing::room(state.position - FILE_HEADER_SIZE),
                len - state.position,
            );
            let (index, end) = scan_all(segment_number, contents, len, state, tolerate_tail);
            &&& found matches Fragment::Valid(kind, _) ==> ((kind == RecordType::Full || kind == RecordType::First)
                == state.fragmented ==> index.len() == 0 && end is Failed)
            &&& found matches Fragment::Faulty(fault) ==> (fault != RecordFault::ZeroHeader ==> index.len() == 0 && (
            if tolerate_tail {
                end == (ScanEnd::Clean { good_end: state.good_end })
            } else {
                end is Failed
            }))
        }),
{
}

/// A fragment that is read was written for the segment.
pub proof fn found_fragment_was_written(segment_number: u32, contents: Seq<u8>, position: int, len: int)
    requires
        0 <= position <= block_end(position, len) <= contents.len(),
    ensures
        ({
            let bytes = contents.subrange(position, block_end(position, len));
            framing::fragment_at(
                FULL,
                segment_number,
                bytes,
                framing::room(position - FILE_HEADER_SIZE),
                len - position,
            ) matches Fragment::Valid(kind, part) ==> contents.subrange(position, position + HEADER_SIZE + part.len())
                == framing::fragment_bytes(kind.byte(FULL), segment_number, part)
        }),
{
    let bytes = contents.subrange(position, block_end(position, len));
    let room = framing::room(position - FILE_HEADER_SIZE);
    framing::valid_fragment_was_written(FULL, segment_number, bytes, room, len - position);
    if let Fragment::Valid(kind, part) = framing::fragment_at(FULL, segment_number, bytes, room, len - position) {
        assert(contents.subrange(position, position + HEADER_SIZE + part.len()) =~= bytes.take(
            HEADER_SIZE + part.len(),
        ));
    }
}

/// A file is scanned where its header was written for pages and names a segment
/// that four bytes can number.
pub proof fn numbers_of_files_fit_four_bytes(contents: Seq<u8>)
    ensures
        opening_fault(contents) is None <==> envelope::file_header_fault(contents, true) is None && stored_number(
            contents,
        ) <= 0xffff_ffff,
{
}

/// The scan of a file fails only where there is a fault: not where every call
/// succeeds, the header is whole and the records end cleanly.
pub proof fn clean_file_does_not_fail(
    path: Seq<char>,
    contents: Seq<u8>,
    tolerate_tail: bool,
    error: SegmentErrorView,
)
    requires
        envelope::file_header_fault(contents, true) is None,
        stored_number(contents) <= 0xffff_ffff,
        ({
            let (index, end) = scan_all(
                stored_number(contents) as u32,
                contents,
                contents.len() as int,
                fresh_state(4096),
                tolerate_tail,
            );
            end matches ScanEnd::Clean { good_end } && good_end + 4096 <= u64::MAX
        }),
    ensures
        !scan_failure(path, contents, tolerate_tail, true, error),
{
    let (index, end) = scan_all(
        stored_number(contents) as u32,
        contents,
        contents.len() as int,
        fresh_state(4096),
        tolerate_tail,
    );
    align::aligned_bounds(end->good_end, ALIGNMENT as int);
}

} // verus!
