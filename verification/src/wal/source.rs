//! Where record bytes are read from.

use vstd::prelude::*;
use crate::bytestr;
use crate::vfs::{IoError, IoErrorKind, Vfs, VfsFile};

verus! {

/// Bytes that are read once, in order.
pub trait Source {
    /// The bytes that are still to be read.
    spec fn remaining(&self) -> Seq<u8>;

    /// Reads fail only where too few bytes remain.
    spec fn dependable(&self) -> bool;

    /// What the bytes are read from is still there.
    spec fn usable(&self) -> bool;

    /// Reads exactly `length` bytes.
    fn read_exact(&mut self, length: usize) -> (result: Result<Vec<u8>, IoError>)
        requires
            old(self).usable(),
        ensures
            final(self).usable(),
            final(self).dependable() == old(self).dependable(),
            match result {
                Ok(bytes) => {
                    &&& length <= old(self).remaining().len()
                    &&& bytes@ == old(self).remaining().take(length as int)
                    &&& final(self).remaining() == old(self).remaining().skip(length as int)
                },
                Err(_) => old(self).dependable() ==> length > old(self).remaining().len(),
            },
    ;
}

/// Reads a byte string from its start.
pub struct SliceSource<'a> {
    bytes: &'a [u8],
    position: usize,
}

impl<'a> SliceSource<'a> {
    /// A source of all of `bytes`.
    pub fn new(bytes: &'a [u8]) -> (source: SliceSource<'a>)
        ensures
            source.remaining() == bytes@,
            source.dependable(),
            source.usable(),
    {
        let source = SliceSource { bytes, position: 0 };
        assert(source.remaining() =~= bytes@);
        source
    }
}

impl<'a> Source for SliceSource<'a> {
    closed spec fn remaining(&self) -> Seq<u8> {
        if self.position <= self.bytes@.len() {
            self.bytes@.skip(self.position as int)
        } else {
            Seq::empty()
        }
    }

    open spec fn dependable(&self) -> bool {
        true
    }

    open spec fn usable(&self) -> bool {
        true
    }

    fn read_exact(&mut self, length: usize) -> (result: Result<Vec<u8>, IoError>) {
        let left: usize = if self.position <= self.bytes.len() {
            self.bytes.len() - self.position
        } else {
            0
        };
        if length > left {
            return Err(IoError::new(IoErrorKind::UnexpectedEof, "failed to fill whole buffer"));
        }
        if length == 0 {
            let empty: Vec<u8> = Vec::new();
            assert(empty@ =~= self.remaining().take(0));
            assert(self.remaining().skip(0) =~= self.remaining());
            return Ok(empty);
        }
        let end: usize = self.position + length;
        let bytes: Vec<u8> = bytestr::copy_range(self.bytes, self.position, end);
        assert(bytes@ =~= self.remaining().take(length as int));
        self.position = end;
        assert(self.remaining() =~= old(self).remaining().skip(length as int));
        Ok(bytes)
    }
}

/// Reads the bytes of a file between two positions.
pub struct SegmentReader<'a, V: Vfs> {
    vfs: &'a V,
    file: &'a VfsFile,
    position: u64,
    end: u64,
}

impl<'a, V: Vfs> SegmentReader<'a, V> {
    /// A source of the bytes from `position` up to `end`.
    pub fn new(vfs: &'a V, file: &'a VfsFile, position: u64, end: u64) -> (reader: SegmentReader<'a, V>)
        requires
            vfs.state().holds(file),
            position <= end <= vfs.state().contents(file).len(),
        ensures
            reader.usable(),
            reader.dependable() == vfs.dependable(),
            reader.remaining() == vfs.state().contents(file).subrange(position as int, end as int),
    {
        SegmentReader { vfs, file, position, end }
    }
}

impl<'a, V: Vfs> Source for SegmentReader<'a, V> {
    closed spec fn remaining(&self) -> Seq<u8> {
        self.vfs.state().contents(self.file).subrange(self.position as int, self.end as int)
    }

    closed spec fn dependable(&self) -> bool {
        self.vfs.dependable()
    }

    closed spec fn usable(&self) -> bool {
        &&& self.vfs.state().holds(self.file)
        &&& self.position <= self.end <= self.vfs.state().contents(self.file).len()
    }

    fn read_exact(&mut self, length: usize) -> (result: Result<Vec<u8>, IoError>) {
        if length == 0 {
            let empty: Vec<u8> = Vec::new();
            assert(empty@ =~= self.remaining().take(0));
            assert(self.remaining().skip(0) =~= self.remaining());
            return Ok(empty);
        }
        if length as u64 > self.end - self.position {
            return Err(IoError::new(IoErrorKind::UnexpectedEof, "failed to fill whole buffer"));
        }
        let bytes: Vec<u8> = match self.vfs.read_at(self.file, self.position, length) {
            Ok(bytes) => bytes,
            Err(error) => {
                return Err(error);
            },
        };
        assert(bytes@ =~= self.remaining().take(length as int));
        self.position = self.position + length as u64;
        assert(self.remaining() =~= old(self).remaining().skip(length as int));
        Ok(bytes)
    }
}

} // verus!
