//! Buffers of whole pages.

use vstd::prelude::*;
use crate::align;
use crate::bytestr;

verus! {

/// Size of a page.
pub const PAGE_SIZE: usize = 4096;

/// The address of the first byte of a vector, which std gives with
/// `Vec::as_ptr`. Nothing is claimed of it: where a vector stands is up to the
/// allocator.
#[verifier::external_body]
fn address_of(bytes: &Vec<u8>) -> (address: usize) {
    bytes.as_ptr() as usize
}

/// Bytes that start at the boundary of a page of memory, so that they can be
/// handed to direct I/O.
///
/// The bytes stand inside a larger vector, which is filled once and then only
/// written in place: they start where its first page starts.
pub struct AlignedBuffer {
    storage: Vec<u8>,
    /// Where the allocator put the storage.
    base: usize,
    /// Where in the storage the bytes start.
    start: usize,
    len: usize,
    capacity: usize,
}

impl View for AlignedBuffer {
    type V = Seq<u8>;

    closed spec fn view(&self) -> Seq<u8> {
        self.storage@.subrange(self.start as int, self.start + self.len)
    }
}

/// A buffer can hold this many bytes.
pub open spec fn can_hold(length: int) -> bool {
    length + 2 * PAGE_SIZE <= usize::MAX
}

impl AlignedBuffer {
    pub closed spec fn valid(&self) -> bool {
        &&& self.start < PAGE_SIZE
        &&& self.address() % PAGE_SIZE as int == 0
        &&& self.len <= self.capacity
        &&& self.storage@.len() == self.capacity + PAGE_SIZE
        &&& self.capacity + PAGE_SIZE <= usize::MAX
    }

    /// Where in memory the bytes start.
    pub closed spec fn address(&self) -> int {
        self.base + self.start
    }

    /// How far inside their storage the bytes start.
    pub closed spec fn place(&self) -> int {
        self.start as int
    }

    /// How many bytes there is room for.
    pub closed spec fn room(&self) -> int {
        self.capacity as int
    }

    /// An empty buffer with room for `capacity` bytes.
    pub fn new(capacity: usize) -> (buffer: AlignedBuffer)
        requires
            can_hold(capacity as int),
        ensures
            buffer.valid(),
            buffer.address() % PAGE_SIZE as int == 0,
            buffer@.len() == 0,
            buffer.room() == align::aligned(capacity as int, PAGE_SIZE as int),
    {
        proof {
            align::aligned_bounds(capacity as int, PAGE_SIZE as int);
        }
        let room: usize = align::align_up(capacity, PAGE_SIZE);
        let mut storage: Vec<u8> = Vec::new();
        storage.resize(room + PAGE_SIZE, 0);
        let address: usize = address_of(&storage);
        AlignedBuffer::inside(storage, address)
    }

    /// An empty buffer inside storage that stands at an address. The bytes start
    /// where the first page starts that does not lie before it.
    pub fn inside(storage: Vec<u8>, address: usize) -> (buffer: AlignedBuffer)
        requires
            storage@.len() >= PAGE_SIZE,
        ensures
            buffer.valid(),
            buffer@.len() == 0,
            buffer.address() == align::aligned(address as int, PAGE_SIZE as int),
            buffer.place() == buffer.address() - address,
            buffer.room() == storage@.len() - PAGE_SIZE,
    {
        let start: usize = align::gap(address, PAGE_SIZE);
        let capacity: usize = storage.len() - PAGE_SIZE;
        AlignedBuffer { storage, base: address, start, len: 0, capacity }
    }

    /// A buffer of whole pages.
    pub fn from_slice(bytes: &[u8]) -> (buffer: AlignedBuffer)
        requires
            bytes@.len() > 0,
            bytes@.len() as int % PAGE_SIZE as int == 0,
            can_hold(bytes@.len() as int),
        ensures
            buffer.valid(),
            buffer.address() % PAGE_SIZE as int == 0,
            buffer@ == bytes@,
    {
        let mut buffer: AlignedBuffer = AlignedBuffer::new(bytes.len());
        assert(buffer@ + bytes@ =~= bytes@);
        buffer.extend_from_slice(bytes);
        buffer
    }

    /// Appends bytes.
    pub fn extend_from_slice(&mut self, data: &[u8])
        requires
            old(self).valid(),
            can_hold((old(self)@.len() + data@.len()) as int),
        ensures
            final(self).valid(),
            final(self).address() % PAGE_SIZE as int == 0,
            final(self)@ == old(self)@ + data@,
    {
        let ghost before = self@;
        let new_len: usize = self.len + data.len();
        if new_len > self.capacity {
            self.grow(new_len);
        }
        let mut at: usize = 0;
        let ghost base = self.start + self.len;
        while at < data.len()
            invariant
                self.valid(),
                self@ == before,
                at <= data@.len(),
                self.len + data@.len() <= self.capacity,
                base == self.start + self.len,
                forall|i: int| 0 <= i < at ==> #[trigger] self.storage@[base + i] == data@[i],
            decreases data@.len() - at,
        {
            let place: usize = self.start + self.len + at;
            let ghost held = self.storage@;
            self.storage.set(place, data[at]);
            proof {
                assert(self@ =~= before);
                assert forall|i: int| 0 <= i < at + 1 implies #[trigger] self.storage@[base + i] == data@[i] by {
                    if i < at {
                        assert(held[base + i] == data@[i]);
                    }
                }
            }
            at += 1;
        }
        self.len = new_len;
        proof {
            assert forall|i: int| 0 <= i < self@.len() implies self@[i] == (before + data@)[i] by {
                if i >= before.len() {
                    let k = i - before.len();
                    assert(self.storage@[base + k] == data@[k]);
                }
            }
            assert(self@ =~= before + data@);
        }
    }

    /// Appends zeros up to a whole number of pages.
    pub fn pad_to_alignment(&mut self)
        requires
            old(self).valid(),
            can_hold(align::aligned(old(self)@.len() as int, PAGE_SIZE as int)),
        ensures
            final(self).valid(),
            final(self).address() % PAGE_SIZE as int == 0,
            final(self)@ == old(self)@ + bytestr::zeros(
                align::aligned(old(self)@.len() as int, PAGE_SIZE as int) - old(self)@.len(),
            ),
            final(self)@.len() as int % PAGE_SIZE as int == 0,
    {
        proof {
            align::aligned_bounds(self.len as int, PAGE_SIZE as int);
        }
        let aligned: usize = align::align_up(self.len, PAGE_SIZE);
        let mut padding: Vec<u8> = Vec::new();
        bytestr::put_zeros(&mut padding, aligned - self.len);
        assert(padding@ =~= bytestr::zeros(aligned - self.len));
        self.extend_from_slice(padding.as_slice());
    }

    /// The bytes.
    pub fn as_slice(&self) -> (bytes: &[u8])
        requires
            self.valid(),
        ensures
            bytes@ == self@,
    {
        vstd::slice::slice_subrange(self.storage.as_slice(), self.start, self.start + self.len)
    }

    /// Drops the bytes and keeps the room.
    pub fn clear(&mut self)
        requires
            old(self).valid(),
        ensures
            final(self).valid(),
            final(self).address() == old(self).address(),
            final(self).room() == old(self).room(),
            final(self)@.len() == 0,
    {
        self.len = 0;
    }

    pub fn len(&self) -> (len: usize)
        requires
            self.valid(),
        ensures
            len == self@.len(),
    {
        self.len
    }

    pub fn is_empty(&self) -> (empty: bool)
        requires
            self.valid(),
        ensures
            empty == (self@.len() == 0),
    {
        self.len == 0
    }

    /// Makes room for at least `min_capacity` bytes, at another page.
    fn grow(&mut self, min_capacity: usize)
        requires
            old(self).valid(),
            can_hold(min_capacity as int),
            old(self).capacity < min_capacity,
        ensures
            final(self).valid(),
            final(self)@ == old(self)@,
            final(self).len == old(self).len,
            final(self).capacity >= min_capacity,
    {
        let doubled: usize = if self.capacity <= usize::MAX / 4 { self.capacity * 2 } else { min_capacity };
        let wanted: usize = if doubled > min_capacity { doubled } else { min_capacity };
        proof {
            align::aligned_bounds(wanted as int, PAGE_SIZE as int);
        }
        let mut larger: AlignedBuffer = AlignedBuffer::new(wanted);
        assert(larger.capacity >= min_capacity);
        let mut at: usize = 0;
        while at < self.len
            invariant
                self.valid(),
                *self == *old(self),
                larger.valid(),
                larger.len == at,
                at <= self.len,
                larger.capacity >= min_capacity,
                self.capacity < min_capacity,
                larger@ == self@.take(at as int),
            decreases self.len - at,
        {
            let ghost before = larger@;
            let ghost byte = self@[at as int];
            larger.storage.set(larger.start + at, self.storage[self.start + at]);
            larger.len = at + 1;
            assert(larger@ =~= before.push(byte));
            assert(self@.take(at + 1) =~= self@.take(at as int).push(byte));
            at += 1;
        }
        assert(self@.take(at as int) =~= self@);
        *self = larger;
    }
}

/// The bytes of a buffer start at the boundary of a page, whatever was done to
/// it.
pub proof fn bytes_start_at_a_page(buffer: &AlignedBuffer)
    requires
        buffer.valid(),
    ensures
        buffer.address() % PAGE_SIZE as int == 0,
{
}

/// Prepares the writes of a file that is written in whole pages.
pub struct PagedWrites {
    write_offset: u64,
    buffer: AlignedBuffer,
}

impl PagedWrites {
    /// Where the next write starts.
    pub closed spec fn offset(&self) -> u64 {
        self.write_offset
    }

    /// What the next write holds.
    pub closed spec fn staged(&self) -> Seq<u8> {
        self.buffer@
    }

    /// Where in memory the next write starts.
    pub closed spec fn address(&self) -> int {
        self.buffer.address()
    }

    pub closed spec fn valid(&self) -> bool {
        self.buffer.valid()
    }

    pub fn new(write_offset: u64) -> (writes: PagedWrites)
        ensures
            writes.valid(),
            writes.offset() == write_offset,
            writes.staged().len() == 0,
    {
        PagedWrites { write_offset, buffer: AlignedBuffer::new(4 * PAGE_SIZE) }
    }

    /// Stages data, padded to whole pages, and returns where it is to be
    /// written.
    pub fn stage(&mut self, data: &[u8]) -> (offset: u64)
        requires
            old(self).valid(),
            can_hold(data@.len() + PAGE_SIZE),
        ensures
            final(self).valid(),
            final(self).offset() == old(self).offset(),
            offset == old(self).offset(),
            final(self).address() % PAGE_SIZE as int == 0,
            final(self).staged() == data@ + bytestr::zeros(
                align::aligned(data@.len() as int, PAGE_SIZE as int) - data@.len(),
            ),
    {
        proof {
            align::aligned_bounds(data@.len() as int, PAGE_SIZE as int);
        }
        self.buffer.clear();
        assert(self.buffer@ + data@ =~= data@);
        self.buffer.extend_from_slice(data);
        self.buffer.pad_to_alignment();
        self.write_offset
    }

    /// What is staged.
    pub fn bytes(&self) -> (bytes: &[u8])
        requires
            self.valid(),
        ensures
            bytes@ == self.staged(),
    {
        self.buffer.as_slice()
    }

    /// The staged data was written. The next write starts after the data, and
    /// writes over its padding.
    pub fn written(&mut self, length: usize)
        requires
            old(self).valid(),
            old(self).offset() + length <= u64::MAX,
        ensures
            final(self).valid(),
            final(self).offset() == old(self).offset() + length,
            final(self).staged() == old(self).staged(),
    {
        self.write_offset = self.write_offset + length as u64;
    }

    /// Where the next write starts.
    pub fn write_offset(&self) -> (offset: u64)
        ensures
            offset == self.offset(),
    {
        self.write_offset
    }
}

} // verus!
