//! Ranges, alignments and fallbacks of direct I/O.

use vstd::prelude::*;
use crate::align;
use crate::unit::wal::options::IoMode;
use crate::vfs::standard;
use crate::vfs::{IoError, IoErrorKind};

verus! {

/// What a filesystem asks of direct I/O.
#[derive(Debug, Clone, Copy, PartialEq, Eq, Structural)]
pub struct DirectAlignment {
    /// The alignment of buffers.
    pub memory: usize,
    /// The alignment of positions and lengths, if any.
    pub io: Option<usize>,
}

impl DirectAlignment {
    pub open spec fn valid(self) -> bool {
        &&& self.memory > 0
        &&& self.io matches Some(io) ==> io > 0
    }

    /// What positions and lengths are multiples of.
    pub open spec fn step(self) -> int {
        match self.io {
            Some(io) => io as int,
            None => 1,
        }
    }

    fn io_step(&self) -> (step: usize)
        requires
            self.valid(),
        ensures
            step == self.step(),
            step > 0,
    {
        match self.io {
            Some(io) => io,
            None => 1,
        }
    }
}

/// Whether a number is a power of two.
pub open spec fn is_power_of_two(value: int) -> bool
    decreases value,
{
    value == 1 || value > 1 && value % 2 == 0 && is_power_of_two(value / 2)
}

fn power_of_two(value: usize) -> (result: bool)
    ensures
        result == is_power_of_two(value as int),
{
    if value == 0 {
        return false;
    }
    let mut rest: usize = value;
    while rest > 1
        invariant
            rest > 0,
            is_power_of_two(value as int) == is_power_of_two(rest as int),
        decreases rest,
    {
        if rest % 2 != 0 {
            return false;
        }
        rest = rest / 2;
    }
    true
}

/// What a filesystem asks of direct I/O, from what the kernel reports of it.
pub fn reported_alignment(reported: bool, memory: u32, offset: u32) -> (result: Result<DirectAlignment, IoError>)
    ensures
        match result {
            Ok(alignment) => {
                &&& reported && memory > 0 && offset > 0
                &&& is_power_of_two(memory as int)
                &&& alignment == (DirectAlignment { memory: memory as usize, io: Some(offset as usize) })
                &&& alignment.valid()
            },
            Err(error) => {
                &&& error.kind == IoErrorKind::Unsupported
                &&& error.message@ == (if !reported || memory == 0 || offset == 0 {
                    "filesystem does not report direct-I/O alignment"@
                } else {
                    "direct-I/O memory alignment is not a power of two"@
                })
                &&& !(reported && memory > 0 && offset > 0 && is_power_of_two(memory as int))
            },
        },
{
    if !reported || memory == 0 || offset == 0 {
        return Err(
            IoError::new(IoErrorKind::Unsupported, "filesystem does not report direct-I/O alignment"),
        );
    }
    if !power_of_two(memory as usize) {
        return Err(
            IoError::new(IoErrorKind::Unsupported, "direct-I/O memory alignment is not a power of two"),
        );
    }
    Ok(DirectAlignment { memory: memory as usize, io: Some(offset as usize) })
}

/// The aligned range that a read is served from.
#[derive(Debug, Clone, Copy, PartialEq, Eq, Structural)]
pub struct ReadPlan {
    pub position: u64,
    pub length: usize,
    /// Where in the range the wanted bytes start.
    pub prefix: usize,
    /// Where in the range the wanted bytes end.
    pub needed: usize,
}

/// Plans a read of `length` bytes from `position` on.
pub fn plan_read(alignment: DirectAlignment, position: u64, length: usize) -> (result: Result<ReadPlan, IoError>)
    requires
        alignment.valid(),
    ensures
        ({
            let step = alignment.step();
            let prefix = position as int % step;
            match result {
                Ok(plan) => {
                    &&& plan.position == position - prefix
                    &&& plan.prefix == prefix
                    &&& plan.needed == prefix + length
                    &&& plan.length == align::aligned(prefix + length, step)
                    &&& plan.needed <= plan.length
                },
                Err(error) => {
                    &&& error.kind == IoErrorKind::InvalidInput
                    &&& align::aligned(prefix + length, step) > usize::MAX
                    &&& error.message@ == (if prefix + length > usize::MAX {
                        "direct-I/O read length overflows usize"@
                    } else {
                        "aligned direct-I/O read length overflows usize"@
                    })
                },
            }
        }),
{
    let step: usize = alignment.io_step();
    let rest: u64 = position % (step as u64);
    let prefix: usize = rest as usize;
    proof {
        vstd::arithmetic::div_mod::lemma_mod_decreases(position as nat, step as nat);
        vstd::arithmetic::div_mod::lemma_mod_bound(position as int, step as int);
        align::aligned_bounds(prefix + length, step as int);
    }
    let needed: usize = match prefix.checked_add(length) {
        Some(needed) => needed,
        None => {
            return Err(standard::invalid_input("direct-I/O read length overflows usize"));
        },
    };
    let over: usize = needed % step;
    if over == 0 {
        return Ok(ReadPlan { position: position - rest, length: needed, prefix, needed });
    }
    match needed.checked_add(step - over) {
        Some(aligned) => Ok(ReadPlan { position: position - rest, length: aligned, prefix, needed }),
        None => Err(standard::invalid_input("aligned direct-I/O read length overflows usize")),
    }
}

/// The wanted bytes of a planned read, from the bytes that came.
pub fn planned_bytes(plan: ReadPlan, bytes: &Vec<u8>) -> (result: Result<Vec<u8>, IoError>)
    requires
        plan.prefix <= plan.needed,
    ensures
        match result {
            Ok(wanted) => bytes@.len() >= plan.needed && wanted@ == bytes@.subrange(
                plan.prefix as int,
                plan.needed as int,
            ),
            Err(error) => {
                &&& bytes@.len() < plan.needed
                &&& error.kind == IoErrorKind::UnexpectedEof
                &&& error.message@ == "direct-I/O read returned fewer bytes than requested"@
            },
        },
{
    if bytes.len() < plan.needed {
        return Err(
            IoError::new(IoErrorKind::UnexpectedEof, "direct-I/O read returned fewer bytes than requested"),
        );
    }
    Ok(crate::bytestr::copy_range(bytes, plan.prefix, plan.needed))
}

/// The wanted bytes of a planned read are those of the file that were asked
/// for, wherever the aligned range ends.
pub proof fn planned_read_is_exact(alignment: DirectAlignment, contents: Seq<u8>, position: int, length: int, end: int)
    requires
        alignment.valid(),
        0 <= position,
        0 <= length,
        position + length <= end <= contents.len(),
    ensures
        ({
            let prefix = position % alignment.step();
            contents.subrange(position - prefix, end).subrange(prefix, prefix + length) == contents.subrange(
                position,
                position + length,
            )
        }),
{
    let step = alignment.step();
    vstd::arithmetic::div_mod::lemma_mod_decreases(position as nat, step as nat);
    vstd::arithmetic::div_mod::lemma_mod_bound(position, step);
    let prefix = position % step;
    assert(contents.subrange(position - prefix, end).subrange(prefix, prefix + length) =~= contents.subrange(
        position,
        position + length,
    ));
}

/// Where a file ends after bytes were appended at `position` by direct I/O.
pub fn direct_append_end(alignment: DirectAlignment, position: u64, length: usize) -> (result: Result<u64, IoError>)
    requires
        alignment.valid(),
    ensures
        match result {
            Ok(end) => {
                &&& end == position + length
                &&& position as int % alignment.step() == 0
                &&& length as int % alignment.step() == 0
            },
            Err(error) => {
                &&& error.kind == IoErrorKind::InvalidInput
                &&& if position + length > u64::MAX {
                    error.message@ == "file append position overflows u64"@
                } else {
                    &&& position as int % alignment.step() != 0 || length as int % alignment.step() != 0
                    &&& error.message@ == "direct-I/O write position and length must be aligned"@
                }
            },
        },
{
    let end: u64 = match standard::append_end(position, length) {
        Ok(end) => end,
        Err(error) => {
            return Err(error);
        },
    };
    let step: usize = alignment.io_step();
    if position % (step as u64) != 0 || length % step != 0 {
        return Err(standard::invalid_input("direct-I/O write position and length must be aligned"));
    }
    Ok(end)
}

/// Checks a write of whole pages.
pub fn check_aligned_write(direct: bool, offset: u64, length: usize, address: usize) -> (result: Result<(), IoError>)
    ensures
        match result {
            Ok(()) => direct ==> offset % 4096 == 0 && length % 4096 == 0 && address % 4096 == 0,
            Err(error) => {
                &&& direct
                &&& offset % 4096 != 0 || length % 4096 != 0 || address % 4096 != 0
                &&& error.kind == IoErrorKind::InvalidInput
                &&& error.message@ == "direct I/O write is not aligned"@
            },
        },
{
    if direct && (offset % 4096 != 0 || length % 4096 != 0 || address % 4096 != 0) {
        return Err(standard::invalid_input("direct I/O write is not aligned"));
    }
    Ok(())
}

/// The code that the system gave for a failure, where it gave one.
#[derive(Debug, Clone, Copy, PartialEq, Eq, Structural)]
pub enum OsCode {
    Absent,
    Invalid,
    NotImplemented,
    NotSupported,
    Other,
}

/// Whether a failure says that direct I/O cannot be had.
pub fn direct_io_unavailable(kind: IoErrorKind, code: OsCode) -> (unavailable: bool)
    ensures
        unavailable == (kind == IoErrorKind::InvalidInput || kind == IoErrorKind::Unsupported || code == OsCode::Invalid
            || code == OsCode::NotImplemented || code == OsCode::NotSupported),
{
    kind == IoErrorKind::InvalidInput || kind == IoErrorKind::Unsupported || code == OsCode::Invalid || code
        == OsCode::NotImplemented || code == OsCode::NotSupported
}

/// How a file is opened.
#[derive(Debug, Clone, Copy, PartialEq, Eq, Structural)]
pub enum Backend {
    Standard,
    Direct,
}

/// How a file is opened first.
pub fn first_backend(mode: IoMode) -> (backend: Backend)
    ensures
        backend == (if mode == IoMode::Standard {
            Backend::Standard
        } else {
            Backend::Direct
        }),
{
    match mode {
        IoMode::Standard => Backend::Standard,
        IoMode::DirectRequired | IoMode::DirectPreferred => Backend::Direct,
    }
}

/// Whether a file that could not be opened as wanted is opened behind the page
/// cache instead.
pub fn falls_back(mode: IoMode, kind: IoErrorKind, code: OsCode) -> (fallback: bool)
    ensures
        fallback == (mode == IoMode::DirectPreferred && (kind == IoErrorKind::InvalidInput || kind
            == IoErrorKind::Unsupported || code == OsCode::Invalid || code == OsCode::NotImplemented || code
            == OsCode::NotSupported)),
{
    mode == IoMode::DirectPreferred && direct_io_unavailable(kind, code)
}

/// What a failed attempt to create a file left behind.
#[derive(Debug, Clone, Copy, PartialEq, Eq, Structural)]
pub enum Leftover {
    /// No file.
    Nothing,
    /// A file of this size.
    File(u64),
}

/// Whether what a failed attempt left behind is to be removed.
pub fn cleanup_failed_create(path: &str, leftover: Leftover) -> (result: Result<bool, IoError>)
    ensures
        match leftover {
            Leftover::Nothing => result == Ok::<bool, IoError>(false),
            Leftover::File(size) => if size == 0 {
                result == Ok::<bool, IoError>(true)
            } else {
                &&& result matches Err(error)
                &&& error.kind == IoErrorKind::Other
                &&& error.message@ == "direct I/O probe left non-empty file "@ + path@
            },
        },
{
    match leftover {
        Leftover::Nothing => Ok(false),
        Leftover::File(size) => {
            if size == 0 {
                return Ok(true);
            }
            let message: String = crate::text::joined("direct I/O probe left non-empty file ", path);
            Err(IoError { kind: IoErrorKind::Other, message })
        },
    }
}

} // verus!
