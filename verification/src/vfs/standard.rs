//! Ranges and positions of files behind the page cache.

use vstd::prelude::*;
use crate::vfs::{IoError, IoErrorKind};

verus! {

/// A failure of the caller's.
pub fn invalid_input(message: &str) -> (error: IoError)
    ensures
        error.kind == IoErrorKind::InvalidInput,
        error.message@ == message@,
{
    IoError::new(IoErrorKind::InvalidInput, message)
}

/// Checks that a read stays inside a file.
pub fn ensure_range(file_len: u64, position: u64, length: usize) -> (result: Result<(), IoError>)
    ensures
        match result {
            Ok(()) => position + length <= file_len,
            Err(error) => if position + length > u64::MAX {
                error.kind == IoErrorKind::InvalidInput && error.message@ == "file read range overflows u64"@
            } else {
                &&& position + length > file_len
                &&& error.kind == IoErrorKind::UnexpectedEof
                &&& error.message@ == "file read extends past end of file"@
            },
        },
{
    let end: u64 = match position.checked_add(length as u64) {
        Some(end) => end,
        None => {
            return Err(invalid_input("file read range overflows u64"));
        },
    };
    if end > file_len {
        return Err(IoError::new(IoErrorKind::UnexpectedEof, "file read extends past end of file"));
    }
    Ok(())
}

/// Where a file ends after bytes were appended at `position`.
pub fn append_end(position: u64, length: usize) -> (result: Result<u64, IoError>)
    ensures
        match result {
            Ok(end) => end == position + length,
            Err(error) => {
                &&& position + length > u64::MAX
                &&& error.kind == IoErrorKind::InvalidInput
                &&& error.message@ == "file append position overflows u64"@
            },
        },
{
    match position.checked_add(length as u64) {
        Some(end) => Ok(end),
        None => Err(invalid_input("file append position overflows u64")),
    }
}

/// How much of a read is left after some bytes came.
pub fn read_rest(remaining: usize, read: usize) -> (result: Result<usize, IoError>)
    requires
        read <= remaining,
    ensures
        match result {
            Ok(rest) => (read > 0 || remaining == 0) && rest == remaining - read,
            Err(error) => {
                &&& read == 0 && remaining > 0
                &&& error.kind == IoErrorKind::UnexpectedEof
                &&& error.message@ == "file read extends past end of file"@
            },
        },
{
    if read == 0 && remaining > 0 {
        return Err(IoError::new(IoErrorKind::UnexpectedEof, "file read extends past end of file"));
    }
    Ok(remaining - read)
}

/// Which cached pages of a file can be given up.
#[derive(Debug, Clone, Copy, PartialEq, Eq, Structural)]
pub enum Eviction {
    /// None beyond those that were given up before.
    Nothing,
    /// `length` bytes from `start` on.
    Pages { start: u64, length: u64 },
    /// The start cannot be told to the system.
    StartTooLarge,
    /// The length cannot be told to the system.
    LengthTooLarge,
}

/// Which cached pages before `end` can be given up. The page that `end` stands
/// in stays, for later appends may change it.
pub fn eviction(page_size: u64, evicted: u64, end: u64) -> (result: Eviction)
    requires
        page_size > 0,
    ensures
        ({
            let last = end - end as int % page_size as int;
            result == (if last <= evicted {
                Eviction::Nothing
            } else if evicted > i64::MAX {
                Eviction::StartTooLarge
            } else if last - evicted > i64::MAX {
                Eviction::LengthTooLarge
            } else {
                Eviction::Pages { start: evicted, length: (last - evicted) as u64 }
            })
        }),
{
    proof {
        vstd::arithmetic::div_mod::lemma_mod_decreases(end as nat, page_size as nat);
    }
    let last: u64 = end - end % page_size;
    if last <= evicted {
        return Eviction::Nothing;
    }
    if evicted > i64::MAX as u64 {
        return Eviction::StartTooLarge;
    }
    let length: u64 = last - evicted;
    if length > i64::MAX as u64 {
        return Eviction::LengthTooLarge;
    }
    Eviction::Pages { start: evicted, length }
}

} // verus!
