//! Options of the sequenced log.

use vstd::prelude::*;

verus! {

/// How segment files are read and written.
#[derive(Debug, Clone, Copy, PartialEq, Eq, Structural)]
pub enum IoMode {
    /// Direct I/O where the filesystem has it.
    DirectPreferred,
    DirectRequired,
    Standard,
}

/// Configuration for opening a log.
#[derive(Debug)]
pub struct WalOptions {
    /// Directory where segment files are stored and recovered from.
    pub dir: String,
    /// I/O mode used for segment reads and writes.
    pub io_mode: IoMode,
    /// Maximum size in bytes of a segment file before the log rotates to a new
    /// one. A single record may exceed this limit.
    pub max_segment_size: u64,
    /// Capacity of the inbound append queue; bounds memory under bursts.
    pub queue_capacity: usize,
}

/// Why options cannot be used.
pub open spec fn options_fault(options: &WalOptions) -> Option<Seq<char>> {
    if options.max_segment_size == 0 {
        Some("max_segment_size must be greater than zero"@)
    } else if options.queue_capacity == 0 {
        Some("queue_capacity must be greater than zero"@)
    } else {
        None
    }
}

impl WalOptions {
    /// The default options for a directory.
    pub fn new(dir: String) -> (options: WalOptions)
        ensures
            options.dir@ == dir@,
            options.io_mode == IoMode::DirectPreferred,
            options.max_segment_size == 67_108_864,
            options.queue_capacity == 4096,
    {
        let defaults: WalOptions = WalOptions::default();
        WalOptions { dir, ..defaults }
    }

    pub fn validate(&self) -> (result: Result<(), &'static str>)
        ensures
            match result {
                Ok(()) => options_fault(self) is None,
                Err(message) => options_fault(self) == Some(message@),
            },
    {
        if self.max_segment_size == 0 {
            return Err("max_segment_size must be greater than zero");
        }
        if self.queue_capacity == 0 {
            return Err("queue_capacity must be greater than zero");
        }
        Ok(())
    }
}

impl Default for WalOptions {
    fn default() -> (options: WalOptions)
        ensures
            options.dir@ == "/tmp/lyra-wal"@,
            options.io_mode == IoMode::DirectPreferred,
            options.max_segment_size == 67_108_864,
            options.queue_capacity == 4096,
    {
        WalOptions {
            dir: String::from_str("/tmp/lyra-wal"),
            io_mode: IoMode::DirectPreferred,
            max_segment_size: 67_108_864,
            queue_capacity: 4096,
        }
    }
}

impl Clone for WalOptions {
    fn clone(&self) -> (copy: WalOptions)
        ensures
            copy.dir@ == self.dir@,
            copy.io_mode == self.io_mode,
            copy.max_segment_size == self.max_segment_size,
            copy.queue_capacity == self.queue_capacity,
    {
        WalOptions {
            dir: self.dir.clone(),
            io_mode: self.io_mode,
            max_segment_size: self.max_segment_size,
            queue_capacity: self.queue_capacity,
        }
    }
}

/// Options can be used if and only if segments and the queue have room.
pub proof fn options_with_room_are_usable(options: &WalOptions)
    ensures
        options_fault(options) is None <==> options.max_segment_size > 0 && options.queue_capacity > 0,
{
}

} // verus!
