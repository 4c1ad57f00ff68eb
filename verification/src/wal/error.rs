//! Errors of the write-ahead log.

use vstd::prelude::*;
use crate::framing::RecordFault;
use crate::text;
use crate::vfs::IoError;

verus! {

/// Why a log operation failed.
#[allow(inconsistent_fields)]
#[derive(Debug, PartialEq, Eq)]
pub enum WalError {
    /// The log was closed or is no longer accepting appends.
    Closed,
    /// An operating-system level I/O failure.
    Io(String),
    /// Another log instance owns the directory.
    Locked(String),
    /// On-disk data failed validation and cannot be safely recovered.
    Corruption { path: String, message: String },
    /// A physical record is incomplete.
    Truncated { path: String, message: String },
    /// A segment number exceeds the physical record format.
    SegmentNumberTooLarge(u64),
    /// An encoded record cannot fit in an empty segment.
    RecordTooLarge { size: u64, max: u64 },
    /// The active segment has no room for the record.
    SegmentFull,
    /// The caller's read limit cannot hold the first record.
    ReadBufferTooSmall { size: usize, max: usize },
    /// A physical position cannot be represented.
    PositionExhausted,
    /// Too many appends wait for the writer.
    QueueFull,
    /// An internal background worker failed.
    Worker(String),
}

/// A [`WalError`] as a mathematical value.
#[allow(inconsistent_fields)]
#[verifier::ext_equal]
pub enum WalErrorView {
    Closed,
    Io(Seq<char>),
    Locked(Seq<char>),
    Corruption { path: Seq<char>, message: Seq<char> },
    Truncated { path: Seq<char>, message: Seq<char> },
    SegmentNumberTooLarge(u64),
    RecordTooLarge { size: u64, max: u64 },
    SegmentFull,
    ReadBufferTooSmall { size: usize, max: usize },
    PositionExhausted,
    QueueFull,
    Worker(Seq<char>),
}

impl View for WalError {
    type V = WalErrorView;

    open spec fn view(&self) -> WalErrorView {
        match self {
            WalError::Closed => WalErrorView::Closed,
            WalError::Io(message) => WalErrorView::Io(message@),
            WalError::Locked(path) => WalErrorView::Locked(path@),
            WalError::Corruption { path, message } => WalErrorView::Corruption { path: path@, message: message@ },
            WalError::Truncated { path, message } => WalErrorView::Truncated { path: path@, message: message@ },
            WalError::SegmentNumberTooLarge(number) => WalErrorView::SegmentNumberTooLarge(*number),
            WalError::RecordTooLarge { size, max } => WalErrorView::RecordTooLarge { size: *size, max: *max },
            WalError::SegmentFull => WalErrorView::SegmentFull,
            WalError::ReadBufferTooSmall { size, max } => WalErrorView::ReadBufferTooSmall { size: *size, max: *max },
            WalError::PositionExhausted => WalErrorView::PositionExhausted,
            WalError::QueueFull => WalErrorView::QueueFull,
            WalError::Worker(message) => WalErrorView::Worker(message@),
        }
    }
}

impl WalErrorView {
    /// The error in words.
    pub open spec fn words(self) -> Seq<char> {
        match self {
            WalErrorView::Closed => "WAL is closed"@,
            WalErrorView::Io(message) => "WAL I/O error: "@ + message,
            WalErrorView::Locked(path) => "WAL directory is already in use: "@ + path,
            WalErrorView::Corruption { path, message } => "WAL corruption in "@ + path + ": "@ + message,
            WalErrorView::Truncated { path, message } => "truncated WAL record in "@ + path + ": "@ + message,
            WalErrorView::SegmentNumberTooLarge(number) => "WAL segment number "@ + text::decimal(number as nat)
                + " exceeds the physical format limit"@,
            WalErrorView::RecordTooLarge { size, max } => "encoded record size "@ + text::decimal(size as nat)
                + " exceeds the maximum WAL segment size "@ + text::decimal(max as nat),
            WalErrorView::SegmentFull => "WAL segment is full"@,
            WalErrorView::ReadBufferTooSmall { size, max } => "WAL record payload size "@ + text::decimal(size as nat)
                + " exceeds the maximum read size "@ + text::decimal(max as nat),
            WalErrorView::PositionExhausted => "WAL position space is exhausted"@,
            WalErrorView::QueueFull => "WAL append queue is full"@,
            WalErrorView::Worker(message) => "WAL worker failed: "@ + message,
        }
    }
}

/// What a faulty record is reported as: a record that merely ends too early
/// is told apart from one whose bytes are wrong.
pub open spec fn record_error(path: Seq<char>, fault: RecordFault) -> WalErrorView {
    if is_truncation(fault) {
        WalErrorView::Truncated { path, message: fault.words() }
    } else {
        WalErrorView::Corruption { path, message: fault.words() }
    }
}

/// Whether a fault is what a cut at the end of a file leaves behind.
pub open spec fn is_truncation(fault: RecordFault) -> bool {
    ||| fault == RecordFault::Incomplete
    ||| fault == RecordFault::HeaderCut
    ||| fault == RecordFault::ZeroHeader
    ||| fault == RecordFault::BodyCut
}

impl WalError {
    pub fn corruption(path: &str, message: String) -> (error: WalError)
        ensures
            error@ == (WalErrorView::Corruption { path: path@, message: message@ }),
    {
        WalError::Corruption { path: String::from_str(path), message }
    }

    pub fn truncated(path: &str, message: String) -> (error: WalError)
        ensures
            error@ == (WalErrorView::Truncated { path: path@, message: message@ }),
    {
        WalError::Truncated { path: String::from_str(path), message }
    }

    /// What a faulty record is reported as.
    pub fn record(path: &str, fault: RecordFault) -> (error: WalError)
        ensures
            error@ == record_error(path@, fault),
    {
        match fault {
            RecordFault::Incomplete | RecordFault::HeaderCut | RecordFault::ZeroHeader | RecordFault::BodyCut => {
                WalError::truncated(path, fault.message())
            },
            _ => WalError::corruption(path, fault.message()),
        }
    }

    /// What a filesystem failure is reported as.
    pub fn io(error: IoError) -> (reported: WalError)
        ensures
            reported@ == WalErrorView::Io(error.message@),
    {
        WalError::Io(error.message)
    }

    /// The error in words.
    pub fn message(&self) -> (message: String)
        ensures
            message@ == self@.words(),
    {
        match self {
            WalError::Closed => String::from_str("WAL is closed"),
            WalError::Io(message) => text::joined("WAL I/O error: ", message.as_str()),
            WalError::Locked(path) => text::joined("WAL directory is already in use: ", path.as_str()),
            WalError::Corruption { path, message } => {
                let mut words: String = text::joined("WAL corruption in ", path.as_str());
                words.append(": ");
                words.append(message.as_str());
                words
            },
            WalError::Truncated { path, message } => {
                let mut words: String = text::joined("truncated WAL record in ", path.as_str());
                words.append(": ");
                words.append(message.as_str());
                words
            },
            WalError::SegmentNumberTooLarge(number) => {
                let mut words: String = String::from_str("WAL segment number ");
                text::push_decimal(&mut words, *number);
                words.append(" exceeds the physical format limit");
                words
            },
            WalError::RecordTooLarge { size, max } => {
                let mut words: String = String::from_str("encoded record size ");
                text::push_decimal(&mut words, *size);
                words.append(" exceeds the maximum WAL segment size ");
                text::push_decimal(&mut words, *max);
                words
            },
            WalError::SegmentFull => String::from_str("WAL segment is full"),
            WalError::ReadBufferTooSmall { size, max } => {
                let mut words: String = String::from_str("WAL record payload size ");
                text::push_decimal(&mut words, *size as u64);
                words.append(" exceeds the maximum read size ");
                text::push_decimal(&mut words, *max as u64);
                words
            },
            WalError::PositionExhausted => String::from_str("WAL position space is exhausted"),
            WalError::QueueFull => String::from_str("WAL append queue is full"),
            WalError::Worker(message) => text::joined("WAL worker failed: ", message.as_str()),
        }
    }
}

impl Clone for WalError {
    fn clone(&self) -> (copy: WalError)
        ensures
            copy@ == self@,
    {
        match self {
            WalError::Closed => WalError::Closed,
            WalError::Io(message) => WalError::Io(message.clone()),
            WalError::Locked(path) => WalError::Locked(path.clone()),
            WalError::Corruption { path, message } => WalError::Corruption {
                path: path.clone(),
                message: message.clone(),
            },
            WalError::Truncated { path, message } => WalError::Truncated {
                path: path.clone(),
                message: message.clone(),
            },
            WalError::SegmentNumberTooLarge(number) => WalError::SegmentNumberTooLarge(*number),
            WalError::RecordTooLarge { size, max } => WalError::RecordTooLarge { size: *size, max: *max },
            WalError::SegmentFull => WalError::SegmentFull,
            WalError::ReadBufferTooSmall { size, max } => WalError::ReadBufferTooSmall { size: *size, max: *max },
            WalError::PositionExhausted => WalError::PositionExhausted,
            WalError::QueueFull => WalError::QueueFull,
            WalError::Worker(message) => WalError::Worker(message.clone()),
        }
    }
}

/// A record whose bytes are wrong is told apart from one that ends too early.
pub proof fn damage_is_no_truncation(path: Seq<char>, fault: RecordFault)
    requires
        ({
            ||| fault == RecordFault::ChecksumMismatch
            ||| fault == RecordFault::WrongSegment
            ||| fault is UnknownType
            ||| fault == RecordFault::CrossesBlock
            ||| fault == RecordFault::DirtyTrailer
            ||| fault == RecordFault::FullInside
            ||| fault == RecordFault::FirstInside
            ||| fault == RecordFault::MiddleAlone
            ||| fault == RecordFault::LastAlone
        }),
    ensures
        !is_truncation(fault),
        record_error(path, fault) is Corruption,
{
}

} // verus!
