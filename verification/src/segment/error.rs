//! Errors of stream storage segments.

use vstd::prelude::*;
use crate::framing::RecordFault;
use crate::text;
use crate::vfs::IoError;

verus! {

/// Why a segment operation failed.
#[derive(Debug, PartialEq, Eq)]
pub enum SegmentError {
    Io(String),
    Corruption { path: String, message: String },
    SegmentNumberTooLarge(u64),
    Sealed,
    RecordTooLarge { size: u64, max: u64 },
    OffsetExhausted,
}

/// A [`SegmentError`] as a mathematical value.
#[verifier::ext_equal]
pub enum SegmentErrorView {
    Io(Seq<char>),
    Corruption { path: Seq<char>, message: Seq<char> },
    SegmentNumberTooLarge(u64),
    Sealed,
    RecordTooLarge { size: u64, max: u64 },
    OffsetExhausted,
}

impl View for SegmentError {
    type V = SegmentErrorView;

    open spec fn view(&self) -> SegmentErrorView {
        match self {
            SegmentError::Io(message) => SegmentErrorView::Io(message@),
            SegmentError::Corruption { path, message } => SegmentErrorView::Corruption {
                path: path@,
                message: message@,
            },
            SegmentError::SegmentNumberTooLarge(number) => SegmentErrorView::SegmentNumberTooLarge(*number),
            SegmentError::Sealed => SegmentErrorView::Sealed,
            SegmentError::RecordTooLarge { size, max } => SegmentErrorView::RecordTooLarge { size: *size, max: *max },
            SegmentError::OffsetExhausted => SegmentErrorView::OffsetExhausted,
        }
    }
}

impl SegmentErrorView {
    /// The error in words.
    pub open spec fn words(self) -> Seq<char> {
        match self {
            SegmentErrorView::Io(message) => "segment I/O error: "@ + message,
            SegmentErrorView::Corruption { path, message } => "segment corruption in "@ + path + ": "@ + message,
            SegmentErrorView::SegmentNumberTooLarge(number) => "segment number "@ + text::decimal(number as nat)
                + " exceeds the physical format limit"@,
            SegmentErrorView::Sealed => "cannot append to a sealed segment"@,
            SegmentErrorView::RecordTooLarge { size, max } => "encoded record size "@ + text::decimal(size as nat)
                + " exceeds the maximum record area size "@ + text::decimal(max as nat),
            SegmentErrorView::OffsetExhausted => "segment offset space is exhausted"@,
        }
    }
}

/// What is reported of bytes that are not what they should be.
pub open spec fn corrupt(path: Seq<char>, message: Seq<char>) -> SegmentErrorView {
    SegmentErrorView::Corruption { path, message }
}

/// A corruption of the file at `path`.
pub fn corruption_error(path: &str, message: &str) -> (error: SegmentError)
    ensures
        error@ == corrupt(path@, message@),
{
    SegmentError::Corruption { path: String::from_str(path), message: String::from_str(message) }
}

/// A corruption of the file at `path`, as a result.
pub fn corruption<T>(path: &str, message: &str) -> (result: Result<T, SegmentError>)
    ensures
        result matches Err(error) && error@ == corrupt(path@, message@),
{
    Err(corruption_error(path, message))
}

impl SegmentError {
    /// What a faulty record is reported as.
    pub fn record(path: &str, fault: RecordFault) -> (error: SegmentError)
        ensures
            error@ == corrupt(path@, fault.words()),
    {
        SegmentError::Corruption { path: String::from_str(path), message: fault.message() }
    }

    /// What a filesystem failure is reported as.
    pub fn io(error: IoError) -> (reported: SegmentError)
        ensures
            reported@ == SegmentErrorView::Io(error.message@),
    {
        SegmentError::Io(error.message)
    }

    /// The error in words.
    pub fn message(&self) -> (message: String)
        ensures
            message@ == self@.words(),
    {
        match self {
            SegmentError::Io(message) => text::joined("segment I/O error: ", message.as_str()),
            SegmentError::Corruption { path, message } => {
                let mut words: String = text::joined("segment corruption in ", path.as_str());
                words.append(": ");
                words.append(message.as_str());
                words
            },
            SegmentError::SegmentNumberTooLarge(number) => {
                let mut words: String = String::from_str("segment number ");
                text::push_decimal(&mut words, *number);
                words.append(" exceeds the physical format limit");
                words
            },
            SegmentError::Sealed => String::from_str("cannot append to a sealed segment"),
            SegmentError::RecordTooLarge { size, max } => {
                let mut words: String = String::from_str("encoded record size ");
                text::push_decimal(&mut words, *size);
                words.append(" exceeds the maximum record area size ");
                text::push_decimal(&mut words, *max);
                words
            },
            SegmentError::OffsetExhausted => String::from_str("segment offset space is exhausted"),
        }
    }
}

} // verus!
