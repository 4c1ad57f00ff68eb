//! Errors of the sequenced log.

use vstd::prelude::*;
use crate::segment::error::{SegmentError, SegmentErrorView};
use crate::text;
use crate::vfs::IoError;

verus! {

/// Why an operation of the log failed.
#[derive(Debug, PartialEq, Eq)]
pub enum WalError {
    InvalidOptions(String),
    Closed,
    Io(String),
    Corruption { path: String, message: String },
    /// The records before `earliest` were trimmed.
    SequenceExpired { requested: u64, earliest: u64 },
    /// The directory holds segments that the log would not recover.
    ExistingSegments(String),
    Worker(String),
}

/// A [`WalError`] as a mathematical value.
#[verifier::ext_equal]
pub enum WalErrorView {
    InvalidOptions(Seq<char>),
    Closed,
    Io(Seq<char>),
    Corruption { path: Seq<char>, message: Seq<char> },
    SequenceExpired { requested: u64, earliest: u64 },
    ExistingSegments(Seq<char>),
    Worker(Seq<char>),
}

impl View for WalError {
    type V = WalErrorView;

    open spec fn view(&self) -> WalErrorView {
        match self {
            WalError::InvalidOptions(message) => WalErrorView::InvalidOptions(message@),
            WalError::Closed => WalErrorView::Closed,
            WalError::Io(message) => WalErrorView::Io(message@),
            WalError::Corruption { path, message } => WalErrorView::Corruption { path: path@, message: message@ },
            WalError::SequenceExpired { requested, earliest } => WalErrorView::SequenceExpired {
                requested: *requested,
                earliest: *earliest,
            },
            WalError::ExistingSegments(path) => WalErrorView::ExistingSegments(path@),
            WalError::Worker(message) => WalErrorView::Worker(message@),
        }
    }
}

impl WalErrorView {
    /// The error in words.
    pub open spec fn words(self) -> Seq<char> {
        match self {
            WalErrorView::InvalidOptions(message) => "invalid WAL options: "@ + message,
            WalErrorView::Closed => "WAL is closed"@,
            WalErrorView::Io(message) => "WAL I/O error: "@ + message,
            WalErrorView::Corruption { path, message } => "WAL corruption in "@ + path + ": "@ + message,
            WalErrorView::SequenceExpired { requested, earliest } => "WAL sequence "@ + text::decimal(requested as nat)
                + " has expired; earliest available sequence is "@ + text::decimal(earliest as nat),
            WalErrorView::ExistingSegments(path) => "WAL directory already holds segments: "@ + path,
            WalErrorView::Worker(message) => "WAL worker failed: "@ + message,
        }
    }
}

/// What a failure of a segment is reported as by the log.
pub open spec fn from_segment(error: SegmentErrorView) -> WalErrorView {
    match error {
        SegmentErrorView::Io(message) => WalErrorView::Io(message),
        SegmentErrorView::Corruption { path, message } => WalErrorView::Corruption { path, message },
        other => WalErrorView::Worker(other.words()),
    }
}

impl WalError {
    pub fn corruption(path: &str, message: String) -> (error: WalError)
        ensures
            error@ == (WalErrorView::Corruption { path: path@, message: message@ }),
    {
        WalError::Corruption { path: String::from_str(path), message }
    }

    /// What a filesystem failure is reported as.
    pub fn io(error: IoError) -> (reported: WalError)
        ensures
            reported@ == WalErrorView::Io(error.message@),
    {
        WalError::Io(error.message)
    }

    /// What a failure of a segment is reported as.
    pub fn segment(error: SegmentError) -> (reported: WalError)
        ensures
            reported@ == from_segment(error@),
    {
        match error {
            SegmentError::Io(message) => WalError::Io(message),
            SegmentError::Corruption { path, message } => WalError::Corruption { path, message },
            other => WalError::Worker(other.message()),
        }
    }

    /// The error in words.
    pub fn message(&self) -> (message: String)
        ensures
            message@ == self@.words(),
    {
        match self {
            WalError::InvalidOptions(message) => text::joined("invalid WAL options: ", message.as_str()),
            WalError::Closed => String::from_str("WAL is closed"),
            WalError::Io(message) => text::joined("WAL I/O error: ", message.as_str()),
            WalError::Corruption { path, message } => {
                let mut words: String = text::joined("WAL corruption in ", path.as_str());
                words.append(": ");
                words.append(message.as_str());
                words
            },
            WalError::SequenceExpired { requested, earliest } => {
                let mut words: String = String::from_str("WAL sequence ");
                text::push_decimal(&mut words, *requested);
                words.append(" has expired; earliest available sequence is ");
                text::push_decimal(&mut words, *earliest);
                words
            },
            WalError::ExistingSegments(path) => text::joined("WAL directory already holds segments: ", path.as_str()),
            WalError::Worker(message) => text::joined("WAL worker failed: ", message.as_str()),
        }
    }
}

impl Clone for WalError {
    fn clone(&self) -> (copy: WalError)
        ensures
            copy@ == self@,
    {
        match self {
            WalError::InvalidOptions(message) => WalError::InvalidOptions(message.clone()),
            WalError::Closed => WalError::Closed,
            WalError::Io(message) => WalError::Io(message.clone()),
            WalError::Corruption { path, message } => WalError::Corruption {
                path: path.clone(),
                message: message.clone(),
            },
            WalError::SequenceExpired { requested, earliest } => WalError::SequenceExpired {
                requested: *requested,
                earliest: *earliest,
            },
            WalError::ExistingSegments(path) => WalError::ExistingSegments(path.clone()),
            WalError::Worker(message) => WalError::Worker(message.clone()),
        }
    }
}

} // verus!
