//! Errors of the storage unit.

use vstd::prelude::*;
use crate::text;

verus! {

/// Why an operation of the unit failed.
#[derive(Debug)]
pub enum UnitError {
    Unavailable(String),
    Transport(String),
    Codec(String),
    Storage(String),
    TaskError(String),
    Wal,
    InvalidTerm { current: i64, requested: i64 },
    Fenced { timeline_id: i64, term: i64 },
}

/// A [`UnitError`] in words.
pub open spec fn words(error: UnitError) -> Seq<char> {
    match error {
        UnitError::Unavailable(message) => "Resource is unavailable: "@ + message@,
        UnitError::Transport(message) => "Transport error: "@ + message@,
        UnitError::Codec(message) => "Codec error: "@ + message@,
        UnitError::Storage(message) => "Storage error: "@ + message@,
        UnitError::TaskError(message) => "Task error: "@ + message@,
        UnitError::Wal => "WAL error"@,
        UnitError::InvalidTerm { current, requested } => "Invalid term: current="@ + text::signed_decimal(
            current as int,
        ) + ", requested="@ + text::signed_decimal(requested as int),
        UnitError::Fenced { timeline_id, term } => "Fenced: timeline "@ + text::signed_decimal(timeline_id as int)
            + " at term "@ + text::signed_decimal(term as int),
    }
}

impl UnitError {
    /// The error in words.
    pub fn message(&self) -> (message: String)
        ensures
            message@ == words(*self),
    {
        match self {
            UnitError::Unavailable(message) => text::joined("Resource is unavailable: ", message.as_str()),
            UnitError::Transport(message) => text::joined("Transport error: ", message.as_str()),
            UnitError::Codec(message) => text::joined("Codec error: ", message.as_str()),
            UnitError::Storage(message) => text::joined("Storage error: ", message.as_str()),
            UnitError::TaskError(message) => text::joined("Task error: ", message.as_str()),
            UnitError::Wal => String::from_str("WAL error"),
            UnitError::InvalidTerm { current, requested } => {
                let mut words: String = String::from_str("Invalid term: current=");
                text::push_signed_decimal(&mut words, *current);
                words.append(", requested=");
                text::push_signed_decimal(&mut words, *requested);
                words
            },
            UnitError::Fenced { timeline_id, term } => {
                let mut words: String = String::from_str("Fenced: timeline ");
                text::push_signed_decimal(&mut words, *timeline_id);
                words.append(" at term ");
                text::push_signed_decimal(&mut words, *term);
                words
            },
        }
    }
}

} // verus!
