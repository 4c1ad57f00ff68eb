//! A log of segment files that are trimmed as their records are no longer
//! needed.

pub mod error;
pub mod files;
pub mod history;
pub mod options;
pub mod reader;
pub mod records;
pub mod recovery;
pub mod replay;
pub mod retention;
pub mod runtime;
