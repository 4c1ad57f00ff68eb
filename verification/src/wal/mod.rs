//! Write-ahead log: record codec, segments, recovery and the workers' rules.

pub mod codec;
pub mod delivery;
pub mod error;
pub mod files;
pub mod history;
pub mod lifecycle;
pub mod offset;
pub mod options;
pub mod publisher;
pub mod recovery;
pub mod run;
pub mod segment;
pub mod source;
pub mod syncer;
pub mod writer;
