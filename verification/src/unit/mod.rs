//! The storage unit: its service, its storage and its sequenced log.

pub mod buffer;
pub mod error;
pub mod options;
pub mod service;
pub mod storage;
pub mod wal;
