//! Ordered, durable stream storage: record framing, segments, write-ahead
//! logs, retention and the unit that serves them.

pub mod align;
pub mod bytestr;
pub mod crc;
pub mod framing;
pub mod le;
pub mod segment;
pub mod segment_names;
pub mod text;
pub mod unit;
pub mod vfs;
pub mod wal;
