//! Sealed segments: records aligned for direct I/O between a file header and
//! an index with a footer.

pub mod envelope;
pub mod error;
pub mod files;
pub mod record;
pub mod scanner;
pub mod seg;
