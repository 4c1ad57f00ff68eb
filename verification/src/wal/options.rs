//! Write-ahead log configuration.

use vstd::prelude::*;

verus! {

/// Configuration for opening a log.
#[derive(Debug)]
pub struct LogOptions {
    /// Directory where segment files are stored and recovered from.
    pub dir: String,
    /// Whether append acknowledgements wait for synchronization.
    pub sync: bool,
}

impl LogOptions {
    pub fn new(dir: &str, sync: bool) -> (options: LogOptions)
        ensures
            options.dir@ == dir@,
            options.sync == sync,
    {
        LogOptions { dir: String::from_str(dir), sync }
    }
}

impl Default for LogOptions {
    fn default() -> (options: LogOptions)
        ensures
            options.dir@ == "/tmp/lyra-wal"@,
            options.sync,
    {
        LogOptions::new("/tmp/lyra-wal", true)
    }
}

impl Clone for LogOptions {
    fn clone(&self) -> (copy: LogOptions)
        ensures
            copy.dir@ == self.dir@,
            copy.sync == self.sync,
    {
        LogOptions { dir: self.dir.clone(), sync: self.sync }
    }
}

} // verus!
