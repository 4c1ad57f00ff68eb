//! Segment files of a log directory.

use vstd::prelude::*;
use crate::segment_names;
use crate::segment_names::ListingFault;
use crate::vfs;
use crate::vfs::{IoError, Vfs};
use crate::wal::error::{WalError, WalErrorView};

verus! {

/// The path that a segment file has.
pub fn make_segment_path(dir: &str, segment_number: u64) -> (path: String)
    ensures
        path@ == segment_names::segment_path(dir@, segment_number as nat),
{
    segment_names::numbered_path(dir, segment_number)
}

/// What is reported of a misnamed file.
pub open spec fn misnamed(path: Seq<char>) -> WalErrorView {
    WalErrorView::Corruption { path, message: segment_names::malformed_name() }
}

/// Lists the segment files of a log directory in ascending order of their
/// numbers.
pub fn list_segments<V: Vfs>(vfs: &V, dir: &str) -> (result: Result<Vec<(u64, String)>, WalError>)
    ensures
        match result {
            Ok(files) => {
                &&& segment_names::lists_segments(vfs.state().names, dir@, files@)
                &&& vfs.dependable() ==> vfs.state().directories.contains(dir@)
            },
            Err(WalError::Io(_)) => !vfs.dependable() || !vfs.state().directories.contains(dir@),
            Err(error) => exists|name: Seq<char>| #[trigger]
                segment_names::is_malformed(vfs.state().names, dir@, name) && error@ == misnamed(
                    vfs::path_join(dir@, name),
                ),
        },
{
    match segment_names::list_numbered(vfs, dir) {
        Ok(files) => Ok(files),
        Err(ListingFault::Io(error)) => Err(WalError::io(error)),
        Err(ListingFault::Malformed(path)) => Err(
            WalError::corruption(path.as_str(), segment_names::malformed_name_message()),
        ),
    }
}

/// Persists segment creation and other directory-entry changes.
pub fn sync_all<V: Vfs>(vfs: &mut V, dir: &str) -> (result: Result<(), IoError>)
    ensures
        final(vfs).state() == old(vfs).state(),
        final(vfs).dependable() == old(vfs).dependable(),
        final(vfs).journal() == (if result is Ok {
            old(vfs).journal().with_names(dir@, old(vfs).state().names)
        } else {
            old(vfs).journal()
        }),
        old(vfs).dependable() ==> (result is Ok <==> old(vfs).state().directories.contains(dir@)),
{
    vfs.sync_dir(dir)
}

} // verus!
