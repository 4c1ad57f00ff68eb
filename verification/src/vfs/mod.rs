//! Virtual filesystem used by the log and by segments.

pub mod direct;
pub mod memory;
pub mod path;
pub mod standard;

use vstd::prelude::*;

verus! {

/// What kind of failure a filesystem reports.
#[derive(Debug, Clone, Copy, PartialEq, Eq, Structural)]
pub enum IoErrorKind {
    NotFound,
    AlreadyExists,
    InvalidInput,
    InvalidData,
    UnexpectedEof,
    Unsupported,
    Other,
}

/// A failure that a filesystem reports.
#[derive(Debug)]
pub struct IoError {
    pub kind: IoErrorKind,
    pub message: String,
}

impl IoError {
    /// A failure of the given kind, in the given words.
    pub fn new(kind: IoErrorKind, message: &str) -> (error: IoError)
        ensures
            error.kind == kind,
            error.message@ == message@,
    {
        IoError { kind, message: String::from_str(message) }
    }
}

/// How a file is opened.
#[derive(Debug, Clone, Copy, PartialEq, Eq, Structural)]
pub enum OpenOptions {
    Existing,
    CreateNew,
}

/// An opened file. Handles with the same number share the file's contents.
#[derive(Debug)]
pub struct VfsFile {
    pub id: u64,
    pub path: String,
}

impl Clone for VfsFile {
    fn clone(&self) -> (copy: VfsFile)
        ensures
            copy.id == self.id,
            copy.path@ == self.path@,
    {
        VfsFile { id: self.id, path: self.path.clone() }
    }
}

/// What a filesystem holds: its directories, the file behind each path, and
/// the contents of each file.
#[verifier::ext_equal]
pub struct FsState {
    pub directories: Set<Seq<char>>,
    pub names: Map<Seq<char>, u64>,
    pub data: Map<u64, Seq<u8>>,
}

impl FsState {
    /// Whether the file behind a handle is one of this filesystem's.
    pub open spec fn holds(self, file: &VfsFile) -> bool {
        self.data.contains_key(file.id)
    }

    /// The bytes of the file behind a handle.
    pub open spec fn contents(self, file: &VfsFile) -> Seq<u8> {
        self.data[file.id]
    }

    /// The state in which one file holds other bytes.
    pub open spec fn with_data(self, id: u64, bytes: Seq<u8>) -> FsState {
        FsState { data: self.data.insert(id, bytes), ..self }
    }

    /// The state with a new empty file, which every way to write its path
    /// names.
    pub open spec fn with_file(self, path: Seq<char>, id: u64) -> FsState {
        FsState {
            names: Map::new(|other: Seq<char>| path::same_path(other, path), |other: Seq<char>| id).union_prefer_right(
                self.names,
            ),
            data: self.data.insert(id, Seq::empty()),
            ..self
        }
    }

    /// The state in which a path, however it is written, no longer names a
    /// file. The contents stay readable through handles that are still open.
    pub open spec fn without_name(self, path: Seq<char>) -> FsState {
        FsState { names: unnamed(self.names, path), ..self }
    }

    /// Whether a path, however it is written, names no file.
    pub open spec fn is_free(self, path: Seq<char>) -> bool {
        forall|other: Seq<char>| path::same_path(other, path) ==> !#[trigger] self.names.contains_key(other)
    }

    /// Everything that `earlier` held is still there.
    pub open spec fn keeps(self, earlier: FsState) -> bool {
        &&& earlier.directories.subset_of(self.directories)
        &&& earlier.names.submap_of(self.names)
        &&& earlier.data.submap_of(self.data)
    }

    /// Only the contents of one file may differ from `earlier`.
    pub open spec fn same_but(self, earlier: FsState, id: u64) -> bool {
        &&& self.directories == earlier.directories
        &&& self.names == earlier.names
        &&& self.data.dom() == earlier.data.dom()
        &&& forall|other: u64| other != id && earlier.data.contains_key(other) ==> #[trigger] self.data[other] == earlier.data[other]
    }
}

/// The names without a path, however it is written.
pub open spec fn unnamed(names: Map<Seq<char>, u64>, path: Seq<char>) -> Map<Seq<char>, u64> {
    names.remove_keys(Set::new(|other: Seq<char>| path::same_path(other, path)))
}

/// What was made durable: the contents of each file when it was last
/// synchronized, and the names of files when each directory was.
#[verifier::ext_equal]
pub struct SyncJournal {
    pub files: Map<u64, Seq<u8>>,
    pub names: Map<Seq<char>, Map<Seq<char>, u64>>,
}

impl SyncJournal {
    /// The journal after a file was synchronized.
    pub open spec fn with_file(self, id: u64, bytes: Seq<u8>) -> SyncJournal {
        SyncJournal { files: self.files.insert(id, bytes), ..self }
    }

    /// Whether files and directories were at most synchronized since `earlier`.
    pub open spec fn advances(self, earlier: SyncJournal, state: FsState) -> bool {
        &&& forall|id: u64|
            earlier.files.contains_key(id) ==> #[trigger] self.files.contains_key(id) && (self.files[id]
                == earlier.files[id] || self.files[id] == state.data[id])
        &&& forall|dir: Seq<char>|
            earlier.names.contains_key(dir) ==> #[trigger] self.names.contains_key(dir) && (self.names[dir]
                == earlier.names[dir] || self.names[dir] == state.names)
    }

    /// The journal after a directory was synchronized.
    pub open spec fn with_names(self, dir: Seq<char>, names: Map<Seq<char>, u64>) -> SyncJournal {
        SyncJournal { names: self.names.insert(dir, names), ..self }
    }
}

/// `bytes` written over `contents` from `position` on.
pub open spec fn overwritten(contents: Seq<u8>, position: int, bytes: Seq<u8>) -> Seq<u8> {
    if position + bytes.len() < contents.len() {
        contents.take(position) + bytes + contents.skip(position + bytes.len())
    } else {
        contents.take(position) + bytes
    }
}

/// A path without its last part and the part itself, put together.
pub open spec fn path_join(dir: Seq<char>, name: Seq<char>) -> Seq<char> {
    if dir.len() == 0 {
        name
    } else if dir.last() == '/' {
        dir + name
    } else {
        dir.push('/') + name
    }
}

/// Different names in a directory give different paths.
pub proof fn joined_names_differ(dir: Seq<char>, left: Seq<char>, right: Seq<char>)
    requires
        path_join(dir, left) == path_join(dir, right),
    ensures
        left == right,
{
    let prefix = path_join(dir, Seq::empty());
    assert(path_join(dir, left) =~= prefix + left);
    assert(path_join(dir, right) =~= prefix + right);
    assert((prefix + left).skip(prefix.len() as int) =~= left);
    assert((prefix + right).skip(prefix.len() as int) =~= right);
}

/// Whether `name` is a single part of a path, and not the one that stays where
/// it is.
pub open spec fn is_file_name(name: Seq<char>) -> bool {
    &&& name.len() > 0
    &&& name != seq!['.']
    &&& forall|i: int| 0 <= i < name.len() ==> name[i] != '/'
}

/// A path without its last part and the part itself, put together.
pub fn join_path(dir: &str, name: &str) -> (path: String)
    ensures
        path@ == path_join(dir@, name@),
{
    let length: usize = dir.unicode_len();
    if length == 0 {
        return String::from_str(name);
    }
    let mut path: String = String::from_str(dir);
    if dir.get_char(length - 1) != '/' {
        proof {
            reveal_strlit("/");
        }
        path.append("/");
        assert(path@ =~= dir@.push('/'));
    }
    path.append(name);
    path
}

/// Whether a path is that of a file directly inside `dir`.
pub open spec fn stands_in(dir: Seq<char>, path: Seq<char>) -> bool {
    exists|name: Seq<char>| is_file_name(name) && path == #[trigger] path_join(dir, name)
}

/// Whether a file stands directly inside `dir`.
pub open spec fn is_occupied(names: Map<Seq<char>, u64>, dir: Seq<char>) -> bool {
    exists|name: Seq<char>| is_file_name(name) && names.contains_key(#[trigger] path_join(dir, name))
}

/// What stands before a name in the paths of a directory's files.
pub open spec fn path_prefix(dir: Seq<char>) -> Seq<char> {
    if dir.len() == 0 || dir.last() == '/' {
        dir
    } else {
        dir.push('/')
    }
}

/// A path is its directory's prefix and its name.
pub proof fn join_is_prefixed(dir: Seq<char>, name: Seq<char>)
    ensures
        path_join(dir, name) == path_prefix(dir) + name,
{
    assert(path_join(dir, name) =~= path_prefix(dir) + name);
}

/// Whether one of the texts is the given one.
pub open spec fn is_among(texts: Seq<String>, text: Seq<char>) -> bool {
    exists|i: int| 0 <= i < texts.len() && (#[trigger] texts[i])@ == text
}

/// The name of `path` inside `dir`, where the path stands directly in it.
pub fn name_inside(dir: &str, path: &str) -> (name: Option<String>)
    ensures
        match name {
            Some(name) => is_file_name(name@) && path@ == path_join(dir@, name@),
            None => forall|name: Seq<char>|
                is_file_name(name) ==> path@ != #[trigger] path_join(dir@, name),
        },
{
    let empty: String = String::new();
    let prefix: String = join_path(dir, empty.as_str());
    let length: usize = path.unicode_len();
    let start: usize = prefix.as_str().unicode_len();
    proof {
        join_is_prefixed(dir@, empty@);
        assert(prefix@ =~= path_prefix(dir@));
        assert forall|name: Seq<char>| #[trigger] path_join(dir@, name) == prefix@ + name by {
            join_is_prefixed(dir@, name);
        }
    }
    if length <= start {
        return None;
    }
    let head: String = String::from_str(path.substring_char(0, start));
    if head != prefix {
        proof {
            assert forall|name: Seq<char>| path@ != #[trigger] path_join(dir@, name) by {
                assert((prefix@ + name).subrange(0, start as int) =~= prefix@);
            }
        }
        return None;
    }
    let name: String = String::from_str(path.substring_char(start, length));
    assert(path@ =~= prefix@ + name@);
    if length - start == 1 && path.get_char(start) == '.' {
        proof {
            assert forall|other: Seq<char>| is_file_name(other) implies path@ != #[trigger] path_join(dir@, other) by {
                if path@ == prefix@ + other {
                    assert(other[0] == path@[start as int]);
                    assert(other =~= seq!['.']);
                }
            }
        }
        return None;
    }
    let mut at: usize = start;
    while at < length
        invariant
            start <= at <= length,
            length == path@.len(),
            name@ == path@.subrange(start as int, length as int),
            forall|i: int| start <= i < at ==> path@[i] != '/',
            prefix@.len() == start,
            forall|name: Seq<char>| #[trigger] path_join(dir@, name) == prefix@ + name,
        decreases length - at,
    {
        if path.get_char(at) == '/' {
            proof {
                assert forall|name: Seq<char>| is_file_name(name) implies path@ != #[trigger] path_join(
                    dir@,
                    name,
                ) by {
                    if path@ == prefix@ + name {
                        assert(path@[at as int] == name[at - start]);
                    }
                }
            }
            return None;
        }
        at += 1;
    }
    assert forall|i: int| 0 <= i < name@.len() implies name@[i] != '/' by {
        assert(name@[i] == path@[start + i]);
    }
    proof {
        if name@ == seq!['.'] {
            assert(name@.len() == 1);
            assert(name@[0] == path@[start as int]);
        }
    }
    Some(name)
}

/// Positioned reads, single-writer appends and the names of files.
///
/// A call may fail for reasons of its own. A filesystem that is `dependable`
/// fails only where the arguments call for it.
pub trait Vfs: Sized {
    /// What the filesystem holds.
    spec fn state(&self) -> FsState;

    /// What was made durable.
    spec fn journal(&self) -> SyncJournal;

    /// Calls fail only where their arguments call for it.
    spec fn dependable(&self) -> bool;

    /// The required alignment of file positions and lengths, if any.
    spec fn required_alignment(&self) -> Option<u64>;

    /// Returns the required file-offset and I/O-length alignment, if any.
    fn alignment(&self) -> (alignment: Option<u64>)
        ensures
            alignment == self.required_alignment(),
    ;

    fn create_dir(&mut self, path: &str) -> (result: Result<(), IoError>)
        ensures
            final(self).dependable() == old(self).dependable(),
            final(self).required_alignment() == old(self).required_alignment(),
            final(self).journal() == old(self).journal(),
            final(self).state().keeps(old(self).state()),
            final(self).state().names == old(self).state().names,
            final(self).state().data == old(self).state().data,
            result is Ok ==> final(self).state().directories.contains(path@),
            old(self).dependable() ==> result is Ok,
    ;

    fn open(&mut self, path: &str, options: OpenOptions) -> (result: Result<VfsFile, IoError>)
        ensures
            final(self).dependable() == old(self).dependable(),
            final(self).required_alignment() == old(self).required_alignment(),
            final(self).journal() == old(self).journal(),
            match (options, result) {
                (OpenOptions::Existing, Ok(file)) => {
                    &&& old(self).state().names.contains_key(path@)
                    &&& file.id == old(self).state().names[path@]
                    &&& file.path@ == path@
                    &&& final(self).state() == old(self).state()
                    &&& final(self).state().holds(&file)
                },
                (OpenOptions::CreateNew, Ok(file)) => {
                    &&& old(self).state().is_free(path@)
                    &&& !old(self).state().names.contains_key(path@)
                    &&& !old(self).state().data.contains_key(file.id)
                    &&& file.path@ == path@
                    &&& final(self).state() == old(self).state().with_file(path@, file.id)
                },
                (OpenOptions::Existing, Err(_)) => final(self).state() == old(self).state(),
                (OpenOptions::CreateNew, Err(_)) => {
                    &&& final(self).state().keeps(old(self).state())
                    &&& old(self).dependable() ==> final(self).state() == old(self).state()
                },
            },
            old(self).dependable() ==> (result is Ok <==> (old(self).state().names.contains_key(path@) <==> options
                == OpenOptions::Existing)),
            old(self).dependable() && result is Err ==> result->Err_0.kind == (match options {
                OpenOptions::Existing => IoErrorKind::NotFound,
                OpenOptions::CreateNew => IoErrorKind::AlreadyExists,
            }),
    ;

    /// The paths of the files directly inside `dir`, in some order.
    fn list(&self, dir: &str) -> (result: Result<Vec<String>, IoError>)
        ensures
            result matches Ok(paths) ==> {
                &&& forall|i: int|
                    0 <= i < paths@.len() ==> stands_in(dir@, #[trigger] paths@[i]@)
                        && self.state().names.contains_key(paths@[i]@)
                &&& forall|name: Seq<char>|
                    is_file_name(name) && #[trigger] self.state().names.contains_key(path_join(dir@, name))
                        ==> is_among(paths@, path_join(dir@, name))
                &&& forall|i: int, j: int| 0 <= i < j < paths@.len() ==> paths@[i]@ != paths@[j]@
            },
            self.dependable() ==> (result is Ok <==> self.state().directories.contains(dir@)),
    ;

    fn remove(&mut self, path: &str) -> (result: Result<(), IoError>)
        ensures
            final(self).dependable() == old(self).dependable(),
            final(self).required_alignment() == old(self).required_alignment(),
            final(self).journal() == old(self).journal(),
            result is Ok ==> old(self).state().names.contains_key(path@) && final(self).state() == old(
                self,
            ).state().without_name(path@),
            result is Err ==> final(self).state() == old(self).state(),
            old(self).dependable() ==> (result is Ok <==> old(self).state().names.contains_key(path@)),
            old(self).dependable() && result is Err ==> result->Err_0.kind == IoErrorKind::NotFound && old(
                self,
            ).state().is_free(path@),
    ;

    /// Makes changes to the names in `dir` durable.
    fn sync_dir(&mut self, dir: &str) -> (result: Result<(), IoError>)
        ensures
            final(self).dependable() == old(self).dependable(),
            final(self).required_alignment() == old(self).required_alignment(),
            final(self).journal() == (if result is Ok {
                old(self).journal().with_names(dir@, old(self).state().names)
            } else {
                old(self).journal()
            }),
            final(self).state() == old(self).state(),
            old(self).dependable() ==> (result is Ok <==> old(self).state().directories.contains(dir@)),
    ;

    fn size(&self, file: &VfsFile) -> (result: Result<u64, IoError>)
        requires
            self.state().holds(file),
        ensures
            result matches Ok(size) ==> size == self.state().contents(file).len(),
            self.dependable() ==> result is Ok,
    ;

    /// Reads exactly `length` bytes starting at `position`.
    fn read_at(&self, file: &VfsFile, position: u64, length: usize) -> (result: Result<Vec<u8>, IoError>)
        requires
            self.state().holds(file),
        ensures
            result matches Ok(bytes) ==> {
                &&& bytes@.len() == length
                &&& length > 0 ==> position + length <= self.state().contents(file).len() && bytes@ == self.state().contents(
                    file,
                ).subrange(position as int, position + length)
            },
            self.dependable() && position + length <= self.state().contents(file).len() ==> result is Ok,
    ;

    /// Appends all bytes and returns their starting file position. A failed
    /// append may leave some of the bytes behind; the next one writes over
    /// them.
    fn append(&mut self, file: &VfsFile, bytes: &[u8]) -> (result: Result<u64, IoError>)
        requires
            old(self).state().holds(file),
        ensures
            final(self).dependable() == old(self).dependable(),
            final(self).required_alignment() == old(self).required_alignment(),
            final(self).journal() == old(self).journal(),
            final(self).state().holds(file),
            final(self).state().same_but(old(self).state(), file.id),
            match result {
                Ok(position) => {
                    &&& position <= old(self).state().contents(file).len()
                    &&& final(self).state().contents(file) == overwritten(
                        old(self).state().contents(file),
                        position as int,
                        bytes@,
                    )
                },
                Err(_) => old(self).state().contents(file).is_prefix_of(final(self).state().contents(file)),
            },
            old(self).dependable() && old(self).state().contents(file).len() + bytes@.len() <= usize::MAX ==> result == Ok::<
                u64,
                IoError,
            >(old(self).state().contents(file).len() as u64),
    ;

    /// Removes bytes after `size`.
    fn truncate(&mut self, file: &VfsFile, size: u64) -> (result: Result<(), IoError>)
        requires
            old(self).state().holds(file),
        ensures
            final(self).dependable() == old(self).dependable(),
            final(self).required_alignment() == old(self).required_alignment(),
            final(self).journal() == old(self).journal(),
            final(self).state().holds(file),
            final(self).state().same_but(old(self).state(), file.id),
            result is Ok && size <= old(self).state().contents(file).len() ==> final(self).state().contents(file) == old(
                self,
            ).state().contents(file).take(size as int),
            result is Err ==> final(self).state().contents(file) == old(self).state().contents(file),
            old(self).dependable() && size <= old(self).state().contents(file).len() ==> result is Ok,
    ;

    /// Makes the bytes of a file durable.
    fn sync(&mut self, file: &VfsFile) -> (result: Result<(), IoError>)
        requires
            old(self).state().holds(file),
        ensures
            final(self).dependable() == old(self).dependable(),
            final(self).required_alignment() == old(self).required_alignment(),
            final(self).journal() == (if result is Ok {
                old(self).journal().with_file(file.id, old(self).state().contents(file))
            } else {
                old(self).journal()
            }),
            final(self).state() == old(self).state(),
            old(self).dependable() ==> result is Ok,
    ;

    /// Says that the bytes before `end` need not stay cached.
    fn discard_cache(&mut self, file: &VfsFile, end: u64)
        requires
            old(self).state().holds(file),
        ensures
            final(self).dependable() == old(self).dependable(),
            final(self).required_alignment() == old(self).required_alignment(),
            final(self).journal() == old(self).journal(),
            final(self).state() == old(self).state(),
    ;
}

/// The names of the files directly inside `dir`, in some order.
pub fn list_names<V: Vfs>(vfs: &V, dir: &str) -> (result: Result<Vec<String>, IoError>)
    ensures
        result matches Ok(names) ==> {
            &&& forall|i: int|
                0 <= i < names@.len() ==> is_file_name(#[trigger] names@[i]@) && vfs.state().names.contains_key(
                    path_join(dir@, names@[i]@),
                )
            &&& forall|name: Seq<char>|
                is_file_name(name) && #[trigger] vfs.state().names.contains_key(path_join(dir@, name))
                    ==> is_among(names@, name)
            &&& forall|i: int, j: int| 0 <= i < j < names@.len() ==> names@[i]@ != names@[j]@
        },
        vfs.dependable() ==> (result is Ok <==> vfs.state().directories.contains(dir@)),
{
    let paths: Vec<String> = match vfs.list(dir) {
        Ok(paths) => paths,
        Err(error) => {
            return Err(error);
        },
    };
    let mut names: Vec<String> = Vec::new();
    let mut at: usize = 0;
    while at < paths.len()
        invariant
            at <= paths@.len(),
            names@.len() == at,
            forall|i: int| 0 <= i < paths@.len() ==> stands_in(dir@, #[trigger] paths@[i]@),
            forall|i: int|
                0 <= i < at ==> is_file_name(#[trigger] names@[i]@) && paths@[i]@ == path_join(dir@, names@[i]@),
        decreases paths@.len() - at,
    {
        assert(stands_in(dir@, paths@[at as int]@));
        if let Some(name) = name_inside(dir, paths[at].as_str()) {
            names.push(name);
        }
        at += 1;
    }
    proof {
        assert forall|name: Seq<char>|
            is_file_name(name) && #[trigger] vfs.state().names.contains_key(path_join(dir@, name)) implies is_among(
            names@,
            name,
        ) by {
            let i = choose|i: int| 0 <= i < paths@.len() && (#[trigger] paths@[i])@ == path_join(dir@, name);
            assert(is_file_name(names@[i]@));
            joined_names_differ(dir@, names@[i]@, name);
        }
        assert forall|i: int| 0 <= i < names@.len() implies is_file_name(#[trigger] names@[i]@)
            && vfs.state().names.contains_key(path_join(dir@, names@[i]@)) by {
            assert(stands_in(dir@, paths@[i]@));
        }
        assert forall|i: int, j: int| 0 <= i < j < names@.len() implies names@[i]@ != names@[j]@ by {
            assert(paths@[i]@ != paths@[j]@);
            assert(is_file_name(names@[i]@) && is_file_name(names@[j]@));
        }
    }
    Ok(names)
}

/// Bytes are written where they belong: from the position on the file holds
/// them, and everywhere else what it held before.
pub proof fn written_bytes_stand_in_their_place(contents: Seq<u8>, position: int, bytes: Seq<u8>, at: int)
    requires
        0 <= position <= contents.len(),
    ensures
        ({
            let after = overwritten(contents, position, bytes);
            &&& after.len() == (if position + bytes.len() < contents.len() {
                contents.len() as int
            } else {
                position + bytes.len()
            })
            &&& position <= at < position + bytes.len() ==> after[at] == bytes[at - position]
            &&& 0 <= at < position || position + bytes.len() <= at < contents.len() ==> after[at] == contents[at]
            &&& position == contents.len() ==> after == contents + bytes
        }),
{
    assert(overwritten(contents, contents.len() as int, bytes) =~= contents + bytes);
}

/// A new file is empty and has its path, however that is written. Its removal
/// takes the path away again, and nothing else.
pub proof fn files_come_and_go(state: FsState, path: Seq<char>, id: u64, other: Seq<char>, held: u64)
    requires
        state.is_free(path),
        !state.data.contains_key(id),
    ensures
        ({
            let created = state.with_file(path, id);
            let removed = created.without_name(path);
            &&& created.names.contains_key(path) && created.names[path] == id
            &&& created.data[id].len() == 0
            &&& path::plain(other) == path::plain(path) ==> created.names.contains_key(other)
                && created.names[other] == id && !removed.names.contains_key(other)
            &&& path::plain(other) != path::plain(path) ==> created.names.contains_key(other)
                == state.names.contains_key(other)
            &&& state.names.contains_key(other) ==> created.names[other] == state.names[other]
            &&& state.data.contains_key(held) ==> created.data.contains_key(held) && created.data[held]
                == state.data[held]
            &&& created.data.contains_key(held) ==> held == id || state.data.contains_key(held)
            &&& created.directories == state.directories && removed.directories == state.directories
            &&& removed.names == state.names
            &&& removed.data == created.data
        }),
{
    let created = state.with_file(path, id);
    let removed = created.without_name(path);
    assert(path::same_path(path, path));
    if path::same_path(other, path) {
        assert(!state.names.contains_key(other));
    }
    assert forall|name: Seq<char>| removed.names.contains_key(name) == #[trigger] state.names.contains_key(name) by {
        if path::same_path(name, path) {
            assert(!state.names.contains_key(name));
        }
    }
    assert(removed.names =~= state.names);
}

/// A removed path names no file, however it is written. The other paths and all
/// contents stay.
pub proof fn removed_path_names_nothing(state: FsState, path: Seq<char>, other: Seq<char>)
    ensures
        state.without_name(path).is_free(path),
        path::plain(other) == path::plain(path) ==> !state.without_name(path).names.contains_key(other),
        path::plain(other) != path::plain(path) ==> {
            &&& state.without_name(path).names.contains_key(other) == state.names.contains_key(other)
            &&& state.names.contains_key(other) ==> state.without_name(path).names[other] == state.names[other]
        },
        state.without_name(path).data == state.data,
        state.without_name(path).directories == state.directories,
{
}

/// A sync makes one file or the names of one directory durable, as they are.
pub proof fn sync_adds_to_the_journal(
    journal: SyncJournal,
    state: FsState,
    file: VfsFile,
    dir: Seq<char>,
    other: u64,
    elsewhere: Seq<char>,
)
    ensures
        ({
            let synced = journal.with_file(file.id, state.contents(&file));
            let listed = journal.with_names(dir, state.names);
            &&& synced.files.contains_key(file.id) && synced.files[file.id] == state.data[file.id]
            &&& other != file.id ==> synced.files.contains_key(other) == journal.files.contains_key(other)
                && synced.files[other] == journal.files[other]
            &&& synced.names == journal.names
            &&& listed.names.contains_key(dir) && listed.names[dir] == state.names
            &&& elsewhere != dir ==> listed.names.contains_key(elsewhere) == journal.names.contains_key(elsewhere)
                && listed.names[elsewhere] == journal.names[elsewhere]
            &&& listed.files == journal.files
        }),
{
}

/// A joined path starts with the directory and ends with the name, and a slash
/// stands between them, unless there is no directory.
pub proof fn joined_path_holds_both(dir: Seq<char>, name: Seq<char>)
    ensures
        ({
            let path = path_join(dir, name);
            let before = path.len() - name.len();
            &&& dir.len() <= before <= dir.len() + 1
            &&& path.take(dir.len() as int) == dir
            &&& path.skip(before) == name
            &&& dir.len() == 0 ==> path == name
            &&& dir.len() > 0 ==> path[before - 1] == '/'
            &&& dir.len() > 0 && dir.last() == '/' ==> before == dir.len()
        }),
{
    let path = path_join(dir, name);
    let before = path.len() - name.len();
    assert(path.take(dir.len() as int) =~= dir);
    assert(path.skip(before) =~= name);
}

/// What a filesystem keeps can still be found: its directories, the file behind
/// each path and the bytes of each file.
pub proof fn kept_files_are_found(earlier: FsState, later: FsState, dir: Seq<char>, path: Seq<char>, id: u64)
    requires
        later.keeps(earlier),
    ensures
        earlier.directories.contains(dir) ==> later.directories.contains(dir),
        earlier.names.contains_key(path) ==> later.names.contains_key(path) && later.names[path] == earlier.names[path],
        earlier.data.contains_key(id) ==> later.data.contains_key(id) && later.data[id] == earlier.data[id],
{
}

/// A change of one file leaves the directories, the names and the other files as
/// they were.
pub proof fn other_files_stay(earlier: FsState, later: FsState, id: u64, other: u64)
    requires
        later.same_but(earlier, id),
    ensures
        later.directories == earlier.directories,
        later.names == earlier.names,
        later.data.contains_key(other) <==> earlier.data.contains_key(other),
        other != id && earlier.data.contains_key(other) ==> later.data[other] == earlier.data[other],
{
    assert(later.data.dom().contains(other) <==> earlier.data.dom().contains(other));
}

/// What was made durable stays so, in the state of that time or of now.
pub proof fn durable_bytes_stay_durable(
    earlier: SyncJournal,
    later: SyncJournal,
    state: FsState,
    id: u64,
    dir: Seq<char>,
)
    requires
        later.advances(earlier, state),
    ensures
        earlier.files.contains_key(id) ==> later.files.contains_key(id) && (later.files[id] == earlier.files[id]
            || later.files[id] == state.data[id]),
        earlier.names.contains_key(dir) ==> later.names.contains_key(dir) && (later.names[dir] == earlier.names[dir]
            || later.names[dir] == state.names),
{
    if earlier.names.contains_key(dir) {
        assert(later.names.contains_key(dir));
    }
}

} // verus!
