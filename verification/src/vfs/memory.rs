//! In-memory filesystem.

use vstd::prelude::*;
use crate::bytestr;
use crate::vfs;
use crate::vfs::path;
use crate::vfs::{FsState, IoError, IoErrorKind, OpenOptions, SyncJournal, Vfs, VfsFile};

verus! {

/// The contents of one file, and the path that names it while it is linked.
#[derive(Debug)]
pub struct MemoryFile {
    path: String,
    linked: bool,
    data: Vec<u8>,
}

impl View for MemoryFile {
    type V = Seq<u8>;

    closed spec fn view(&self) -> Seq<u8> {
        self.data@
    }
}

impl MemoryFile {
    /// The path under which the file was created, in its shortest form.
    pub closed spec fn location(&self) -> Seq<char> {
        self.path@
    }

    /// Whether the path still names the file.
    pub closed spec fn is_linked(&self) -> bool {
        self.linked
    }

    /// A new file without bytes.
    fn new(path: &str) -> (file: MemoryFile)
        ensures
            file@ == Seq::<u8>::empty(),
            file.path@ == path::plain(path@),
            file.linked,
    {
        MemoryFile { path: path::plain_path(path), linked: true, data: Vec::new() }
    }

    pub fn path(&self) -> (path: &str)
        ensures
            path@ == self.location(),
    {
        self.path.as_str()
    }

    pub fn size(&self) -> (size: u64)
        ensures
            size == self@.len(),
    {
        self.data.len() as u64
    }

    /// Reads exactly `length` bytes starting at `position`.
    pub fn read_at(&self, position: u64, length: usize) -> (result: Result<Vec<u8>, IoError>)
        ensures
            match result {
                Ok(bytes) => {
                    &&& position + length <= self@.len()
                    &&& bytes@ == self@.subrange(position as int, position + length)
                },
                Err(error) => {
                    &&& position + length > self@.len()
                    &&& error.kind == (if position + length > usize::MAX {
                        IoErrorKind::InvalidInput
                    } else {
                        IoErrorKind::UnexpectedEof
                    })
                },
            },
    {
        assert(self.data.len() <= usize::MAX);
        if position > usize::MAX as u64 {
            return Err(IoError::new(IoErrorKind::InvalidInput, "position does not fit usize"));
        }
        let position: usize = position as usize;
        let end: usize = match position.checked_add(length) {
            Some(end) => end,
            None => {
                return Err(IoError::new(IoErrorKind::InvalidInput, "read range overflows usize"));
            },
        };
        if end > self.data.len() {
            return Err(IoError::new(IoErrorKind::UnexpectedEof, "read extends past end of file"));
        }
        Ok(bytestr::copy_range(&self.data, position, end))
    }

    /// Appends all bytes and returns their starting file position.
    pub fn append(&mut self, bytes: &[u8]) -> (position: u64)
        ensures
            position == old(self)@.len(),
            final(self)@ == old(self)@ + bytes@,
            final(self).location() == old(self).location(),
            final(self).is_linked() == old(self).is_linked(),
    {
        let position: u64 = self.data.len() as u64;
        bytestr::put_bytes(&mut self.data, bytes);
        position
    }

    /// Removes bytes after `size`.
    pub fn truncate(&mut self, size: u64) -> (result: Result<(), IoError>)
        ensures
            final(self).location() == old(self).location(),
            final(self).is_linked() == old(self).is_linked(),
            match result {
                Ok(()) => {
                    &&& size <= usize::MAX
                    &&& final(self)@ == (if size <= old(self)@.len() {
                        old(self)@.take(size as int)
                    } else {
                        old(self)@
                    })
                },
                Err(error) => {
                    &&& size > usize::MAX
                    &&& size > old(self)@.len()
                    &&& error.kind == IoErrorKind::InvalidInput
                    &&& *final(self) == *old(self)
                },
            },
    {
        assert(self.data.len() <= usize::MAX);
        if size > usize::MAX as u64 {
            return Err(IoError::new(IoErrorKind::InvalidInput, "file length does not fit usize"));
        }
        self.data.truncate(size as usize);
        Ok(())
    }
}

/// Where the newest file with the given path stands, of those that are linked.
spec fn found(files: Seq<MemoryFile>, path: Seq<char>) -> Option<int>
    decreases files.len(),
{
    if files.len() == 0 {
        None
    } else if files.last().linked && files.last().path@ == path {
        Some(files.len() - 1)
    } else {
        found(files.drop_last(), path)
    }
}

proof fn found_is_linked(files: Seq<MemoryFile>, path: Seq<char>)
    ensures
        match found(files, path) {
            Some(at) => 0 <= at < files.len() && files[at].linked && files[at].path@ == path,
            None => forall|i: int| 0 <= i < files.len() ==> !((#[trigger] files[i]).linked && files[i].path@ == path),
        },
    decreases files.len(),
{
    if files.len() > 0 && !(files.last().linked && files.last().path@ == path) {
        found_is_linked(files.drop_last(), path);
        assert forall|i: int| 0 <= i < files.len() && found(files, path) is None implies !((
        #[trigger] files[i]).linked && files[i].path@ == path) by {
            if i < files.len() - 1 {
                assert(files.drop_last()[i] == files[i]);
            }
        }
    }
}

proof fn found_by_links(left: Seq<MemoryFile>, right: Seq<MemoryFile>, path: Seq<char>)
    requires
        left.len() == right.len(),
        forall|i: int|
            0 <= i < left.len() ==> ((#[trigger] left[i]).linked && left[i].path@ == path) == (right[i].linked
                && right[i].path@ == path),
    ensures
        found(left, path) == found(right, path),
    decreases left.len(),
{
    if left.len() > 0 {
        assert(left[left.len() - 1].linked && left.last().path@ == path <==> right.last().linked && right.last().path@
            == path);
        assert forall|i: int| 0 <= i < left.len() - 1 implies ((#[trigger] left.drop_last()[i]).linked
            && left.drop_last()[i].path@ == path) == (right.drop_last()[i].linked && right.drop_last()[i].path@
            == path) by {
            assert(left[i] == left.drop_last()[i]);
        }
        found_by_links(left.drop_last(), right.drop_last(), path);
    }
}

/// A filesystem that keeps everything in memory.
pub struct MemoryVfs {
    directories: Vec<String>,
    files: Vec<MemoryFile>,
    journal: Ghost<SyncJournal>,
}

/// The paths that name one of the directories, however they are written.
pub open spec fn spellings(dirs: Set<Seq<char>>) -> Set<Seq<char>> {
    Set::new(|other: Seq<char>| dirs.contains(path::plain(other)))
}

/// The directories before the first slashes of a path.
spec fn passed(path: Seq<char>, count: int) -> Set<Seq<char>> {
    Set::new(
        |dir: Seq<char>| exists|i: int| 0 <= i < count && path[i] == '/' && dir == #[trigger] path::before_slash(path, i),
    )
}

proof fn one_more_passed(path: Seq<char>, count: int)
    requires
        0 <= count < path.len(),
    ensures
        passed(path, count + 1) == (if path[count] == '/' {
            passed(path, count).insert(path::before_slash(path, count))
        } else {
            passed(path, count)
        }),
{
    let more = passed(path, count + 1);
    let wanted = if path[count] == '/' {
        passed(path, count).insert(path::before_slash(path, count))
    } else {
        passed(path, count)
    };
    assert forall|dir: Seq<char>| more.contains(dir) == wanted.contains(dir) by {
        if more.contains(dir) {
            let i = choose|i: int| 0 <= i < count + 1 && path[i] == '/' && dir == #[trigger] path::before_slash(path, i);
            if i < count {
                assert(passed(path, count).contains(dir));
            }
        }
        if passed(path, count).contains(dir) {
            let i = choose|i: int| 0 <= i < count && path[i] == '/' && dir == #[trigger] path::before_slash(path, i);
            assert(more.contains(dir));
        }
        if path[count] == '/' && dir == path::before_slash(path, count) {
            assert(more.contains(dir));
        }
    }
    assert(more =~= wanted);
}

spec fn texts(strings: Seq<String>) -> Set<Seq<char>> {
    Set::new(|text: Seq<char>| exists|i: int| 0 <= i < strings.len() && (#[trigger] strings[i])@ == text)
}

proof fn texts_push(strings: Seq<String>, string: String)
    ensures
        texts(strings.push(string)) == texts(strings).insert(string@),
{
    let pushed = strings.push(string);
    assert forall|text: Seq<char>| texts(pushed).contains(text) == texts(strings).insert(string@).contains(text) by {
        if texts(strings).contains(text) {
            let i = choose|i: int| 0 <= i < strings.len() && (#[trigger] strings[i])@ == text;
            assert(pushed[i]@ == text);
        }
        if text == string@ {
            assert(pushed[strings.len() as int]@ == text);
        }
        if texts(pushed).contains(text) {
            let i = choose|i: int| 0 <= i < pushed.len() && (#[trigger] pushed[i])@ == text;
            if i < strings.len() {
                assert(strings[i]@ == text);
            }
        }
    }
    assert(texts(pushed) =~= texts(strings).insert(string@));
}

impl MemoryVfs {
    /// An empty filesystem, of which nothing was synced yet.
    pub fn new() -> (vfs: MemoryVfs)
        ensures
            vfs.state() == (FsState {
                directories: Set::empty(),
                names: Map::empty(),
                data: Map::empty(),
            }),
            vfs.journal() == (SyncJournal { files: Map::empty(), names: Map::empty() }),
    {
        let vfs = MemoryVfs {
            directories: Vec::new(),
            files: Vec::new(),
            journal: Ghost(SyncJournal { files: Map::empty(), names: Map::empty() }),
        };
        assert(vfs.state().directories =~= Set::<Seq<char>>::empty());
        assert(vfs.state().names =~= Map::<Seq<char>, u64>::empty());
        assert(vfs.state().data =~= Map::<u64, Seq<u8>>::empty());
        vfs
    }

    fn has_directory(&self, dir: &str) -> (present: bool)
        ensures
            present == self.state().directories.contains(dir@),
    {
        let wanted: String = path::plain_path(dir);
        let mut at: usize = 0;
        while at < self.directories.len()
            invariant
                at <= self.directories@.len(),
                wanted@ == path::plain(dir@),
                forall|i: int| 0 <= i < at ==> (#[trigger] self.directories@[i])@ != wanted@,
            decreases self.directories@.len() - at,
        {
            if self.directories[at] == wanted {
                assert(self.directories@[at as int]@ == wanted@);
                return true;
            }
            at += 1;
        }
        false
    }

    /// Adds one directory.
    fn add_directory(&mut self, dir: String)
        ensures
            texts(final(self).directories@) == texts(old(self).directories@).insert(dir@),
            final(self).files == old(self).files,
            final(self).journal == old(self).journal,
    {
        proof {
            texts_push(self.directories@, dir);
        }
        self.directories.push(dir);
    }

    fn place(&self, file: &VfsFile) -> (at: usize)
        requires
            self.state().holds(file),
        ensures
            at == file.id,
            at < self.files@.len(),
    {
        assert(self.files.len() <= usize::MAX);
        file.id as usize
    }

    fn find(&self, path: &str) -> (place: Option<usize>)
        ensures
            match place {
                Some(at) => found(self.files@, path::plain(path@)) == Some(at as int) && at < self.files@.len(),
                None => found(self.files@, path::plain(path@)) is None,
            },
    {
        let wanted: String = path::plain_path(path);
        let mut left: usize = self.files.len();
        assert(self.files@.take(left as int) =~= self.files@);
        while left > 0
            invariant
                left <= self.files@.len(),
                wanted@ == path::plain(path@),
                found(self.files@, wanted@) == found(self.files@.take(left as int), wanted@),
            decreases left,
        {
            assert(self.files@.take(left as int).drop_last() =~= self.files@.take(left - 1));
            if self.files[left - 1].linked && self.files[left - 1].path == wanted {
                return Some(left - 1);
            }
            left -= 1;
        }
        None
    }
}

impl Default for MemoryVfs {
    fn default() -> (vfs: MemoryVfs)
        ensures
            vfs.state() == (FsState {
                directories: Set::empty(),
                names: Map::empty(),
                data: Map::empty(),
            }),
            vfs.journal() == (SyncJournal { files: Map::empty(), names: Map::empty() }),
    {
        MemoryVfs::new()
    }
}

impl Vfs for MemoryVfs {
    closed spec fn state(&self) -> FsState {
        FsState {
            directories: Set::new(|dir: Seq<char>| texts(self.directories@).contains(path::plain(dir))),
            names: Map::new(
                |path: Seq<char>| found(self.files@, path::plain(path)) is Some,
                |path: Seq<char>| found(self.files@, path::plain(path))->0 as u64,
            ),
            data: Map::new(|id: u64| id < self.files@.len(), |id: u64| self.files@[id as int]@),
        }
    }

    closed spec fn journal(&self) -> SyncJournal {
        self.journal@
    }

    open spec fn dependable(&self) -> bool {
        true
    }

    open spec fn required_alignment(&self) -> Option<u64> {
        None
    }

    fn alignment(&self) -> (alignment: Option<u64>) {
        None
    }

    fn create_dir(&mut self, path: &str) -> (result: Result<(), IoError>)
        ensures
            result is Ok,
            final(self).state() == (FsState {
                directories: old(self).state().directories.union(spellings(path::ancestors(path@))),
                ..old(self).state()
            }),
    {
        let ghost before = texts(self.directories@);
        let short: String = path::plain_path(path);
        let length: usize = short.as_str().unicode_len();
        let mut at: usize = 0;
        assert(passed(short@, 0) =~= Set::empty());
        assert(before.union(Set::empty()) =~= before);
        while at < length
            invariant
                at <= length,
                length == short@.len(),
                self.files == old(self).files,
                self.journal == old(self).journal,
                texts(self.directories@) == before.union(passed(short@, at as int)),
            decreases length - at,
        {
            proof {
                one_more_passed(short@, at as int);
            }
            if short.as_str().get_char(at) == '/' {
                let end: usize = if at == 0 { 1 } else { at };
                let dir: String = String::from_str(short.as_str().substring_char(0, end));
                assert(dir@ =~= path::before_slash(short@, at as int));
                self.add_directory(dir);
                assert(texts(self.directories@) =~= before.union(passed(short@, at + 1)));
            }
            at += 1;
        }
        if length > 0 && short.as_str().get_char(0) != '/' {
            let root: String = String::new();
            assert(root@ =~= Seq::<char>::empty());
            self.add_directory(root);
        }
        let ghost wanted = short@;
        self.add_directory(short);
        proof {
            let dirs = path::ancestors(path@);
            let empty = Seq::<char>::empty();
            assert forall|dir: Seq<char>| texts(self.directories@).contains(dir) == before.union(dirs).contains(dir) by {
                if dir.len() == 0 {
                    assert(dir =~= empty);
                }
                assert(passed(wanted, wanted.len() as int).contains(dir) ==> dirs.contains(dir));
            }
            assert(texts(self.directories@) =~= before.union(dirs));
            assert(self.state().directories =~= old(self).state().directories.union(spellings(dirs)));
            assert(self.state().names =~= old(self).state().names);
            assert(self.state().data =~= old(self).state().data);
        }
        Ok(())
    }

    fn open(&mut self, path: &str, options: OpenOptions) -> (result: Result<VfsFile, IoError>) {
        proof {
            found_is_linked(self.files@, path::plain(path@));
        }
        let place: Option<usize> = self.find(path);
        match options {
            OpenOptions::Existing => match place {
                Some(at) => Ok(VfsFile { id: at as u64, path: String::from_str(path) }),
                None => Err(IoError::new(IoErrorKind::NotFound, "file does not exist")),
            },
            OpenOptions::CreateNew => {
                if place.is_some() {
                    return Err(IoError::new(IoErrorKind::AlreadyExists, "file already exists"));
                }
                let id: u64 = self.files.len() as u64;
                self.files.push(MemoryFile::new(path));
                proof {
                    let before = old(self).files@;
                    let after = self.files@;
                    assert(after.drop_last() =~= before);
                    assert(self.state().names =~= old(self).state().with_file(path@, id).names);
                    assert(self.state().data =~= old(self).state().data.insert(id, Seq::empty()));
                }
                Ok(VfsFile { id, path: String::from_str(path) })
            },
        }
    }

    fn list(&self, dir: &str) -> (result: Result<Vec<String>, IoError>) {
        if !self.has_directory(dir) {
            return Err(IoError::new(IoErrorKind::NotFound, "directory does not exist"));
        }
        let short: String = path::plain_path(dir);
        let ghost home = path::plain(dir@);
        proof {
            assert forall|name: Seq<char>| vfs::is_file_name(name) implies path::plain(
                #[trigger] vfs::path_join(dir@, name),
            ) == vfs::path_join(home, name) by {
                path::plain_join(dir@, name);
            }
        }
        let mut paths: Vec<String> = Vec::new();
        let ghost mut names = Seq::<Seq<char>>::empty();
        let ghost mut places = Seq::<int>::empty();
        let mut at: usize = 0;
        while at < self.files.len()
            invariant
                at <= self.files@.len(),
                short@ == home,
                paths@.len() == names.len(),
                names.len() == places.len(),
                forall|i: int|
                    0 <= i < names.len() ==> {
                        &&& vfs::is_file_name(#[trigger] names[i])
                        &&& paths@[i]@ == vfs::path_join(dir@, names[i])
                        &&& found(self.files@, vfs::path_join(home, names[i])) == Some(places[i])
                    },
                forall|name: Seq<char>|
                    vfs::is_file_name(name) ==> path::plain(#[trigger] vfs::path_join(dir@, name)) == vfs::path_join(
                        home,
                        name,
                    ),
                forall|i: int| 0 <= i < places.len() ==> 0 <= #[trigger] places[i] < at,
                forall|i: int, j: int| 0 <= i < j < places.len() ==> places[i] < places[j],
                forall|name: Seq<char>|
                    vfs::is_file_name(name) && (#[trigger] found(self.files@, vfs::path_join(home, name)) matches Some(
                        place,
                    ) && 0 <= place < at) ==> exists|i: int| 0 <= i < names.len() && names[i] == name,
            decreases self.files@.len() - at,
        {
            let ghost before = names;
            if self.files[at].linked {
                let path: &str = self.files[at].path.as_str();
                if let Some(name) = vfs::name_inside(short.as_str(), path) {
                    let listed: String = vfs::join_path(dir, name.as_str());
                    let newest: bool = match self.find(listed.as_str()) {
                        Some(place) => place == at,
                        None => false,
                    };
                    if newest {
                        proof {
                            places = places.push(at as int);
                            names = names.push(name@);
                        }
                        paths.push(listed);
                    }
                }
            }
            proof {
                assert forall|name: Seq<char>|
                    vfs::is_file_name(name) && (#[trigger] found(self.files@, vfs::path_join(home, name)) matches Some(
                        place,
                    ) && 0 <= place < at + 1) implies exists|i: int| 0 <= i < names.len() && names[i] == name by {
                    if found(self.files@, vfs::path_join(home, name))->0 < at {
                        let i = choose|i: int| 0 <= i < before.len() && before[i] == name;
                        assert(names[i] == name);
                    } else {
                        found_is_linked(self.files@, vfs::path_join(home, name));
                        assert(names.len() == before.len() + 1);
                        vfs::joined_names_differ(home, name, names.last());
                        assert(names[before.len() as int] == name);
                    }
                }
            }
            at += 1;
        }
        proof {
            assert forall|name: Seq<char>|
                vfs::is_file_name(name) && #[trigger] self.state().names.contains_key(
                    vfs::path_join(dir@, name),
                ) implies vfs::is_among(paths@, vfs::path_join(dir@, name)) by {
                found_is_linked(self.files@, vfs::path_join(home, name));
                let i = choose|i: int| 0 <= i < names.len() && names[i] == name;
                assert(paths@[i]@ == vfs::path_join(dir@, name));
            }
            assert forall|i: int| 0 <= i < paths@.len() implies vfs::stands_in(dir@, #[trigger] paths@[i]@)
                && self.state().names.contains_key(paths@[i]@) by {
                assert(vfs::is_file_name(names[i]));
            }
            assert forall|i: int, j: int| 0 <= i < j < paths@.len() implies paths@[i]@ != paths@[j]@ by {
                assert(vfs::is_file_name(names[i]) && vfs::is_file_name(names[j]));
            }
        }
        Ok(paths)
    }

    fn remove(&mut self, path: &str) -> (result: Result<(), IoError>) {
        proof {
            found_is_linked(self.files@, path::plain(path@));
        }
        if self.find(path).is_none() {
            return Err(IoError::new(IoErrorKind::NotFound, "file does not exist"));
        }
        let wanted: String = path::plain_path(path);
        let mut at: usize = 0;
        while at < self.files.len()
            invariant
                at <= self.files@.len(),
                wanted@ == path::plain(path@),
                self.directories == old(self).directories,
                self.journal == old(self).journal,
                self.files@.len() == old(self).files@.len(),
                forall|i: int| 0 <= i < at ==> !((#[trigger] self.files@[i]).linked && self.files@[i].path@ == wanted@),
                forall|i: int|
                    0 <= i < self.files@.len() ==> {
                        &&& (#[trigger] self.files@[i])@ == old(self).files@[i]@
                        &&& self.files@[i].path == old(self).files@[i].path
                        &&& self.files@[i].path@ != wanted@ ==> self.files@[i].linked == old(self).files@[i].linked
                    },
            decreases self.files@.len() - at,
        {
            if self.files[at].path == wanted {
                self.files[at].linked = false;
            }
            at += 1;
        }
        proof {
            let before = old(self).files@;
            let after = self.files@;
            let left = old(self).state().without_name(path@).names;
            let now = self.state().names;
            assert forall|other: Seq<char>| #[trigger] now.contains_key(other) == left.contains_key(other) by {
                let short = path::plain(other);
                if short == wanted@ {
                    found_is_linked(after, short);
                } else {
                    found_by_links(before, after, short);
                }
            }
            assert forall|other: Seq<char>| now.contains_key(other) implies #[trigger] now[other] == left[other] by {
                found_by_links(before, after, path::plain(other));
            }
            assert(now =~= left);
            assert(self.state().data =~= old(self).state().data);
        }
        Ok(())
    }

    fn sync_dir(&mut self, dir: &str) -> (result: Result<(), IoError>) {
        if self.has_directory(dir) {
            proof {
                self.journal@ = self.journal@.with_names(dir@, self.state().names);
            }
            Ok(())
        } else {
            Err(IoError::new(IoErrorKind::NotFound, "directory does not exist"))
        }
    }

    fn size(&self, file: &VfsFile) -> (result: Result<u64, IoError>) {
        Ok(self.files[self.place(file)].size())
    }

    fn read_at(&self, file: &VfsFile, position: u64, length: usize) -> (result: Result<Vec<u8>, IoError>) {
        self.files[self.place(file)].read_at(position, length)
    }

    fn append(&mut self, file: &VfsFile, bytes: &[u8]) -> (result: Result<u64, IoError>) {
        let at: usize = self.place(file);
        let position: u64 = self.files[at].append(bytes);
        proof {
            assert forall|other: Seq<char>| #[trigger]
                found(self.files@, other) == found(old(self).files@, other) by {
                found_by_links(self.files@, old(self).files@, other);
            }
            let contents = old(self).state().contents(file);
            assert(contents.take(position as int) =~= contents);
            assert(self.state().names =~= old(self).state().names);
            assert(self.state().data.dom() =~= old(self).state().data.dom());
        }
        Ok(position)
    }

    fn truncate(&mut self, file: &VfsFile, size: u64) -> (result: Result<(), IoError>) {
        let at: usize = self.place(file);
        let result = self.files[at].truncate(size);
        proof {
            assert forall|other: Seq<char>| #[trigger]
                found(self.files@, other) == found(old(self).files@, other) by {
                found_by_links(self.files@, old(self).files@, other);
            }
            assert(self.state().names =~= old(self).state().names);
            assert(self.state().data.dom() =~= old(self).state().data.dom());
        }
        result
    }

    fn sync(&mut self, file: &VfsFile) -> (result: Result<(), IoError>) {
        proof {
            self.journal@ = self.journal@.with_file(file.id, self.state().contents(file));
        }
        Ok(())
    }

    fn discard_cache(&mut self, file: &VfsFile, end: u64) {
    }
}

} // verus!
