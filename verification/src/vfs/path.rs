//! Paths, and which of them are the same.

use vstd::prelude::*;
use crate::vfs;

verus! {

/// Where the last part of a path starts.
pub open spec fn part_start(path: Seq<char>) -> int
    decreases path.len(),
{
    if path.len() == 0 || path.last() == '/' {
        path.len() as int
    } else {
        part_start(path.drop_last())
    }
}

/// The last part of a path starts inside it.
pub proof fn part_starts_inside(path: Seq<char>)
    ensures
        0 <= part_start(path) <= path.len(),
        path.len() > 0 && path.last() != '/' ==> part_start(path) < path.len(),
    decreases path.len(),
{
    if path.len() > 0 && path.last() != '/' {
        part_starts_inside(path.drop_last());
    }
}

/// The shortest way to write a path: without slashes at its end or behind one
/// another, and without the parts that stay where they are, but for a first
/// one.
pub open spec fn plain(path: Seq<char>) -> Seq<char>
    decreases path.len(),
{
    proof {
        part_starts_inside(path);
    }
    let start = part_start(path);
    let name = path.skip(start);
    if path.len() == 0 {
        path
    } else if path.last() == '/' {
        if path.len() == 1 {
            path
        } else {
            plain(path.drop_last())
        }
    } else if start > 0 && name == seq!['.'] {
        plain(path.take(start))
    } else {
        vfs::path_join(plain(path.take(start)), name)
    }
}

/// Whether two paths are the same, however they are written.
pub open spec fn same_path(left: Seq<char>, right: Seq<char>) -> bool {
    plain(left) == plain(right)
}

proof fn last_part_starts(prefix: Seq<char>, name: Seq<char>)
    requires
        prefix.len() == 0 || prefix.last() == '/',
        forall|i: int| 0 <= i < name.len() ==> name[i] != '/',
    ensures
        part_start(prefix + name) == prefix.len(),
    decreases name.len(),
{
    let path = prefix + name;
    if name.len() > 0 {
        assert(path.last() == name.last());
        assert(path.drop_last() =~= prefix + name.drop_last());
        last_part_starts(prefix, name.drop_last());
    } else {
        assert(path =~= prefix);
    }
}

/// A file's path is plain where that of its directory is.
pub proof fn plain_join(dir: Seq<char>, name: Seq<char>)
    requires
        vfs::is_file_name(name),
    ensures
        plain(vfs::path_join(dir, name)) == vfs::path_join(plain(dir), name),
{
    let prefix = vfs::path_prefix(dir);
    let path = prefix + name;
    vfs::join_is_prefixed(dir, name);
    last_part_starts(prefix, name);
    assert(path.last() == name.last());
    assert(path.skip(prefix.len() as int) =~= name);
    assert(path.take(prefix.len() as int) =~= prefix);
    if dir.len() > 0 && dir.last() != '/' {
        assert(prefix.drop_last() =~= dir);
        assert(plain(prefix) == plain(dir));
    }
    assert(plain(prefix) == plain(dir));
}

/// Files with different names in a directory have paths that differ however
/// they are written.
pub proof fn joined_paths_differ(dir: Seq<char>, left: Seq<char>, right: Seq<char>)
    requires
        vfs::is_file_name(left),
        vfs::is_file_name(right),
        same_path(vfs::path_join(dir, left), vfs::path_join(dir, right)),
    ensures
        left == right,
{
    plain_join(dir, left);
    plain_join(dir, right);
    vfs::joined_names_differ(plain(dir), left, right);
}

fn start_of_part(path: &str, end: usize) -> (start: usize)
    requires
        end <= path@.len(),
    ensures
        start == part_start(path@.take(end as int)),
        start <= end,
{
    let mut start: usize = end;
    while start > 0
        invariant_except_break
            part_start(path@.take(end as int)) == part_start(path@.take(start as int)),
        invariant
            start <= end <= path@.len(),
        ensures
            part_start(path@.take(end as int)) == start,
        decreases start,
    {
        assert(path@.take(start as int).last() == path@[start - 1]);
        if path.get_char(start - 1) == '/' {
            break;
        }
        assert(path@.take(start as int).drop_last() =~= path@.take(start - 1));
        start -= 1;
    }
    start
}

fn plain_part(path: &str, end: usize) -> (short: String)
    requires
        end <= path@.len(),
    ensures
        short@ == plain(path@.take(end as int)),
    decreases end,
{
    let ghost whole = path@.take(end as int);
    proof {
        part_starts_inside(whole);
    }
    if end == 0 {
        let none: String = String::new();
        assert(none@ =~= whole);
        return none;
    }
    assert(whole.last() == path@[end - 1]);
    if path.get_char(end - 1) == '/' {
        if end == 1 {
            proof {
                reveal_strlit("/");
            }
            let root: String = String::from_str("/");
            assert(root@ =~= whole);
            return root;
        }
        assert(whole.drop_last() =~= path@.take(end - 1));
        return plain_part(path, end - 1);
    }
    let start: usize = start_of_part(path, end);
    let name: &str = path.substring_char(start, end);
    assert(whole.take(start as int) =~= path@.take(start as int));
    assert(name@ =~= whole.skip(start as int));
    if start > 0 && end - start == 1 && path.get_char(start) == '.' {
        assert(whole.skip(start as int) =~= seq!['.']);
        return plain_part(path, start);
    }
    proof {
        if whole.skip(start as int) == seq!['.'] {
            assert(whole.skip(start as int).len() == 1);
            assert(whole.skip(start as int)[0] == path@[start as int]);
        }
    }
    let dir: String = plain_part(path, start);
    vfs::join_path(dir.as_str(), name)
}

/// The shortest way to write a path.
pub fn plain_path(path: &str) -> (short: String)
    ensures
        short@ == plain(path@),
{
    assert(path@.take(path@.len() as int) =~= path@);
    plain_part(path, path.unicode_len())
}

/// Where the directory before a slash ends. The first slash is the root.
pub open spec fn before_slash(path: Seq<char>, at: int) -> Seq<char> {
    path.take(if at == 0 {
        1
    } else {
        at
    })
}

/// Every directory on the way to `path`, and `path` itself, in their shortest
/// forms. A path that does not start at the root is inside the directory
/// without a name.
pub open spec fn ancestors(path: Seq<char>) -> Set<Seq<char>> {
    let short = plain(path);
    Set::new(
        |dir: Seq<char>|
            {
                ||| dir == short
                ||| dir.len() == 0 && short.len() > 0 && short[0] != '/'
                ||| exists|i: int| 0 <= i < short.len() && short[i] == '/' && dir == #[trigger] before_slash(short, i)
            },
    )
}

/// A slash at the end of a path, a second one behind it, and a part that stays
/// where it is change nothing.
pub proof fn slashes_and_dots_change_nothing(path: Seq<char>)
    requires
        path.len() > 0,
    ensures
        same_path(path.push('/'), path),
        same_path(path.push('/').push('/'), path),
        same_path(path.push('/').push('.'), path),
{
    assert(path.push('/').drop_last() =~= path);
    assert(path.push('/').push('/').drop_last() =~= path.push('/'));
    let prefix = path.push('/');
    let dotted = prefix.push('.');
    assert(dotted =~= prefix + seq!['.']);
    last_part_starts(prefix, seq!['.']);
    assert(dotted.skip(prefix.len() as int) =~= seq!['.']);
    assert(dotted.take(prefix.len() as int) =~= prefix);
}

/// A path in its shortest form has no slash at its end, unless it is the root,
/// and no two slashes stand behind one another in it.
pub proof fn shortest_form_has_single_slashes(path: Seq<char>)
    ensures
        plain(path).len() <= path.len(),
        path.len() > 0 ==> plain(path).len() > 0,
        plain(path).len() > 1 ==> plain(path).last() != '/',
        forall|i: int|
            0 < i < plain(path).len() && #[trigger] plain(path)[i] == '/' ==> plain(path)[i - 1] != '/',
    decreases path.len(),
{
    part_starts_inside(path);
    let start = part_start(path);
    let name = path.skip(start);
    if path.len() == 0 {
    } else if path.last() == '/' {
        if path.len() > 1 {
            shortest_form_has_single_slashes(path.drop_last());
        }
    } else if start > 0 && name == seq!['.'] {
        shortest_form_has_single_slashes(path.take(start));
    } else {
        let front = path.take(start);
        shortest_form_has_single_slashes(front);
        last_part_has_no_slash(path);
        vfs::join_is_prefixed(plain(front), name);
        assert(name.last() == path.last());
        if start > 0 {
            part_starts_behind_a_slash(path);
            if start > 1 {
                shortest_form_has_single_slashes(front.drop_last());
            }
        }
    }
}

proof fn part_starts_behind_a_slash(path: Seq<char>)
    requires
        part_start(path) > 0,
    ensures
        part_start(path) <= path.len(),
        path[part_start(path) - 1] == '/',
    decreases path.len(),
{
    if path.last() != '/' {
        part_starts_behind_a_slash(path.drop_last());
    }
}

proof fn last_part_has_no_slash(path: Seq<char>)
    ensures
        forall|i: int| part_start(path) <= i < path.len() ==> path[i] != '/',
    decreases path.len(),
{
    if path.len() > 0 && path.last() != '/' {
        last_part_has_no_slash(path.drop_last());
        part_starts_inside(path.drop_last());
        assert forall|i: int| part_start(path) <= i < path.len() implies path[i] != '/' by {
            if i < path.len() - 1 {
                assert(path.drop_last()[i] == path[i]);
            }
        }
    }
}

/// The directories on the way to a file are its own directory and those on the
/// way to that one.
pub proof fn way_to_a_file_passes_its_directory(dir: Seq<char>, name: Seq<char>, other: Seq<char>)
    requires
        vfs::is_file_name(name),
    ensures
        ({
            let path = vfs::path_join(dir, name);
            &&& ancestors(path).contains(plain(path))
            &&& ancestors(path).contains(plain(dir))
            &&& ancestors(dir).contains(other) ==> ancestors(path).contains(other)
            &&& ancestors(path).contains(other) ==> other == plain(path) || ancestors(dir).contains(other)
        }),
{
    let path = vfs::path_join(dir, name);
    let front = plain(dir);
    let short = plain(path);
    plain_join(dir, name);
    shortest_form_has_single_slashes(dir);
    vfs::join_is_prefixed(front, name);
    let prefix = vfs::path_prefix(front);
    assert forall|i: int| 0 <= i < front.len() implies #[trigger] short[i] == front[i] by {}
    if front.len() == 0 {
        assert(short == name);
        assert(short[0] != '/');
        assert(front =~= Seq::<char>::empty());
    } else if front.last() == '/' {
        assert(front.len() == 1);
        assert(before_slash(short, 0) =~= front);
        assert(before_slash(front, 0) =~= front);
    } else {
        assert(short[front.len() as int] == '/');
        assert(before_slash(short, front.len() as int) =~= front);
    }
    if ancestors(dir).contains(other) && other != front {
        if !(other.len() == 0 && front.len() > 0 && front[0] != '/') {
            let i = choose|i: int| 0 <= i < front.len() && front[i] == '/' && other == #[trigger] before_slash(front, i);
            assert(before_slash(short, i) =~= before_slash(front, i));
        }
    }
    if ancestors(path).contains(other) && other != short {
        if other.len() == 0 && short.len() > 0 && short[0] != '/' {
            if front.len() == 0 {
                assert(other =~= front);
            }
        } else {
            let i = choose|i: int| 0 <= i < short.len() && short[i] == '/' && other == #[trigger] before_slash(short, i);
            if i < front.len() {
                assert(before_slash(short, i) =~= before_slash(front, i));
            } else {
                assert(i == front.len());
            }
        }
    }
}

} // verus!
