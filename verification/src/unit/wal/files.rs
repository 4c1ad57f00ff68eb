//! Segment files of the sequenced log in a directory.

use vstd::prelude::*;
use crate::segment_names;
use crate::text;
use crate::unit::wal::error::WalError;
use crate::vfs;
use crate::vfs::Vfs;

verus! {

/// The digits of a number that may have a plus sign before it.
pub open spec fn unsigned(stem: Seq<char>) -> Seq<char> {
    if stem.len() > 1 && stem[0] == '+' {
        stem.skip(1)
    } else {
        stem
    }
}

/// Whether all symbols are decimal digits.
pub open spec fn all_digits(digits: Seq<char>) -> bool {
    forall|i: int| 0 <= i < digits.len() ==> text::is_digit(#[trigger] digits[i])
}

/// The number that the name of a segment file gives, if it gives one.
pub open spec fn number_of(name: Seq<char>) -> Option<u64> {
    let digits = unsigned(name.take(name.len() - 4));
    if segment_names::is_segment_name(name) && all_digits(digits) && text::decimal_value(digits) <= u64::MAX {
        Some(text::decimal_value(digits) as u64)
    } else {
        None
    }
}

/// Whether a path is that of a file of the directory whose name gives the
/// number.
pub open spec fn is_numbered_file(
    names: Map<Seq<char>, u64>,
    dir: Seq<char>,
    number: u64,
    path: Seq<char>,
    name: Seq<char>,
) -> bool {
    &&& vfs::is_file_name(name)
    &&& number_of(name) == Some(number)
    &&& path == vfs::path_join(dir, name)
    &&& names.contains_key(path)
}

/// Whether a path is that of a numbered file of the directory.
pub open spec fn is_listed(names: Map<Seq<char>, u64>, dir: Seq<char>, number: u64, path: Seq<char>) -> bool {
    exists|name: Seq<char>| is_numbered_file(names, dir, number, path, name)
}

/// Whether the files are all numbered files of the directory, each once, in
/// ascending order of their numbers. Files with the same number stand in any
/// order.
pub open spec fn lists_numbered(names: Map<Seq<char>, u64>, dir: Seq<char>, files: Seq<(u64, Seq<char>)>) -> bool {
    &&& forall|i: int| 0 <= i < files.len() ==> is_listed(names, dir, (#[trigger] files[i]).0, files[i].1)
    &&& forall|i: int, j: int| 0 <= i < j < files.len() ==> files[i].0 <= files[j].0 && files[i].1 != files[j].1
    &&& forall|number: u64, path: Seq<char>| #[trigger]
        is_listed(names, dir, number, path) ==> files.contains((number, path))
}

/// Files as mathematical values.
pub open spec fn file_views(files: Seq<(u64, String)>) -> Seq<(u64, Seq<char>)> {
    files.map_values(|file: (u64, String)| (file.0, file.1@))
}

/// Where the digits of a name start.
fn digits_start(name: &str, end: usize) -> (start: usize)
    requires
        end <= name@.len(),
        end > 0,
    ensures
        start <= 1,
        start < end,
        unsigned(name@.take(end as int)) == name@.subrange(start as int, end as int),
{
    assert(name@.take(end as int)[0] == name@[0]);
    if end > 1 && name.get_char(0) == '+' {
        assert(name@.take(end as int).skip(1) =~= name@.subrange(1, end as int));
        1
    } else {
        assert(name@.take(end as int) =~= name@.subrange(0, end as int));
        0
    }
}

proof fn value_grows(digits: Seq<char>, count: int)
    requires
        all_digits(digits),
        0 <= count <= digits.len(),
    ensures
        0 <= text::decimal_value(digits.take(count)) <= text::decimal_value(digits),
    decreases digits.len() - count,
{
    if count < digits.len() {
        value_grows(digits, count + 1);
        assert(digits.take(count + 1).drop_last() =~= digits.take(count));
        assert(digits.take(count + 1).last() == digits[count]);
        assert(text::is_digit(digits[count]));
        value_is_not_negative(digits.take(count));
    } else {
        assert(digits.take(count) =~= digits);
        value_is_not_negative(digits);
    }
}

proof fn value_is_not_negative(digits: Seq<char>)
    requires
        all_digits(digits),
    ensures
        0 <= text::decimal_value(digits),
    decreases digits.len(),
{
    if digits.len() > 0 {
        let rest = digits.drop_last();
        assert forall|i: int| 0 <= i < rest.len() implies text::is_digit(#[trigger] rest[i]) by {
            assert(text::is_digit(digits[i]));
        }
        value_is_not_negative(rest);
        assert(text::is_digit(digits[digits.len() - 1]));
    }
}

/// The number that a file name gives.
pub fn segment_number(name: &str) -> (number: Option<u64>)
    ensures
        number == number_of(name@),
{
    if !segment_names::has_segment_extension(name) {
        return None;
    }
    let end: usize = name.unicode_len() - 4;
    let start: usize = digits_start(name, end);
    let ghost digits = unsigned(name@.take(end as int));
    let mut number: u64 = 0;
    let mut at: usize = start;
    assert(digits.take(0) =~= Seq::<char>::empty());
    while at < end
        invariant
            start <= at <= end <= name@.len(),
            end == name@.len() - 4,
            segment_names::is_segment_name(name@),
            digits == name@.subrange(start as int, end as int),
            digits == unsigned(name@.take(name@.len() - 4)),
            forall|i: int| 0 <= i < at - start ==> text::is_digit(#[trigger] digits[i]),
            number == text::decimal_value(digits.take(at - start)),
        decreases end - at,
    {
        let symbol: char = name.get_char(at);
        let ghost place = at - start;
        assert(digits[place] == symbol);
        if !('0' <= symbol && symbol <= '9') {
            assert(!text::is_digit(digits[place]));
            return None;
        }
        let digit: u64 = symbol as u64 - '0' as u64;
        proof {
            assert(digits.take(place + 1).drop_last() =~= digits.take(place));
            assert(digits.take(place + 1).last() == symbol);
            if all_digits(digits) {
                value_grows(digits, place + 1);
            }
        }
        number = match number.checked_mul(10) {
            Some(shifted) => match shifted.checked_add(digit) {
                Some(next) => next,
                None => {
                    return None;
                },
            },
            None => {
                return None;
            },
        };
        at += 1;
    }
    assert(digits.take(end - start) =~= digits);
    Some(number)
}

/// Puts a file after those whose numbers are not larger.
fn insert_file(files: &mut Vec<(u64, String)>, number: u64, path: String)
    requires
        forall|i: int, j: int| 0 <= i < j < old(files)@.len() ==> old(files)@[i].0 <= old(files)@[j].0,
    ensures
        forall|i: int, j: int| 0 <= i < j < final(files)@.len() ==> final(files)@[i].0 <= final(files)@[j].0,
        exists|at: int| 0 <= at <= old(files)@.len() && final(files)@ == old(files)@.insert(at, (number, path)),
{
    let mut at: usize = files.len();
    while at > 0 && files[at - 1].0 > number
        invariant
            at <= files@.len(),
            files@ == old(files)@,
            forall|i: int| at <= i < files@.len() ==> files@[i].0 > number,
        decreases at,
    {
        at -= 1;
    }
    files.insert(at, (number, path));
    assert(files@ == old(files)@.insert(at as int, (number, path)));
}

/// Whether one of the first names gives the number and the path.
spec fn came_from(names: Seq<String>, count: int, dir: Seq<char>, number: u64, path: Seq<char>) -> bool {
    exists|k: int|
        0 <= k < count && number_of((#[trigger] names[k])@) == Some(number) && path == vfs::path_join(dir, names[k]@)
}

/// What is known of the files of the first names.
spec fn holds_first(names: Seq<String>, count: int, dir: Seq<char>, files: Seq<(u64, String)>) -> bool {
    &&& forall|i: int, j: int| 0 <= i < j < files.len() ==> files[i].0 <= files[j].0
    &&& forall|i: int, j: int| 0 <= i < j < files.len() ==> files[i].1@ != files[j].1@
    &&& forall|i: int| 0 <= i < files.len() ==> came_from(names, count, dir, (#[trigger] files[i]).0, files[i].1@)
    &&& forall|k: int|
        0 <= k < count ==> match number_of((#[trigger] names[k])@) {
            Some(number) => file_views(files).contains((number, vfs::path_join(dir, names[k]@))),
            None => true,
        }
}

proof fn unnumbered_name_adds_nothing(names: Seq<String>, count: int, dir: Seq<char>, files: Seq<(u64, String)>)
    requires
        0 <= count < names.len(),
        holds_first(names, count, dir, files),
        number_of(names[count]@) is None,
    ensures
        holds_first(names, count + 1, dir, files),
{
    assert forall|i: int| 0 <= i < files.len() implies came_from(
        names,
        count + 1,
        dir,
        (#[trigger] files[i]).0,
        files[i].1@,
    ) by {
        assert(came_from(names, count, dir, files[i].0, files[i].1@));
        let k = choose|k: int|
            0 <= k < count && number_of((#[trigger] names[k])@) == Some(files[i].0) && files[i].1@ == vfs::path_join(
                dir,
                names[k]@,
            );
        assert(number_of(names[k]@) == Some(files[i].0));
    }
}

proof fn numbered_name_adds_file(
    names: Seq<String>,
    count: int,
    dir: Seq<char>,
    before: Seq<(u64, String)>,
    files: Seq<(u64, String)>,
    place: int,
    number: u64,
    path: String,
)
    requires
        0 <= count < names.len(),
        forall|i: int, j: int| 0 <= i < j < names.len() ==> names[i]@ != names[j]@,
        holds_first(names, count, dir, before),
        number_of(names[count]@) == Some(number),
        path@ == vfs::path_join(dir, names[count]@),
        0 <= place <= before.len(),
        files == before.insert(place, (number, path)),
        forall|i: int, j: int| 0 <= i < j < files.len() ==> files[i].0 <= files[j].0,
    ensures
        holds_first(names, count + 1, dir, files),
{
    assert(files[place] == (number, path));
    assert forall|i: int| 0 <= i < before.len() implies (#[trigger] before[i]).1@ != path@ by {
        assert(came_from(names, count, dir, before[i].0, before[i].1@));
        let k = choose|k: int|
            0 <= k < count && number_of((#[trigger] names[k])@) == Some(before[i].0) && before[i].1@
                == vfs::path_join(dir, names[k]@);
        if before[i].1@ == path@ {
            vfs::joined_names_differ(dir, names[k]@, names[count]@);
        }
    }
    assert forall|i: int, j: int| 0 <= i < j < files.len() implies files[i].1@ != files[j].1@ by {
        let left = if i < place {
            i
        } else {
            i - 1
        };
        let right = if j < place {
            j
        } else {
            j - 1
        };
        if i == place {
            assert(files[j] == before[right]);
        } else if j == place {
            assert(files[i] == before[left]);
        } else {
            assert(files[i] == before[left] && files[j] == before[right]);
        }
    }
    assert forall|i: int| 0 <= i < files.len() implies came_from(
        names,
        count + 1,
        dir,
        (#[trigger] files[i]).0,
        files[i].1@,
    ) by {
        if i == place {
            assert(number_of(names[count]@) == Some(number));
        } else {
            let j = if i < place {
                i
            } else {
                i - 1
            };
            assert(files[i] == before[j]);
            assert(came_from(names, count, dir, before[j].0, before[j].1@));
            let k = choose|k: int|
                0 <= k < count && number_of((#[trigger] names[k])@) == Some(before[j].0) && before[j].1@
                    == vfs::path_join(dir, names[k]@);
            assert(number_of(names[k]@) == Some(files[i].0));
        }
    }
    assert forall|k: int| 0 <= k < count + 1 implies match number_of((#[trigger] names[k])@) {
        Some(found) => file_views(files).contains((found, vfs::path_join(dir, names[k]@))),
        None => true,
    } by {
        if k < count {
            if let Some(found) = number_of(names[k]@) {
                let wanted = (found, vfs::path_join(dir, names[k]@));
                assert(file_views(before).contains(wanted));
                let j = choose|j: int| 0 <= j < file_views(before).len() && file_views(before)[j] == wanted;
                let i = if j < place {
                    j
                } else {
                    j + 1
                };
                assert(file_views(files)[i] == wanted);
            }
        } else {
            assert(file_views(files)[place] == (number, path@));
        }
    }
}

/// Lists the segment files of a directory in ascending order of their numbers.
/// Files whose names give no number are left out.
pub fn list_segment_files<V: Vfs>(vfs: &V, dir: &str) -> (result: Result<Vec<(u64, String)>, WalError>)
    ensures
        match result {
            Ok(files) => {
                &&& lists_numbered(vfs.state().names, dir@, file_views(files@))
                &&& vfs.dependable() ==> vfs.state().directories.contains(dir@)
            },
            Err(error) => error is Io && (!vfs.dependable() || !vfs.state().directories.contains(dir@)),
        },
{
    let names: Vec<String> = match vfs::list_names(vfs, dir) {
        Ok(names) => names,
        Err(error) => {
            return Err(WalError::io(error));
        },
    };
    let mut files: Vec<(u64, String)> = Vec::new();
    let mut at: usize = 0;
    while at < names.len()
        invariant
            at <= names@.len(),
            forall|i: int, j: int| 0 <= i < j < names@.len() ==> names@[i]@ != names@[j]@,
            holds_first(names@, at as int, dir@, files@),
        decreases names@.len() - at,
    {
        let name: &str = names[at].as_str();
        let ghost before = files@;
        match segment_number(name) {
            Some(number) => {
                let path: String = vfs::join_path(dir, name);
                insert_file(&mut files, number, path);
                proof {
                    let place = choose|place: int|
                        0 <= place <= before.len() && files@ == before.insert(place, (number, path));
                    numbered_name_adds_file(names@, at as int, dir@, before, files@, place, number, path);
                }
            },
            None => {
                proof {
                    unnumbered_name_adds_nothing(names@, at as int, dir@, files@);
                }
            },
        }
        at += 1;
    }
    proof {
        let held = vfs.state().names;
        let listed = file_views(files@);
        assert forall|i: int| 0 <= i < listed.len() implies is_listed(
            held,
            dir@,
            (#[trigger] listed[i]).0,
            listed[i].1,
        ) by {
            assert(came_from(names@, at as int, dir@, files@[i].0, files@[i].1@));
            let k = choose|k: int|
                0 <= k < at && number_of((#[trigger] names@[k])@) == Some(files@[i].0) && files@[i].1@
                    == vfs::path_join(dir@, names@[k]@);
            assert(is_numbered_file(held, dir@, listed[i].0, listed[i].1, names@[k]@));
        }
        assert forall|number: u64, path: Seq<char>| #[trigger]
            is_listed(held, dir@, number, path) implies listed.contains((number, path)) by {
            let name = choose|name: Seq<char>| is_numbered_file(held, dir@, number, path, name);
            assert(held.contains_key(vfs::path_join(dir@, name)));
            let k = choose|k: int| 0 <= k < names@.len() && names@[k]@ == name;
            assert(number_of(names@[k]@) == Some(number));
        }
    }
    Ok(files)
}

/// The name of a segment gives the number of the segment.
pub proof fn segment_name_gives_its_number(number: u64)
    requires
        number < 10_000_000_000,
    ensures
        number_of(segment_names::segment_name(number as nat)) == Some(number),
{
    let name = segment_names::segment_name(number as nat);
    segment_names::segment_name_round_trip(number as nat);
    let stem = name.take(name.len() - 4);
    assert(stem =~= name.take(10));
    assert(text::is_digit(name[0]));
    assert(unsigned(stem) == stem);
}

/// Only names that end in the extension of segment files, and have digits before
/// it, perhaps with a plus sign, give a number. It is the one that the digits
/// stand for.
pub proof fn only_digits_give_a_number(name: Seq<char>)
    ensures
        number_of(name) matches Some(number) ==> {
            &&& name.len() > 4
            &&& name.skip(name.len() - 4) == ".seg"@
            &&& exists|start: int| #[trigger] gives(name, start, number)
        },
{
    if let Some(number) = number_of(name) {
        let stem = name.take(name.len() - 4);
        let digits = unsigned(stem);
        value_is_not_negative(digits);
        assert forall|i: int| 0 <= i < digits.len() implies '0' <= (#[trigger] digits[i]) && digits[i] <= '9' by {
            assert(text::is_digit(digits[i]));
        }
        if stem.len() > 1 && stem[0] == '+' {
            assert(stem.skip(1) =~= name.subrange(1, name.len() - 4));
            assert(gives(name, 1, number));
        } else {
            assert(stem =~= name.subrange(0, name.len() - 4));
            assert(gives(name, 0, number));
        }
    }
}

/// Whether the digits from a place of a name on, up to its extension, stand for
/// the number. A sign before them is a plus.
pub open spec fn gives(name: Seq<char>, start: int, number: u64) -> bool {
    let digits = name.subrange(start, name.len() - 4);
    &&& start == 0 || start == 1 && name[0] == '+'
    &&& forall|i: int| 0 <= i < digits.len() ==> '0' <= (#[trigger] digits[i]) && digits[i] <= '9'
    &&& text::decimal_value(digits) == number
}

/// The files of a log are listed in the order of their numbers, each of them
/// once. A file of the directory is listed if and only if its name gives a
/// number.
pub proof fn numbered_files_are_listed(
    names: Map<Seq<char>, u64>,
    dir: Seq<char>,
    files: Seq<(u64, Seq<char>)>,
    name: Seq<char>,
)
    requires
        lists_numbered(names, dir, files),
        vfs::is_file_name(name),
        names.contains_key(vfs::path_join(dir, name)),
    ensures
        forall|i: int, j: int| 0 <= i < j < files.len() ==> files[i].0 <= files[j].0,
        match number_of(name) {
            Some(number) => files.contains((number, vfs::path_join(dir, name))),
            None => forall|i: int| 0 <= i < files.len() ==> (#[trigger] files[i]).1 != vfs::path_join(dir, name),
        },
{
    let path = vfs::path_join(dir, name);
    match number_of(name) {
        Some(number) => {
            assert(is_numbered_file(names, dir, number, path, name));
            assert(is_listed(names, dir, number, path));
        },
        None => {
            assert forall|i: int| 0 <= i < files.len() implies (#[trigger] files[i]).1 != path by {
                assert(is_listed(names, dir, files[i].0, files[i].1));
                let other = choose|other: Seq<char>| is_numbered_file(names, dir, files[i].0, files[i].1, other);
                if files[i].1 == path {
                    vfs::joined_names_differ(dir, other, name);
                }
            }
        },
    }
}

/// A name gives its number up to the largest one of eight bytes, and no number
/// beyond.
pub proof fn numbers_end_with_the_largest(name: Seq<char>)
    requires
        segment_names::is_segment_name(name),
        all_digits(unsigned(name.take(name.len() - 4))),
    ensures
        ({
            let value = text::decimal_value(unsigned(name.take(name.len() - 4)));
            &&& value <= 0xffff_ffff_ffff_ffff ==> number_of(name) is Some && number_of(name)->0 as int == value
            &&& value > 0xffff_ffff_ffff_ffff ==> number_of(name) is None
        }),
{
    value_is_not_negative(unsigned(name.take(name.len() - 4)));
}

/// A numbered file has a name of its own in the directory, and the directory
/// holds it.
pub proof fn numbered_file_is_held(
    names: Map<Seq<char>, u64>,
    dir: Seq<char>,
    number: u64,
    path: Seq<char>,
    name: Seq<char>,
)
    requires
        is_numbered_file(names, dir, number, path, name),
    ensures
        name.len() > 0,
        forall|i: int| 0 <= i < name.len() ==> name[i] != '/',
        number_of(name) == Some(number),
        path == vfs::path_join(dir, name),
        names.contains_key(path),
{
}

} // verus!
