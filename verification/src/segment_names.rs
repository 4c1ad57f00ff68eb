//! Names of segment files, shared by the log and by sealed segments.

use vstd::prelude::*;
use crate::text;
use crate::vfs;
use crate::vfs::path;
use crate::vfs::{IoError, Vfs};

verus! {

/// The name of a segment file: its number in at least ten digits.
pub open spec fn segment_name(number: nat) -> Seq<char> {
    text::padded_decimal(number, 10) + ".seg"@
}

/// The path of a segment file.
pub open spec fn segment_path(dir: Seq<char>, number: nat) -> Seq<char> {
    vfs::path_join(dir, segment_name(number))
}

/// Whether a file name has the extension of segment files. A name that is
/// nothing but the extension has none.
pub open spec fn is_segment_name(name: Seq<char>) -> bool {
    &&& name.len() > 4
    &&& name.skip(name.len() - 4) == ".seg"@
}

/// Whether the part before the extension is exactly ten digits.
pub open spec fn is_numbered(name: Seq<char>) -> bool {
    &&& name.len() == 14
    &&& forall|i: int| 0 <= i < 10 ==> text::is_digit(#[trigger] name[i])
}

/// The path that a segment file has.
pub fn numbered_path(dir: &str, segment_number: u64) -> (path: String)
    ensures
        path@ == segment_path(dir@, segment_number as nat),
{
    let mut name: String = String::new();
    text::push_padded_decimal(&mut name, segment_number, 10);
    name.append(".seg");
    assert(name@ =~= segment_name(segment_number as nat));
    vfs::join_path(dir, name.as_str())
}

proof fn digits_are_padded(digits: Seq<char>)
    requires
        digits.len() > 0,
        forall|i: int| 0 <= i < digits.len() ==> text::is_digit(#[trigger] digits[i]),
    ensures
        text::decimal_value(digits) >= 0,
        text::padded_decimal(text::decimal_value(digits) as nat, digits.len()) == digits,
    decreases digits.len(),
{
    let head = digits.drop_last();
    let last = digits.last();
    let value = text::decimal_value(digits) as nat;
    assert(text::is_digit(digits[digits.len() - 1]));
    assert(last == text::digit(text::digit_value(last)));
    if head.len() == 0 {
        reveal_with_fuel(text::decimal_value, 2);
        assert(text::padded_decimal(value, 1) =~= digits);
    } else {
        assert forall|i: int| 0 <= i < head.len() implies text::is_digit(#[trigger] head[i]) by {
            assert(text::is_digit(digits[i]));
        }
        digits_are_padded(head);
        let front = text::decimal_value(head) as nat;
        assert(value == 10 * front + text::digit_value(last));
        if front == 0 {
            assert(text::decimal(front) == seq!['0']);
            assert(text::decimal(value) == seq![last]);
            assert(text::padded_decimal(value, digits.len()) =~= text::padded_decimal(front, head.len()).push(last));
        } else {
            assert(value / 10 == front && value % 10 == text::digit_value(last));
            assert(text::decimal(value) == text::decimal(front).push(last));
            assert(text::padded_decimal(value, digits.len()) =~= text::padded_decimal(front, head.len()).push(last));
        }
        assert(head.push(last) =~= digits);
    }
}

/// A well-formed segment file name is the name of the segment whose number
/// its digits are.
pub proof fn numbered_name_is_segment_name(name: Seq<char>)
    requires
        is_segment_name(name),
        is_numbered(name),
    ensures
        0 <= text::decimal_value(name.take(10)) < 10_000_000_000,
        name == segment_name(text::decimal_value(name.take(10)) as nat),
{
    let digits = name.take(10);
    digits_are_padded(digits);
    assert(name =~= digits + name.skip(10));
    ten_digits_are_small(digits);
}

proof fn ten_digits_are_small(digits: Seq<char>)
    requires
        digits.len() == 10,
        forall|i: int| 0 <= i < digits.len() ==> text::is_digit(#[trigger] digits[i]),
    ensures
        0 <= text::decimal_value(digits) < 10_000_000_000,
{
    reveal_with_fuel(text::decimal_value, 11);
    assert forall|i: int| 0 <= i < 10 implies 0 <= text::digit_value(#[trigger] digits[i]) <= 9 by {
        assert(text::is_digit(digits[i]));
    }
}

/// A segment's file name is read back as the segment's number.
pub proof fn segment_name_round_trip(number: nat)
    requires
        number < 10_000_000_000,
    ensures
        is_segment_name(segment_name(number)),
        is_numbered(segment_name(number)),
        text::decimal_value(segment_name(number).take(10)) == number,
        vfs::is_file_name(segment_name(number)),
{
    let name = segment_name(number);
    let digits = text::padded_decimal(number, 10);
    text::padded_decimal_round_trip(number, 10);
    text::ten_digits_suffice(number);
    reveal_strlit(".seg");
    assert(name.skip(10) =~= ".seg"@);
    assert(name.take(10) =~= digits);
    assert forall|i: int| 0 <= i < 10 implies text::is_digit(#[trigger] name[i]) by {
        assert(name[i] == digits[i]);
    }
    assert forall|i: int| 0 <= i < name.len() implies name[i] != '/' by {
        if i < 10 {
            assert(text::is_digit(digits[i]));
        } else {
            assert(name[i] == ".seg"@[i - 10]);
        }
    }
}

/// Why the segment files of a directory cannot be listed.
#[derive(Debug)]
pub enum ListingFault {
    Io(IoError),
    /// A file has the extension of segment files but not a number of exactly
    /// ten digits.
    Malformed(String),
}

/// What a malformed segment file name is reported as.
pub open spec fn malformed_name() -> Seq<char> {
    "segment filename must contain exactly ten decimal digits"@
}

/// What a malformed segment file name is reported as.
pub fn malformed_name_message() -> (message: String)
    ensures
        message@ == malformed_name(),
{
    String::from_str("segment filename must contain exactly ten decimal digits")
}

/// Whether a file in `dir` has the extension of segment files but no number.
pub open spec fn is_malformed(names: Map<Seq<char>, u64>, dir: Seq<char>, name: Seq<char>) -> bool {
    &&& vfs::is_file_name(name)
    &&& is_segment_name(name)
    &&& !is_numbered(name)
    &&& names.contains_key(vfs::path_join(dir, name))
}

/// Whether `files` are the numbers and paths of all segment files in `dir`, in
/// ascending order of their numbers, and no file there is misnamed.
pub open spec fn lists_segments(
    names: Map<Seq<char>, u64>,
    dir: Seq<char>,
    files: Seq<(u64, String)>,
) -> bool {
    &&& forall|i: int|
        0 <= i < files.len() ==> {
            &&& (#[trigger] files[i]).0 < 10_000_000_000
            &&& files[i].1@ == segment_path(dir, files[i].0 as nat)
            &&& names.contains_key(files[i].1@)
        }
    &&& forall|i: int, j: int| 0 <= i < j < files.len() ==> files[i].0 < files[j].0
    &&& forall|number: nat|
        number < 10_000_000_000 && #[trigger] names.contains_key(segment_path(dir, number)) ==> exists|i: int|
            0 <= i < files.len() && files[i].0 == number
    &&& forall|name: Seq<char>| !#[trigger] is_malformed(names, dir, name)
}

spec fn ten_to(exponent: nat) -> int
    decreases exponent,
{
    if exponent == 0 {
        1
    } else {
        10 * ten_to((exponent - 1) as nat)
    }
}

/// The number in a segment file's name, where the name is well formed.
fn segment_number(name: &str) -> (number: Option<u64>)
    requires
        is_segment_name(name@),
    ensures
        match number {
            Some(number) => is_numbered(name@) && number < 10_000_000_000 && number == text::decimal_value(
                name@.take(10),
            ),
            None => !is_numbered(name@),
        },
{
    if name.unicode_len() != 14 {
        return None;
    }
    let mut number: u64 = 0;
    let mut at: usize = 0;
    while at < 10
        invariant
            at <= 10,
            name@.len() == 14,
            forall|i: int| 0 <= i < at ==> text::is_digit(#[trigger] name@[i]),
            number == text::decimal_value(name@.take(at as int)),
            number < ten_to(at as nat),
        decreases 10 - at,
    {
        let symbol: char = name.get_char(at);
        if !('0' <= symbol && symbol <= '9') {
            assert(!text::is_digit(name@[at as int]));
            return None;
        }
        let digit: u64 = symbol as u64 - '0' as u64;
        proof {
            assert(ten_to(at as nat) <= 1_000_000_000) by {
                reveal_with_fuel(ten_to, 11);
            }
            assert(ten_to(at as nat + 1) == 10 * ten_to(at as nat));
            assert(name@.take(at + 1).drop_last() =~= name@.take(at as int));
        }
        number = number * 10 + digit;
        at += 1;
    }
    proof {
        assert(ten_to(10) == 10_000_000_000) by {
            reveal_with_fuel(ten_to, 11);
        }
    }
    Some(number)
}

/// Whether a file name has the extension of segment files.
pub fn has_segment_extension(name: &str) -> (present: bool)
    ensures
        present == is_segment_name(name@),
{
    let length: usize = name.unicode_len();
    if length <= 4 {
        return false;
    }
    let ending: String = String::from_str(name.substring_char(length - 4, length));
    assert(ending@ =~= name@.skip(length - 4));
    ending == String::from_str(".seg")
}

/// Puts a segment file where its number belongs.
fn insert_by_number(files: &mut Vec<(u64, String)>, number: u64, path: String)
    requires
        forall|i: int, j: int| 0 <= i < j < old(files)@.len() ==> old(files)@[i].0 < old(files)@[j].0,
        forall|i: int| 0 <= i < old(files)@.len() ==> old(files)@[i].0 != number,
    ensures
        forall|i: int, j: int| 0 <= i < j < final(files)@.len() ==> final(files)@[i].0 < final(files)@[j].0,
        exists|at: int| 0 <= at <= old(files)@.len() && final(files)@ == old(files)@.insert(at, (number, path)),
{
    let mut at: usize = files.len();
    while at > 0 && files[at - 1].0 > number
        invariant
            at <= files@.len(),
            files@ == old(files)@,
            forall|i: int| at <= i < files@.len() ==> files@[i].0 > number,
        decreases at,
    {
        at -= 1;
    }
    files.insert(at, (number, path));
    assert(files@ == old(files)@.insert(at as int, (number, path)));
}

/// Lists the segment files of a directory in ascending order of their numbers.
pub fn list_numbered<V: Vfs>(vfs: &V, dir: &str) -> (result: Result<Vec<(u64, String)>, ListingFault>)
    ensures
        match result {
            Ok(files) => {
                &&& lists_segments(vfs.state().names, dir@, files@)
                &&& vfs.dependable() ==> vfs.state().directories.contains(dir@)
            },
            Err(ListingFault::Io(_)) => !vfs.dependable() || !vfs.state().directories.contains(dir@),
            Err(ListingFault::Malformed(path)) => exists|name: Seq<char>| #[trigger]
                is_malformed(vfs.state().names, dir@, name) && path@ == vfs::path_join(dir@, name),
        },
{
    let names: Vec<String> = match vfs::list_names(vfs, dir) {
        Ok(names) => names,
        Err(error) => {
            return Err(ListingFault::Io(error));
        },
    };
    let ghost held = vfs.state().names;
    let mut files: Vec<(u64, String)> = Vec::new();
    let mut at: usize = 0;
    while at < names.len()
        invariant
            at <= names@.len(),
            held == vfs.state().names,
            forall|i: int|
                0 <= i < names@.len() ==> vfs::is_file_name(#[trigger] names@[i]@) && held.contains_key(
                    vfs::path_join(dir@, names@[i]@),
                ),
            forall|i: int, j: int| 0 <= i < j < names@.len() ==> names@[i]@ != names@[j]@,
            forall|i: int| 0 <= i < at && is_segment_name(#[trigger] names@[i]@) ==> is_numbered(names@[i]@),
            forall|i: int| #![trigger files@[i]]
                0 <= i < files@.len() ==> {
                    &&& files@[i].0 < 10_000_000_000
                    &&& files@[i].1@ == segment_path(dir@, files@[i].0 as nat)
                    &&& exists|k: int| 0 <= k < at && names@[k]@ == segment_name(files@[i].0 as nat)
                },
            forall|i: int, j: int| 0 <= i < j < files@.len() ==> files@[i].0 < files@[j].0,
            forall|k: int|
                0 <= k < at && is_segment_name(#[trigger] names@[k]@) ==> exists|i: int|
                    0 <= i < files@.len() && files@[i].0 == text::decimal_value(names@[k]@.take(10)),
        decreases names@.len() - at,
    {
        let name: &str = names[at].as_str();
        let ghost before = files@;
        if has_segment_extension(name) {
            let path: String = vfs::join_path(dir, name);
            match segment_number(name) {
                None => {
                    assert(is_malformed(held, dir@, name@));
                    return Err(ListingFault::Malformed(path));
                },
                Some(number) => {
                    proof {
                        numbered_name_is_segment_name(name@);
                        assert forall|i: int| 0 <= i < files@.len() implies files@[i].0 != number by {
                            if files@[i].0 == number {
                                let k = choose|k: int| 0 <= k < at && names@[k]@ == segment_name(files@[i].0 as nat);
                                assert(names@[k]@ == names@[at as int]@);
                            }
                        }
                    }
                    insert_by_number(&mut files, number, path);
                    proof {
                        let place = choose|place: int|
                            0 <= place <= before.len() && files@ == before.insert(place, (number, path));
                        assert(files@[place].0 == number);
                        assert forall|i: int| 0 <= i < files@.len() implies {
                            &&& (#[trigger] files@[i]).0 < 10_000_000_000
                            &&& files@[i].1@ == segment_path(dir@, files@[i].0 as nat)
                            &&& exists|k: int| 0 <= k < at + 1 && names@[k]@ == segment_name(files@[i].0 as nat)
                        } by {
                            if i == place {
                                assert(names@[at as int]@ == segment_name(number as nat));
                            } else {
                                let j = if i < place { i } else { i - 1 };
                                assert(files@[i] == before[j]);
                                let k = choose|k: int| 0 <= k < at && names@[k]@ == segment_name(before[j].0 as nat);
                                assert(names@[k]@ == segment_name(files@[i].0 as nat));
                            }
                        }
                        assert forall|k: int| 0 <= k < at + 1 && is_segment_name(#[trigger] names@[k]@) implies exists|
                            i: int,
                        |
                            0 <= i < files@.len() && files@[i].0 == text::decimal_value(names@[k]@.take(10)) by {
                            if k < at {
                                let j = choose|j: int|
                                    0 <= j < before.len() && before[j].0 == text::decimal_value(names@[k]@.take(10));
                                let i = if j < place { j } else { j + 1 };
                                assert(files@[i] == before[j]);
                            } else {
                                assert(files@[place].0 == text::decimal_value(names@[k]@.take(10)));
                            }
                        }
                    }
                },
            }
        }
        at += 1;
    }
    proof {
        assert forall|i: int| 0 <= i < files@.len() implies held.contains_key((#[trigger] files@[i]).1@) by {
            let k = choose|k: int| 0 <= k < at && names@[k]@ == segment_name(files@[i].0 as nat);
            assert(held.contains_key(vfs::path_join(dir@, names@[k]@)));
        }
        assert forall|number: nat|
            number < 10_000_000_000 && #[trigger] held.contains_key(segment_path(dir@, number)) implies exists|
            i: int,
        | 0 <= i < files@.len() && files@[i].0 == number by {
            segment_name_round_trip(number);
            let name = segment_name(number);
            assert(held.contains_key(vfs::path_join(dir@, name)));
            let k = choose|k: int| 0 <= k < names@.len() && names@[k]@ == name;
            assert(is_segment_name(names@[k]@));
        }
        assert forall|name: Seq<char>| !#[trigger] is_malformed(held, dir@, name) by {
            if is_malformed(held, dir@, name) {
                let k = choose|k: int| 0 <= k < names@.len() && names@[k]@ == name;
                assert(is_segment_name(names@[k]@));
            }
        }
    }
    Ok(files)
}

/// Segments with different numbers have different paths, however they are
/// written.
pub proof fn segment_paths_differ(dir: Seq<char>, left: nat, right: nat)
    requires
        left < 10_000_000_000,
        right < 10_000_000_000,
        left != right,
    ensures
        !path::same_path(segment_path(dir, left), segment_path(dir, right)),
{
    segment_name_round_trip(left);
    segment_name_round_trip(right);
    if path::same_path(segment_path(dir, left), segment_path(dir, right)) {
        path::joined_paths_differ(dir, segment_name(left), segment_name(right));
    }
}

/// A file is misnamed where it is there and has the extension of segment files,
/// but not the name of any number of ten digits.
pub proof fn misnamed_file_has_no_number(names: Map<Seq<char>, u64>, dir: Seq<char>, name: Seq<char>)
    ensures
        is_malformed(names, dir, name) ==> {
            &&& names.contains_key(vfs::path_join(dir, name))
            &&& is_segment_name(name) && vfs::is_file_name(name)
            &&& forall|number: nat| number < 10_000_000_000 ==> name != #[trigger] segment_name(number)
        },
        vfs::is_file_name(name) && is_segment_name(name) && !is_numbered(name) && names.contains_key(
            vfs::path_join(dir, name),
        ) ==> is_malformed(names, dir, name),
{
    assert forall|number: nat| number < 10_000_000_000 && is_malformed(names, dir, name) implies name
        != #[trigger] segment_name(number) by {
        segment_name_round_trip(number);
    }
}

} // verus!
