//! The names of the files that a split writes and a merge reads.

use vstd::prelude::*;
use vstd::string::{StrSliceExecFns, StringExecFns};

verus! {

/// The character that parts the directories of a path.
pub const SEPARATOR: char = '/';

/// The ten digits, in order.
pub open spec fn digits() -> Seq<char> {
    seq!['0', '1', '2', '3', '4', '5', '6', '7', '8', '9']
}

/// The digit character for a number below ten.
pub open spec fn digit_char(digit: int) -> char {
    digits()[digit]
}

/// A number in decimal digits, without leading zeros.
pub open spec fn decimal(value: nat) -> Seq<char>
    decreases value,
{
    if value < 10 {
        seq![digit_char(value as int)]
    } else {
        decimal(value / 10).push(digit_char((value % 10) as int))
    }
}

/// The name of the file of disk `disk`: the source path, an underscore, and
/// the index of the disk.
pub open spec fn disk_path_spec(source_filename: Seq<char>, disk: nat) -> Seq<char> {
    source_filename + seq!['_'] + decimal(disk)
}

/// Where the base name of a path begins: behind its last separator, or at
/// its start where it has none.
pub open spec fn base_name_start(path: Seq<char>) -> int
    decreases path.len(),
{
    if path.len() == 0 {
        0
    } else if path.last() == SEPARATOR {
        path.len() as int
    } else {
        base_name_start(path.drop_last())
    }
}

/// The name of the restored file: the base name of the source path with
/// `res__` before it, in the directory of the source.
pub open spec fn restored_path_spec(source_filename: Seq<char>) -> Seq<char> {
    let start = base_name_start(source_filename);
    source_filename.subrange(0, start) + seq!['r', 'e', 's', '_', '_'] + source_filename.subrange(
        start,
        source_filename.len() as int,
    )
}

fn digit_str(digit: usize) -> (text: &'static str)
    requires
        digit < 10,
    ensures
        text@ == seq![digit_char(digit as int)],
{
    proof {
        reveal_strlit("0");
        reveal_strlit("1");
        reveal_strlit("2");
        reveal_strlit("3");
        reveal_strlit("4");
        reveal_strlit("5");
        reveal_strlit("6");
        reveal_strlit("7");
        reveal_strlit("8");
        reveal_strlit("9");
    }
    match digit {
        0 => "0",
        1 => "1",
        2 => "2",
        3 => "3",
        4 => "4",
        5 => "5",
        6 => "6",
        7 => "7",
        8 => "8",
        _ => "9",
    }
}

fn append_decimal(path: &mut String, value: usize)
    ensures
        final(path)@ == old(path)@ + decimal(value as nat),
    decreases value,
{
    if value >= 10 {
        append_decimal(path, value / 10);
    }
    path.append(digit_str(value % 10));
}

/// The name of the file that holds disk `disk` of the source at `source_filename`.
pub fn disk_path(source_filename: &str, disk: usize) -> (path: String)
    ensures
        path@ == disk_path_spec(source_filename@, disk as nat),
{
    let mut path = source_filename.to_owned();
    proof {
        reveal_strlit("_");
    }
    path.append("_");
    append_decimal(&mut path, disk);
    path
}

/// The base name begins at `start` where no separator stands from there
/// on and one stands just before, or the path begins there.
pub proof fn lemma_base_name_start_is(path: Seq<char>, start: int)
    requires
        0 <= start <= path.len(),
        start > 0 ==> path[start - 1] == SEPARATOR,
        forall|i: int| start <= i < path.len() ==> path[i] != SEPARATOR,
    ensures
        base_name_start(path) == start,
    decreases path.len(),
{
    if path.len() > start {
        lemma_base_name_start_is(path.drop_last(), start);
    }
}

/// The name of the file that the source at `source_filename` is restored to.
pub fn get_restored_path(source_filename: &str) -> (path: String)
    ensures
        path@ == restored_path_spec(source_filename@),
{
    let length = source_filename.unicode_len();
    let mut start = length;
    while start > 0 && source_filename.get_char(start - 1) != SEPARATOR
        invariant
            start <= length,
            length == source_filename@.len(),
            forall|i: int| start <= i < length ==> source_filename@[i] != SEPARATOR,
        decreases start,
    {
        start -= 1;
    }
    proof {
        lemma_base_name_start_is(source_filename@, start as int);
        reveal_strlit("res__");
    }
    let mut path = source_filename.substring_char(0, start).to_owned();
    path.append("res__");
    path.append(source_filename.substring_char(start, length));
    path
}

} // verus!
