//! Where the puzzle texts are looked for, which of the files is read, and
//! how a text is cleaned after it was read.

use crate::text::{chars_of, decimal_digits, format_usize, string_of};
use vstd::prelude::*;

verus! {

/// A number in at least two digits, with a leading zero below ten.
pub open spec fn two_digits(n: nat) -> Seq<char> {
    if n < 10 {
        seq!['0'] + decimal_digits(n)
    } else {
        decimal_digits(n)
    }
}

/// The file of the example text of one part of a day.
pub open spec fn example_part_path(day: usize, part: u8) -> Seq<char> {
    "inputs/"@ + two_digits(day as nat) + "-example-"@ + decimal_digits(part as nat) + ".txt"@
}

/// The file of the example text that both parts of a day share.
pub open spec fn example_path(day: usize) -> Seq<char> {
    "inputs/"@ + two_digits(day as nat) + "-example.txt"@
}

/// The file of the full puzzle text of a day.
pub open spec fn full_path(day: usize) -> Seq<char> {
    "inputs/"@ + two_digits(day as nat) + ".txt"@
}

/// The files in which the text of a day is looked for, in the order in
/// which they are tried: for an example the file of the part, then the
/// example of the day, then the full text; else the full text alone.
pub open spec fn possible_paths(day: usize, example: bool, part: u8) -> Seq<Seq<char>> {
    if example {
        seq![example_part_path(day, part), example_path(day), full_path(day)]
    } else {
        seq![full_path(day)]
    }
}

/// The texts of a list of strings.
pub open spec fn texts(list: Seq<String>) -> Seq<Seq<char>> {
    Seq::new(list.len(), |i: int| list[i]@)
}

fn push_all(to: &mut Vec<char>, s: &str)
    ensures
        final(to)@ == old(to)@ + s@,
{
    let mut chars = chars_of(s);
    to.append(&mut chars);
}

fn push_two_digits(to: &mut Vec<char>, n: usize)
    ensures
        final(to)@ == old(to)@ + two_digits(n as nat),
{
    if n < 10 {
        to.push('0');
    }
    let mut digits = format_usize(n);
    to.append(&mut digits);
    assert(final(to)@ =~= old(to)@ + two_digits(n as nat));
}

/// The files in which the text of a day is looked for, in the order in
/// which they are tried.
pub fn get_possible_paths(day: usize, example: bool, part: u8) -> (paths: Vec<String>)
    ensures
        texts(paths@) == possible_paths(day, example, part),
{
    let mut paths: Vec<String> = Vec::new();
    if example {
        let mut first: Vec<char> = Vec::new();
        push_all(&mut first, "inputs/");
        push_two_digits(&mut first, day);
        push_all(&mut first, "-example-");
        let mut digits = format_usize(part as usize);
        first.append(&mut digits);
        push_all(&mut first, ".txt");
        assert(first@ =~= example_part_path(day, part));
        paths.push(string_of(&first));
        let mut second: Vec<char> = Vec::new();
        push_all(&mut second, "inputs/");
        push_two_digits(&mut second, day);
        push_all(&mut second, "-example.txt");
        assert(second@ =~= example_path(day));
        paths.push(string_of(&second));
    }
    let mut last: Vec<char> = Vec::new();
    push_all(&mut last, "inputs/");
    push_two_digits(&mut last, day);
    push_all(&mut last, ".txt");
    assert(last@ =~= full_path(day));
    paths.push(string_of(&last));
    assert(texts(paths@) =~= possible_paths(day, example, part));
    paths
}

/// Picks the file to read, of the answers to whether each of the files
/// that are tried exists: the first that does. `None` where none exists.
pub fn first_existing(exists: &Vec<bool>) -> (r: Option<usize>)
    ensures
        match r {
            Some(i) => i < exists.len() && exists[i as int] && forall|j: int|
                0 <= j < i ==> !exists[j],
            None => forall|j: int| 0 <= j < exists.len() ==> !exists[j],
        },
{
    let mut i: usize = 0;
    while i < exists.len()
        invariant
            i <= exists.len(),
            forall|j: int| 0 <= j < i ==> !exists[j],
        decreases exists.len() - i,
    {
        if exists[i] {
            return Some(i);
        }
        i += 1;
    }
    None
}

/// A text without its carriage returns.
pub open spec fn without_returns(text: Seq<char>) -> Seq<char> {
    text.filter(|c: char| c != '\r')
}

/// Removes every carriage return from a text, so that lines end in a line
/// feed alone.
pub fn strip_carriage_returns(text: &str) -> (r: String)
    ensures
        r@ == without_returns(text@),
{
    let chars = chars_of(text);
    let mut kept: Vec<char> = Vec::new();
    let mut i: usize = 0;
    let ghost keep = |c: char| c != '\r';
    assert(chars@.take(0) =~= Seq::<char>::empty());
    while i < chars.len()
        invariant
            i <= chars.len(),
            keep == (|c: char| c != '\r'),
            kept@ == chars@.take(i as int).filter(keep),
        decreases chars.len() - i,
    {
        proof {
            reveal(Seq::filter);
            assert(chars@.take(i + 1).drop_last() =~= chars@.take(i as int));
        }
        if chars[i] != '\r' {
            kept.push(chars[i]);
        }
        i += 1;
    }
    assert(chars@.take(i as int) =~= chars@);
    string_of(&kept)
}

} // verus!
