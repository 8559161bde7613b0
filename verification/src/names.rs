//! The parts of a file name by which inputs are chosen and outputs named.

use crate::reader::{chars_of, find, position_of};
use vstd::prelude::*;
use vstd::string::*;

verus! {

/// The last position that holds the character `c`, or -1 when there is
/// none.
pub open spec fn last_position_of(text: Seq<char>, c: char) -> int
    decreases text.len(),
{
    if text.len() == 0 {
        -1
    } else if text.last() == c {
        text.len() - 1
    } else {
        last_position_of(text.drop_last(), c)
    }
}

/// The last component of a path: what follows its last slash.
pub open spec fn base_of(path: Seq<char>) -> Seq<char> {
    path.skip(last_position_of(path, '/') + 1)
}

/// The last component of a path up to its first dot.
pub open spec fn stem_of(path: Seq<char>) -> Seq<char> {
    base_of(path).take(position_of(base_of(path), '.', 0))
}

/// What follows the last dot of the last component of a path, and the
/// whole component when it has no dot.
pub open spec fn ending_of(path: Seq<char>) -> Seq<char> {
    base_of(path).skip(last_position_of(base_of(path), '.') + 1)
}

/// The position behind the last `c` among the characters from `from` on.
fn behind_last(chars: &Vec<char>, c: char, from: usize) -> (at: usize)
    requires
        from <= chars@.len(),
    ensures
        at == from + last_position_of(chars@.skip(from as int), c) + 1,
        from <= at <= chars@.len(),
{
    let ghost text = chars@.skip(from as int);
    let mut at = from;
    let mut i: usize = from;
    assert(text.take(0) =~= Seq::<char>::empty());
    while i < chars.len()
        invariant
            from <= i <= chars@.len(),
            from <= at <= i,
            text == chars@.skip(from as int),
            at == from + last_position_of(text.take(i - from), c) + 1,
        decreases chars@.len() - i,
    {
        proof {
            let next = text.take(i - from + 1);
            assert(next.drop_last() =~= text.take(i - from));
            assert(next.last() == chars@[i as int]);
        }
        if chars[i] == c {
            at = i + 1;
        }
        i = i + 1;
    }
    assert(text.take(chars@.len() - from) =~= text);
    at
}

/// The name of a file without its directories and without what follows the
/// first dot.
pub fn strip_ending<'a>(file_name: &'a str) -> (stem: &'a str)
    ensures
        stem@ == stem_of(file_name@),
{
    let chars = chars_of(file_name);
    assert(chars@.skip(0) =~= chars@);
    let begin = behind_last(&chars, '/', 0);
    let end = find_from(&chars, '.', begin);
    let stem = file_name.substring_char(begin, end);
    assert(stem@ =~= stem_of(file_name@));
    stem
}

/// What follows the last dot in the name of a file, directories left
/// aside; the whole name when it has no dot.
pub fn get_ending<'a>(file_name: &'a str) -> (ending: &'a str)
    ensures
        ending@ == ending_of(file_name@),
{
    let chars = chars_of(file_name);
    assert(chars@.skip(0) =~= chars@);
    let begin = behind_last(&chars, '/', 0);
    let dot = behind_last(&chars, '.', begin);
    let ending = file_name.substring_char(dot, chars.len());
    assert(ending@ =~= ending_of(file_name@));
    ending
}

/// The first position of `c` at or behind `from`, counted from `from`.
fn find_from(chars: &Vec<char>, c: char, from: usize) -> (at: usize)
    requires
        from <= chars@.len(),
    ensures
        at == from + position_of(chars@.skip(from as int), c, 0),
        from <= at <= chars@.len(),
{
    let at = find(chars, c, from);
    proof {
        lemma_position_shift(chars@, c, from as int, from as int);
    }
    at
}

/// Looking for a character in the rest of a text finds the same character
/// as looking in the whole text from where the rest begins.
pub proof fn lemma_position_shift(text: Seq<char>, c: char, cut: int, from: int)
    requires
        0 <= cut <= from <= text.len(),
    ensures
        cut + position_of(text.skip(cut), c, from - cut) == position_of(text, c, from),
    decreases text.len() - from,
{
    let rest = text.skip(cut);
    if from < text.len() {
        assert(rest[from - cut] == text[from]);
        if text[from] != c {
            lemma_position_shift(text, c, cut, from + 1);
        }
    }
}

} // verus!
