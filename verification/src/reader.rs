//! Reading an instance from the lines of a project file: counts behind a
//! colon, rows of numbers, and the layout of the file.

use crate::text::{decimal, digit};
use crate::wcnf::ids_text;
use vstd::prelude::*;
use vstd::string::*;

verus! {

/// A character that separates numbers.
pub open spec fn is_blank(c: char) -> bool {
    c == ' ' || c == '\t' || c == '\n' || c == '\r'
}

/// The value of a decimal digit, and nothing for any other character.
pub open spec fn digit_of(c: char) -> Option<nat> {
    if c == '0' {
        Some(0)
    } else if c == '1' {
        Some(1)
    } else if c == '2' {
        Some(2)
    } else if c == '3' {
        Some(3)
    } else if c == '4' {
        Some(4)
    } else if c == '5' {
        Some(5)
    } else if c == '6' {
        Some(6)
    } else if c == '7' {
        Some(7)
    } else if c == '8' {
        Some(8)
    } else if c == '9' {
        Some(9)
    } else {
        None
    }
}

/// What is known of a text once it has been read from left to right: the
/// numbers that are complete, the value of the number that the text ends
/// in, if it ends in one, and whether the text has left the language.
pub struct Scan {
    pub numbers: Seq<usize>,
    pub open: Option<usize>,
    pub bad: bool,
}

/// Reads one more character. A blank completes the open number; a digit
/// extends it or opens one; anything else, and a number that is no machine
/// integer, leaves the language.
pub open spec fn step(s: Scan, c: char) -> Scan {
    if s.bad {
        s
    } else if is_blank(c) {
        match s.open {
            Some(v) => Scan { numbers: s.numbers.push(v), open: None, bad: false },
            None => s,
        }
    } else {
        match digit_of(c) {
            Some(d) => {
                let before: nat = match s.open {
                    Some(v) => v as nat,
                    None => 0,
                };
                if 10 * before + d <= usize::MAX {
                    Scan { numbers: s.numbers, open: Some((10 * before + d) as usize), bad: false }
                } else {
                    Scan { bad: true, ..s }
                }
            },
            None => Scan { bad: true, ..s },
        }
    }
}

/// Reads a text from left to right.
pub open spec fn scan(text: Seq<char>) -> Scan
    decreases text.len(),
{
    if text.len() == 0 {
        Scan { numbers: Seq::empty(), open: None, bad: false }
    } else {
        step(scan(text.drop_last()), text.last())
    }
}

/// The numbers of a text: decimal numerals separated by blanks. A text with
/// any other character, or with a numeral that is no machine integer, has
/// none.
pub open spec fn numbers_in(text: Seq<char>) -> Option<Seq<usize>> {
    let s = scan(text);
    if s.bad {
        None
    } else {
        match s.open {
            Some(v) => Some(s.numbers.push(v)),
            None => Some(s.numbers),
        }
    }
}

/// The first position at or behind `from` that holds the character `c`, or
/// the length of the text when there is none.
pub open spec fn position_of(text: Seq<char>, c: char, from: int) -> int
    decreases text.len() - from,
{
    if from >= text.len() {
        text.len() as int
    } else if from >= 0 && text[from] == c {
        from
    } else {
        position_of(text, c, from + 1)
    }
}

/// The first position at or behind `from` that holds a blank, if `blank`,
/// or a character that is no blank, if not; the length of the text when
/// there is none.
pub open spec fn next_of_kind(text: Seq<char>, blank: bool, from: int) -> int
    decreases text.len() - from,
{
    if from >= text.len() {
        text.len() as int
    } else if from >= 0 && is_blank(text[from]) == blank {
        from
    } else {
        next_of_kind(text, blank, from + 1)
    }
}

/// The field behind the first colon of a line: what stands between that
/// colon and the next one, or the end of the line. A line without a colon
/// has no field.
pub open spec fn field_of(text: Seq<char>) -> Option<Seq<char>> {
    let colon = position_of(text, ':', 0);
    if colon >= text.len() {
        None
    } else {
        Some(text.subrange(colon + 1, position_of(text, ':', colon + 1)))
    }
}

/// The first word of a text: from its first character that is no blank up
/// to the next blank.
pub open spec fn first_word(text: Seq<char>) -> Seq<char> {
    let begin = next_of_kind(text, false, 0);
    text.subrange(begin, next_of_kind(text, true, begin))
}

/// The single number of a text, if the text holds one number and nothing
/// else but blanks.
pub open spec fn single_number(text: Seq<char>) -> Option<usize> {
    match numbers_in(text) {
        Some(ns) => if ns.len() == 1 {
            Some(ns[0])
        } else {
            None
        },
        None => None,
    }
}

/// The count that a line states behind its colon.
pub open spec fn count_behind_colon(text: Seq<char>) -> Option<usize> {
    match field_of(text) {
        Some(field) => single_number(field),
        None => None,
    }
}

/// The count that a line states as the first word behind its colon.
pub open spec fn first_count_behind_colon(text: Seq<char>) -> Option<usize> {
    match field_of(text) {
        Some(field) => single_number(first_word(field)),
        None => None,
    }
}

/// `next_of_kind` stays within the text and behind its start.
pub proof fn lemma_next_of_kind(text: Seq<char>, blank: bool, from: int)
    requires
        0 <= from <= text.len(),
    ensures
        from <= next_of_kind(text, blank, from) <= text.len(),
    decreases text.len() - from,
{
    if from < text.len() && is_blank(text[from]) != blank {
        lemma_next_of_kind(text, blank, from + 1);
    }
}

/// What is written can be read: behind a text that ends between numbers,
/// the numeral of `n` reads as the number `n`.
pub proof fn lemma_numeral_is_read(before: Seq<char>, n: nat)
    requires
        n <= usize::MAX,
        !scan(before).bad,
        scan(before).open is None,
    ensures
        scan(before + decimal(n)) == (Scan {
            numbers: scan(before).numbers,
            open: Some(n as usize),
            bad: false,
        }),
    decreases n,
{
    let d = digit(n % 10);
    assert(digit_of(d) == Some(n % 10));
    assert(!is_blank(d));
    if n < 10 {
        let text = before + decimal(n);
        assert(text.drop_last() =~= before);
        assert(text.last() == d);
    } else {
        lemma_numeral_is_read(before, n / 10);
        let text = before + decimal(n);
        assert(text.drop_last() =~= before + decimal(n / 10));
        assert(text.last() == d);
    }
}

/// A list of ids written with a blank behind each reads as the same list.
pub proof fn lemma_written_ids_are_read(ids: Seq<usize>, count: nat)
    requires
        count <= ids.len(),
    ensures
        scan(ids_text(ids, count)) == (Scan { numbers: ids.take(count as int), open: None, bad: false }),
        numbers_in(ids_text(ids, count)) == Some(ids.take(count as int)),
    decreases count,
{
    if count == 0 {
        assert(ids.take(0) =~= Seq::<usize>::empty());
    } else {
        let before = ids_text(ids, (count - 1) as nat);
        lemma_written_ids_are_read(ids, (count - 1) as nat);
        lemma_numeral_is_read(before, ids[count - 1] as nat);
        let text = ids_text(ids, count);
        assert(text.drop_last() =~= before + decimal(ids[count - 1] as nat));
        assert(text.last() == ' ');
        assert(ids.take(count as int) =~= ids.take(count - 1).push(ids[count - 1]));
    }
}

/// The characters of a line.
pub(crate) fn chars_of(line: &str) -> (chars: Vec<char>)
    ensures
        chars@ == line@,
{
    let n = line.unicode_len();
    let mut chars: Vec<char> = Vec::new();
    let mut i: usize = 0;
    while i < n
        invariant
            n == line@.len(),
            i <= n,
            chars@ == line@.take(i as int),
        decreases n - i,
    {
        chars.push(line.get_char(i));
        assert(line@.take(i + 1) =~= line@.take(i as int).push(line@[i as int]));
        i = i + 1;
    }
    assert(line@.take(n as int) =~= line@);
    chars
}

/// The value of a decimal digit.
fn digit_value(c: char) -> (d: Option<usize>)
    ensures
        match d {
            Some(v) => digit_of(c) == Some(v as nat) && v < 10,
            None => digit_of(c) is None,
        },
{
    if c == '0' {
        Some(0)
    } else if c == '1' {
        Some(1)
    } else if c == '2' {
        Some(2)
    } else if c == '3' {
        Some(3)
    } else if c == '4' {
        Some(4)
    } else if c == '5' {
        Some(5)
    } else if c == '6' {
        Some(6)
    } else if c == '7' {
        Some(7)
    } else if c == '8' {
        Some(8)
    } else if c == '9' {
        Some(9)
    } else {
        None
    }
}

/// The numbers of the characters from `from` up to `to`.
fn numbers_between(chars: &Vec<char>, from: usize, to: usize) -> (numbers: Option<Vec<usize>>)
    requires
        from <= to <= chars@.len(),
    ensures
        match numbers {
            Some(v) => numbers_in(chars@.subrange(from as int, to as int)) == Some(v@),
            None => numbers_in(chars@.subrange(from as int, to as int)) is None,
        },
{
    let ghost text = chars@.subrange(from as int, to as int);
    let mut numbers: Vec<usize> = Vec::new();
    let mut open: Option<usize> = None;
    let mut i: usize = from;
    assert(text.take(0) =~= Seq::<char>::empty());
    while i < to
        invariant
            from <= i <= to,
            to <= chars@.len(),
            text == chars@.subrange(from as int, to as int),
            scan(text.take(i - from)) == (Scan { numbers: numbers@, open, bad: false }),
        decreases to - i,
    {
        let c = chars[i];
        proof {
            let next = text.take(i - from + 1);
            assert(next.drop_last() =~= text.take(i - from));
            assert(next.last() == c);
        }
        if c == ' ' || c == '\t' || c == '\n' || c == '\r' {
            match open {
                Some(v) => {
                    numbers.push(v);
                    open = None;
                },
                None => {},
            }
        } else {
            match digit_value(c) {
                None => {
                    proof {
                        lemma_bad_stays(text, i - from + 1);
                    }
                    return None;
                },
                Some(d) => {
                    let before: usize = match open {
                        Some(v) => v,
                        None => 0,
                    };
                    if before > (usize::MAX - d) / 10 {
                        proof {
                            lemma_bad_stays(text, i - from + 1);
                        }
                        return None;
                    }
                    open = Some(10 * before + d);
                },
            }
        }
        i = i + 1;
    }
    assert(text.take(to - from) =~= text);
    match open {
        Some(v) => {
            numbers.push(v);
        },
        None => {},
    }
    Some(numbers)
}

/// A text that has left the language does not come back.
pub proof fn lemma_bad_stays(text: Seq<char>, read: int)
    requires
        0 <= read <= text.len(),
        scan(text.take(read)).bad,
    ensures
        scan(text).bad,
    decreases text.len() - read,
{
    if read < text.len() {
        let next = text.take(read + 1);
        assert(next.drop_last() =~= text.take(read));
        lemma_bad_stays(text, read + 1);
    } else {
        assert(text.take(read) =~= text);
    }
}

/// The first position at or behind `from` that holds the character `c`.
pub(crate) fn find(chars: &Vec<char>, c: char, from: usize) -> (at: usize)
    requires
        from <= chars@.len(),
    ensures
        at == position_of(chars@, c, from as int),
        from <= at <= chars@.len(),
{
    let mut at = from;
    while at < chars.len() && chars[at] != c
        invariant
            from <= at <= chars@.len(),
            position_of(chars@, c, at as int) == position_of(chars@, c, from as int),
        decreases chars@.len() - at,
    {
        at = at + 1;
    }
    at
}

/// The first position at or behind `from` that holds a blank, or a
/// character that is none.
fn find_kind(chars: &Vec<char>, blank: bool, from: usize, to: usize) -> (at: usize)
    requires
        from <= to <= chars@.len(),
    ensures
        at == from + next_of_kind(chars@.subrange(from as int, to as int), blank, 0),
        from <= at <= to,
{
    let ghost text = chars@.subrange(from as int, to as int);
    let mut at = from;
    while at < to && (chars[at] == ' ' || chars[at] == '\t' || chars[at] == '\n' || chars[at]
        == '\r') != blank
        invariant
            from <= at <= to,
            to <= chars@.len(),
            text == chars@.subrange(from as int, to as int),
            next_of_kind(text, blank, at - from) == next_of_kind(text, blank, 0),
        decreases to - at,
    {
        at = at + 1;
    }
    at
}

/// The numbers of a line: decimal numerals separated by blanks. A line with
/// any other character, or with a numeral that is no machine integer, has
/// none.
pub fn line_to_numbers(line: &str) -> (numbers: Option<Vec<usize>>)
    ensures
        match numbers {
            Some(v) => numbers_in(line@) == Some(v@),
            None => numbers_in(line@) is None,
        },
{
    let chars = chars_of(line);
    assert(chars@.subrange(0, chars@.len() as int) =~= chars@);
    numbers_between(&chars, 0, chars.len())
}

/// The single number between `from` and `to`.
fn single_between(chars: &Vec<char>, from: usize, to: usize) -> (number: Option<usize>)
    requires
        from <= to <= chars@.len(),
    ensures
        number == single_number(chars@.subrange(from as int, to as int)),
{
    match numbers_between(chars, from, to) {
        Some(numbers) => if numbers.len() == 1 {
            Some(numbers[0])
        } else {
            None
        },
        None => None,
    }
}

/// The number of activities that a line states behind its colon. The field
/// behind the colon must hold that number and nothing else but blanks.
pub fn get_number_of_activities(line: &str) -> (count: Option<usize>)
    ensures
        count == count_behind_colon(line@),
{
    let chars = chars_of(line);
    let colon = find(&chars, ':', 0);
    if colon >= chars.len() {
        return None;
    }
    let end = find(&chars, ':', colon + 1);
    single_between(&chars, colon + 1, end)
}

/// The horizon that a line states behind its colon.
pub fn get_horizon(line: &str) -> (horizon: Option<usize>)
    ensures
        horizon == count_behind_colon(line@),
{
    get_number_of_activities(line)
}

/// The number of resources that a line states as the first word behind its
/// colon; what follows that word is not looked at.
pub fn get_number_of_resources(line: &str) -> (count: Option<usize>)
    ensures
        count == first_count_behind_colon(line@),
{
    let chars = chars_of(line);
    let colon = find(&chars, ':', 0);
    if colon >= chars.len() {
        return None;
    }
    let end = find(&chars, ':', colon + 1);
    let ghost field = chars@.subrange(colon + 1, end as int);
    let begin = find_kind(&chars, false, colon + 1, end);
    let stop = find_kind(&chars, true, begin, end);
    proof {
        let b = next_of_kind(field, false, 0);
        lemma_next_of_kind(field, false, 0);
        lemma_next_of_kind(field, true, b);
        assert(chars@.subrange(begin as int, end as int) =~= field.subrange(b, field.len() as int));
        lemma_next_of_kind_shift(field, true, b, b);
        assert(chars@.subrange(begin as int, stop as int) =~= first_word(field));
    }
    single_between(&chars, begin, stop)
}

/// Looking for a kind of character in the rest of a text finds the same
/// character as looking in the whole text from where the rest begins.
pub proof fn lemma_next_of_kind_shift(text: Seq<char>, blank: bool, cut: int, from: int)
    requires
        0 <= cut <= from <= text.len(),
    ensures
        cut + next_of_kind(text.subrange(cut, text.len() as int), blank, from - cut)
            == next_of_kind(text, blank, from),
    decreases text.len() - from,
{
    let rest = text.subrange(cut, text.len() as int);
    if from < text.len() {
        assert(rest[from - cut] == text[from]);
        if is_blank(text[from]) != blank {
            lemma_next_of_kind_shift(text, blank, cut, from + 1);
        }
    }
}

/// What a project file states: for every mode its demands, for every
/// activity the numbers of its successors, the numbers of the activities, for
/// every mode its duration, and the capacities of the renewable resources.
#[derive(Debug, Clone, PartialEq, Eq)]
pub struct Instance {
    pub resources: Vec<Vec<usize>>,
    pub successors: Vec<Vec<usize>>,
    pub activities: Vec<usize>,
    pub durations: Vec<usize>,
    pub capacities: Vec<usize>,
}

/// An instance as plain sequences.
pub struct InstanceView {
    pub resources: Seq<Seq<usize>>,
    pub successors: Seq<Seq<usize>>,
    pub activities: Seq<usize>,
    pub durations: Seq<usize>,
    pub capacities: Seq<usize>,
}

/// The rows of a table as plain sequences.
pub open spec fn rows_of(table: Seq<Vec<usize>>) -> Seq<Seq<usize>> {
    Seq::new(table.len(), |k: int| table[k]@)
}

impl View for Instance {
    type V = InstanceView;

    open spec fn view(&self) -> InstanceView {
        InstanceView {
            resources: rows_of(self.resources@),
            successors: rows_of(self.successors@),
            activities: self.activities@,
            durations: self.durations@,
            capacities: self.capacities@,
        }
    }
}

/// The texts of the lines.
pub open spec fn texts(lines: Seq<String>) -> Seq<Seq<char>> {
    Seq::new(lines.len(), |k: int| lines[k]@)
}

/// The numbers of line `k`, which must exist.
pub open spec fn row_at(lines: Seq<Seq<char>>, k: int) -> Option<Seq<usize>> {
    if 0 <= k < lines.len() {
        numbers_in(lines[k])
    } else {
        None
    }
}

/// The line of the first activity.
pub const FIRST_ACTIVITY: usize = 18;

/// The lines between the rows of the activities and the rows of the modes.
pub const BEFORE_MODES: usize = 4;

/// The lines between the rows of the modes and the row of the capacities.
pub const BEFORE_CAPACITIES: usize = 3;

/// The successors and the number of modes of the first `count` activities.
/// The row of an activity holds its number, the number of its modes, the
/// number of its successors, and the successors.
pub open spec fn precedence_table(lines: Seq<Seq<char>>, count: nat) -> Option<
    (Seq<Seq<usize>>, nat),
>
    decreases count,
{
    if count == 0 {
        Some((Seq::empty(), 0nat))
    } else {
        match precedence_table(lines, (count - 1) as nat) {
            None => None,
            Some((table, modes)) => match row_at(lines, FIRST_ACTIVITY + count - 1) {
                None => None,
                Some(r) => if r.len() < 2 || modes + r[1] > usize::MAX {
                    None
                } else {
                    Some(
                        (
                            table.push(
                                if r.len() > 3 {
                                    r.skip(3)
                                } else {
                                    Seq::empty()
                                },
                            ),
                            modes + r[1] as nat,
                        ),
                    )
                },
            },
        }
    }
}

/// The durations and demands of the first `count` modes, whose rows begin at
/// line `first`. A row ends in the demands, `width` of them, and before
/// them stands the duration.
pub open spec fn mode_table(lines: Seq<Seq<char>>, first: int, width: nat, count: nat) -> Option<
    (Seq<usize>, Seq<Seq<usize>>),
>
    decreases count,
{
    if count == 0 {
        Some((Seq::empty(), Seq::empty()))
    } else {
        match mode_table(lines, first, width, (count - 1) as nat) {
            None => None,
            Some((durations, demands)) => match row_at(lines, first + count - 1) {
                None => None,
                Some(r) => if r.len() < width + 1 {
                    None
                } else {
                    Some(
                        (
                            durations.push(r[r.len() - width - 1]),
                            demands.push(r.skip(r.len() - width)),
                        ),
                    )
                },
            },
        }
    }
}

/// The instance that the lines of a project file state, if they state one.
///
/// Line 5 states the number of activities, line 6 the horizon, lines 8 and 9
/// the numbers of renewable and of other resources, each behind a colon.
/// From line 18 on every activity has a row; four lines further every mode
/// has a row; three lines further stands the row of the capacities, of
/// which the renewable ones come first.
pub open spec fn instance_of(lines: Seq<Seq<char>>) -> Option<InstanceView> {
    if lines.len() <= 9 {
        None
    } else {
        match (
            count_behind_colon(lines[5]),
            count_behind_colon(lines[6]),
            first_count_behind_colon(lines[8]),
            first_count_behind_colon(lines[9]),
        ) {
            (Some(n), Some(_), Some(renewable), Some(other)) => {
                if renewable + other >= usize::MAX {
                    None
                } else {
                    match precedence_table(lines, n as nat) {
                        None => None,
                        Some((successors, modes)) => match mode_table(
                            lines,
                            FIRST_ACTIVITY + n + BEFORE_MODES,
                            (renewable + other) as nat,
                            modes,
                        ) {
                            None => None,
                            Some((durations, resources)) => match row_at(
                                lines,
                                FIRST_ACTIVITY + n + BEFORE_MODES + modes + BEFORE_CAPACITIES,
                            ) {
                                None => None,
                                Some(c) => if c.len() < renewable {
                                    None
                                } else {
                                    Some(
                                        InstanceView {
                                            resources,
                                            successors,
                                            activities: Seq::new(
                                                n as nat,
                                                |k: int| (k + 1) as usize,
                                            ),
                                            durations,
                                            capacities: c.take(renewable as int),
                                        },
                                    )
                                },
                            },
                        },
                    }
                }
            },
            _ => None,
        }
    }
}

/// The numbers of line `k`.
fn numbers_at(lines: &Vec<String>, k: u128) -> (numbers: Option<Vec<usize>>)
    ensures
        match numbers {
            Some(v) => row_at(texts(lines@), k as int) == Some(v@),
            None => row_at(texts(lines@), k as int) is None,
        },
{
    if k >= lines.len() as u128 {
        return None;
    }
    line_to_numbers(lines[k as usize].as_str())
}

/// The entries of `row` from `from` on.
fn rest_of(row: &Vec<usize>, from: usize) -> (rest: Vec<usize>)
    requires
        from <= row@.len(),
    ensures
        rest@ == row@.skip(from as int),
{
    let mut rest: Vec<usize> = Vec::new();
    let mut i: usize = from;
    while i < row.len()
        invariant
            from <= i <= row@.len(),
            rest@ == row@.subrange(from as int, i as int),
        decreases row@.len() - i,
    {
        rest.push(row[i]);
        assert(rest@ =~= row@.subrange(from as int, i + 1));
        i = i + 1;
    }
    assert(row@.subrange(from as int, row@.len() as int) =~= row@.skip(from as int));
    rest
}

/// Once a table cannot be read, a longer one cannot be read either.
proof fn lemma_precedence_table_fails(lines: Seq<Seq<char>>, failed: nat, count: nat)
    requires
        failed <= count,
        precedence_table(lines, failed) is None,
    ensures
        precedence_table(lines, count) is None,
    decreases count,
{
    if failed < count {
        lemma_precedence_table_fails(lines, failed, (count - 1) as nat);
    }
}

proof fn lemma_mode_table_fails(lines: Seq<Seq<char>>, first: int, width: nat, failed: nat, count: nat)
    requires
        failed <= count,
        mode_table(lines, first, width, failed) is None,
    ensures
        mode_table(lines, first, width, count) is None,
    decreases count,
{
    if failed < count {
        lemma_mode_table_fails(lines, first, width, failed, (count - 1) as nat);
    }
}

/// The successors and the number of modes of the first `n` activities.
fn read_activities(lines: &Vec<String>, n: usize) -> (table: Option<(Vec<Vec<usize>>, usize)>)
    ensures
        match table {
            Some((successors, modes)) => precedence_table(texts(lines@), n as nat) == Some(
                (rows_of(successors@), modes as nat),
            ),
            None => precedence_table(texts(lines@), n as nat) is None,
        },
{
    let ghost text = texts(lines@);
    let mut successors: Vec<Vec<usize>> = Vec::new();
    let mut modes: usize = 0;
    let mut i: usize = 0;
    assert(rows_of(successors@) =~= Seq::<Seq<usize>>::empty());
    while i < n
        invariant
            i <= n,
            text == texts(lines@),
            precedence_table(text, i as nat) == Some((rows_of(successors@), modes as nat)),
        decreases n - i,
    {
        let row = match numbers_at(lines, FIRST_ACTIVITY as u128 + i as u128) {
            Some(row) => row,
            None => {
                proof {
                    assert(precedence_table(text, (i + 1) as nat) is None);
                    lemma_precedence_table_fails(text, (i + 1) as nat, n as nat);
                }
                return None;
            },
        };
        if row.len() < 2 || row[1] > usize::MAX - modes {
            proof {
                assert(precedence_table(text, (i + 1) as nat) is None);
                lemma_precedence_table_fails(text, (i + 1) as nat, n as nat);
            }
            return None;
        }
        modes = modes + row[1];
        let ghost before = rows_of(successors@);
        if row.len() > 3 {
            successors.push(rest_of(&row, 3));
        } else {
            successors.push(Vec::new());
        }
        assert(rows_of(successors@) =~= before.push(
            if row@.len() > 3 {
                row@.skip(3)
            } else {
                Seq::empty()
            },
        ));
        i = i + 1;
    }
    Some((successors, modes))
}

/// The durations and demands of `count` modes whose rows begin at line
/// `first`.
fn read_modes(lines: &Vec<String>, first: u128, width: usize, count: usize) -> (table: Option<
    (Vec<usize>, Vec<Vec<usize>>),
>)
    requires
        width < usize::MAX,
        first + count <= u128::MAX,
    ensures
        match table {
            Some((durations, demands)) => mode_table(
                texts(lines@),
                first as int,
                width as nat,
                count as nat,
            ) == Some((durations@, rows_of(demands@))),
            None => mode_table(texts(lines@), first as int, width as nat, count as nat) is None,
        },
{
    let ghost text = texts(lines@);
    let mut durations: Vec<usize> = Vec::new();
    let mut demands: Vec<Vec<usize>> = Vec::new();
    let mut m: usize = 0;
    assert(rows_of(demands@) =~= Seq::<Seq<usize>>::empty());
    while m < count
        invariant
            m <= count,
            width < usize::MAX,
            first + count <= u128::MAX,
            text == texts(lines@),
            mode_table(text, first as int, width as nat, m as nat) == Some(
                (durations@, rows_of(demands@)),
            ),
        decreases count - m,
    {
        let row = match numbers_at(lines, first + m as u128) {
            Some(row) => row,
            None => {
                proof {
                    assert(mode_table(text, first as int, width as nat, (m + 1) as nat) is None);
                    lemma_mode_table_fails(text, first as int, width as nat, (m + 1) as nat, count as nat);
                }
                return None;
            },
        };
        if row.len() < width + 1 {
            proof {
                assert(mode_table(text, first as int, width as nat, (m + 1) as nat) is None);
                lemma_mode_table_fails(text, first as int, width as nat, (m + 1) as nat, count as nat);
            }
            return None;
        }
        durations.push(row[row.len() - width - 1]);
        let ghost before = rows_of(demands@);
        demands.push(rest_of(&row, row.len() - width));
        assert(rows_of(demands@) =~= before.push(row@.skip(row@.len() - width)));
        m = m + 1;
    }
    Some((durations, demands))
}

/// The instance that the lines of a project file state. Lines that are
/// missing, counts and rows that cannot be read, and rows that are too short
/// all leave the file without an instance.
pub fn read_input(lines: &Vec<String>) -> (instance: Option<Instance>)
    ensures
        match instance {
            Some(found) => instance_of(texts(lines@)) == Some(found@),
            None => instance_of(texts(lines@)) is None,
        },
{
    if lines.len() <= 9 {
        return None;
    }
    let n = match get_number_of_activities(lines[5].as_str()) {
        Some(n) => n,
        None => {
            return None;
        },
    };
    match get_horizon(lines[6].as_str()) {
        Some(_) => {},
        None => {
            return None;
        },
    }
    let renewable = match get_number_of_resources(lines[8].as_str()) {
        Some(count) => count,
        None => {
            return None;
        },
    };
    let other = match get_number_of_resources(lines[9].as_str()) {
        Some(count) => count,
        None => {
            return None;
        },
    };
    if other >= usize::MAX - renewable {
        return None;
    }
    let (successors, modes) = match read_activities(lines, n) {
        Some(table) => table,
        None => {
            return None;
        },
    };
    let first_mode: u128 = FIRST_ACTIVITY as u128 + n as u128 + BEFORE_MODES as u128;
    let (durations, resources) = match read_modes(lines, first_mode, renewable + other, modes) {
        Some(table) => table,
        None => {
            return None;
        },
    };
    let last: u128 = first_mode + modes as u128 + BEFORE_CAPACITIES as u128;
    let row = match numbers_at(lines, last) {
        Some(row) => row,
        None => {
            return None;
        },
    };
    if row.len() < renewable {
        return None;
    }
    let mut capacities: Vec<usize> = Vec::new();
    let mut k: usize = 0;
    while k < renewable
        invariant
            k <= renewable <= row@.len(),
            capacities@ == row@.take(k as int),
        decreases renewable - k,
    {
        capacities.push(row[k]);
        assert(capacities@ =~= row@.take(k + 1));
        k = k + 1;
    }
    let mut activities: Vec<usize> = Vec::new();
    let mut k: usize = 0;
    while k < n
        invariant
            k <= n,
            activities@ == Seq::new(k as nat, |c: int| (c + 1) as usize),
        decreases n - k,
    {
        activities.push(k + 1);
        assert(activities@ =~= Seq::new((k + 1) as nat, |c: int| (c + 1) as usize));
        k = k + 1;
    }
    let found = Instance { resources, successors, activities, durations, capacities };
    assert(found@.activities =~= Seq::new(n as nat, |c: int| (c + 1) as usize));
    Some(found)
}

} // verus!
