//! Decimal rendering of integers, character by character.

use vstd::prelude::*;
use vstd::string::*;

verus! {

/// The character of a single decimal digit.
pub open spec fn digit(d: nat) -> char {
    if d == 0 {
        '0'
    } else if d == 1 {
        '1'
    } else if d == 2 {
        '2'
    } else if d == 3 {
        '3'
    } else if d == 4 {
        '4'
    } else if d == 5 {
        '5'
    } else if d == 6 {
        '6'
    } else if d == 7 {
        '7'
    } else if d == 8 {
        '8'
    } else {
        '9'
    }
}

/// The decimal numeral of `n`, most significant digit first, without leading
/// zeros.
pub open spec fn decimal(n: nat) -> Seq<char>
    decreases n,
{
    if n < 10 {
        seq![digit(n)]
    } else {
        decimal(n / 10).push(digit(n % 10))
    }
}

/// The decimal numeral of `v`, with a leading minus sign when it is negative.
pub open spec fn signed(v: int) -> Seq<char> {
    if v < 0 {
        seq!['-'] + decimal((-v) as nat)
    } else {
        decimal(v as nat)
    }
}

/// A numeral holds digits only, so it never holds a line break.
pub proof fn lemma_decimal_has_no_line_break(n: nat)
    ensures
        decimal(n).len() >= 1,
        forall|k: int| 0 <= k < decimal(n).len() ==> decimal(n)[k] != '\n',
    decreases n,
{
    if n >= 10 {
        lemma_decimal_has_no_line_break(n / 10);
    }
}

/// Appends the character of one decimal digit.
pub(crate) fn append_digit(s: &mut String, d: u128)
    requires
        d < 10,
    ensures
        final(s)@ == old(s)@.push(digit(d as nat)),
{
    proof {
        reveal_strlit("0");
        reveal_strlit("1");
        reveal_strlit("2");
        reveal_strlit("3");
        reveal_strlit("4");
        reveal_strlit("5");
        reveal_strlit("6");
        reveal_strlit("7");
        reveal_strlit("8");
        reveal_strlit("9");
    }
    let ghost before = s@;
    if d == 0 {
        s.append("0");
    } else if d == 1 {
        s.append("1");
    } else if d == 2 {
        s.append("2");
    } else if d == 3 {
        s.append("3");
    } else if d == 4 {
        s.append("4");
    } else if d == 5 {
        s.append("5");
    } else if d == 6 {
        s.append("6");
    } else if d == 7 {
        s.append("7");
    } else if d == 8 {
        s.append("8");
    } else {
        s.append("9");
    }
    assert(s@ =~= before.push(digit(d as nat)));
}

/// Appends the decimal numeral of `n`.
pub fn append_decimal(s: &mut String, n: u128)
    ensures
        final(s)@ == old(s)@ + decimal(n as nat),
    decreases n,
{
    let ghost before = s@;
    if n >= 10 {
        append_decimal(s, n / 10);
    }
    append_digit(s, n % 10);
    assert(s@ =~= before + decimal(n as nat));
}

/// Appends the decimal numeral of `v`, with its sign.
pub fn append_signed(s: &mut String, v: i64)
    ensures
        final(s)@ == old(s)@ + signed(v as int),
{
    let ghost before = s@;
    if v < 0 {
        proof {
            reveal_strlit("-");
        }
        s.append("-");
        let magnitude: u128 = (-(v + 1)) as u128 + 1;
        append_decimal(s, magnitude);
        assert(s@ =~= before + signed(v as int));
    } else {
        append_decimal(s, v as u128);
    }
}

/// The first `count` numbers of a list, separated by a comma and a blank.
pub open spec fn items_text(items: Seq<usize>, count: nat) -> Seq<char>
    decreases count,
{
    if count == 0 {
        Seq::empty()
    } else if count == 1 {
        decimal(items[0] as nat)
    } else {
        items_text(items, (count - 1) as nat) + ", "@ + decimal(items[count - 1] as nat)
    }
}

/// A list of numbers in square brackets, separated by a comma and a blank.
pub open spec fn list_text(items: Seq<usize>) -> Seq<char> {
    "["@ + items_text(items, items.len()) + "]"@
}

/// Appends a list of numbers in square brackets.
pub fn append_list(s: &mut String, items: &Vec<usize>)
    ensures
        final(s)@ == old(s)@ + list_text(items@),
{
    let ghost before = s@;
    s.append("[");
    let ghost head = s@;
    let mut i: usize = 0;
    assert(s@ =~= head + items_text(items@, 0));
    while i < items.len()
        invariant
            i <= items@.len(),
            s@ == head + items_text(items@, i as nat),
        decreases items@.len() - i,
    {
        if i > 0 {
            s.append(", ");
        }
        append_decimal(s, items[i] as u128);
        assert(s@ =~= head + items_text(items@, (i + 1) as nat));
        i = i + 1;
    }
    s.append("]");
    assert(s@ =~= before + list_text(items@));
}

} // verus!
