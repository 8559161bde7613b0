//! The weighted-CNF document: a comment line with the order of the
//! variables, the problem line, the hard clauses and the soft clauses.

use crate::sat_seg_var::{
    clause_text, hard_text, header_text, largest_in, largest_in_row, largest_magnitude,
    lemma_largest_in, literal_lists, literals_text, magnitude, soft_text, Clause,
};
use crate::text::{append_decimal, decimal, lemma_decimal_has_no_line_break, signed};
use vstd::prelude::*;
use vstd::string::*;

verus! {

/// Why a document could not be written.
#[derive(Debug, Clone, Copy, PartialEq, Eq)]
pub enum DocumentError {
    /// The weight of a hard clause, one more than the sum of the soft
    /// weights, is no machine integer.
    WeightOutOfRange,
}

/// The ids of a comment line: each numeral followed by a blank.
pub open spec fn ids_text(ids: Seq<usize>, count: nat) -> Seq<char>
    decreases count,
{
    if count == 0 {
        Seq::empty()
    } else {
        ids_text(ids, (count - 1) as nat) + decimal(ids[count - 1] as nat) + seq![' ']
    }
}

/// The comment line that records the order of the variables.
pub open spec fn comment_text(ids: Seq<usize>) -> Seq<char> {
    seq!['c', ' '] + ids_text(ids, ids.len()) + seq!['\n']
}

/// The sum of the first `count` weights.
pub open spec fn total_weight(weights: Seq<usize>, count: nat) -> nat
    decreases count,
{
    if count == 0 {
        0
    } else {
        total_weight(weights, (count - 1) as nat) + weights[count - 1] as nat
    }
}

/// The weight that marks a clause as hard: more than all soft weights
/// together.
pub open spec fn hard_weight(weights: Seq<usize>) -> nat {
    total_weight(weights, weights.len()) + 1
}

/// The clauses of a document, hard ones first.
pub open spec fn body_clauses(hard: Seq<Clause>, soft: Seq<Clause>) -> Seq<Seq<i64>> {
    literal_lists(hard) + literal_lists(soft)
}

/// The number of clauses that the problem line declares.
pub open spec fn declared_count(hard: Seq<Clause>, soft: Seq<Clause>) -> nat {
    hard.len() + soft.len()
}

/// The largest variable id that the problem line declares.
pub open spec fn declared_max(hard: Seq<Clause>, soft: Seq<Clause>) -> nat {
    largest_magnitude(body_clauses(hard, soft), body_clauses(hard, soft).len())
}

/// The clause lines of a document: the hard clauses in order, then the soft
/// clauses, the last of them first.
pub open spec fn body_text(hard: Seq<Clause>, soft: Seq<Clause>, weights: Seq<usize>) -> Seq<char> {
    hard_text(hard, hard_weight(weights), hard.len()) + soft_text(soft, weights, soft.len())
}

/// The whole document.
pub open spec fn document_text(
    order: Seq<usize>,
    hard: Seq<Clause>,
    soft: Seq<Clause>,
    weights: Seq<usize>,
) -> Seq<char> {
    comment_text(order) + header_text(
        declared_count(hard, soft),
        declared_max(hard, soft),
        hard_weight(weights),
    ) + body_text(hard, soft, weights)
}

/// The number of line breaks in a text.
pub open spec fn line_breaks(text: Seq<char>) -> nat
    decreases text.len(),
{
    if text.len() == 0 {
        0
    } else {
        line_breaks(text.drop_last()) + if text.last() == '\n' {
            1nat
        } else {
            0nat
        }
    }
}

/// No character of the text is a line break.
pub open spec fn on_one_line(text: Seq<char>) -> bool {
    forall|k: int| 0 <= k < text.len() ==> text[k] != '\n'
}

/// The line breaks of two texts add up when the texts are joined.
pub proof fn lemma_line_breaks_add(a: Seq<char>, b: Seq<char>)
    ensures
        line_breaks(a + b) == line_breaks(a) + line_breaks(b),
    decreases b.len(),
{
    if b.len() == 0 {
        assert(a + b =~= a);
    } else {
        lemma_line_breaks_add(a, b.drop_last());
        assert((a + b).drop_last() =~= a + b.drop_last());
        assert((a + b).last() == b.last());
    }
}

/// A text without a line break has none to count.
pub proof fn lemma_one_line_has_no_breaks(text: Seq<char>)
    requires
        on_one_line(text),
    ensures
        line_breaks(text) == 0,
    decreases text.len(),
{
    if text.len() > 0 {
        lemma_one_line_has_no_breaks(text.drop_last());
    }
}

/// The wire form of a clause stays on one line.
pub proof fn lemma_clause_text_on_one_line(weight: nat, literals: Seq<i64>)
    ensures
        on_one_line(clause_text(weight, literals)),
{
    lemma_decimal_has_no_line_break(weight);
    lemma_literals_text_on_one_line(literals);
}

proof fn lemma_literals_text_on_one_line(literals: Seq<i64>)
    ensures
        on_one_line(literals_text(literals)),
    decreases literals.len(),
{
    if literals.len() > 0 {
        lemma_literals_text_on_one_line(literals.drop_last());
        let v = literals.last() as int;
        if v < 0 {
            lemma_decimal_has_no_line_break((-v) as nat);
        } else {
            lemma_decimal_has_no_line_break(v as nat);
        }
        assert(on_one_line(signed(v)));
    }
}

/// A line break alone counts as one.
pub proof fn lemma_single_line_break()
    ensures
        line_breaks(seq!['\n']) == 1,
{
    let text = seq!['\n'];
    assert(text.drop_last() =~= Seq::<char>::empty());
    assert(line_breaks(text.drop_last()) == 0);
}

/// The lines of `count` hard clauses hold `count` line breaks.
pub proof fn lemma_hard_text_lines(clauses: Seq<Clause>, top: nat, count: nat)
    requires
        count <= clauses.len(),
    ensures
        line_breaks(hard_text(clauses, top, count)) == count,
    decreases count,
{
    if count > 0 {
        lemma_hard_text_lines(clauses, top, (count - 1) as nat);
        let line = clause_text(top, clauses[count - 1]@);
        lemma_clause_text_on_one_line(top, clauses[count - 1]@);
        lemma_one_line_has_no_breaks(line);
        lemma_line_breaks_add(hard_text(clauses, top, (count - 1) as nat), line);
        lemma_line_breaks_add(hard_text(clauses, top, (count - 1) as nat) + line, seq!['\n']);
        lemma_single_line_break();
    }
}

/// The lines of `count` soft clauses hold `count` line breaks.
pub proof fn lemma_soft_text_lines(clauses: Seq<Clause>, weights: Seq<usize>, count: nat)
    requires
        count <= clauses.len(),
        count <= weights.len(),
    ensures
        line_breaks(soft_text(clauses, weights, count)) == count,
    decreases count,
{
    if count > 0 {
        lemma_soft_text_lines(clauses, weights, (count - 1) as nat);
        let line = clause_text(weights[count - 1] as nat, clauses[count - 1]@);
        lemma_clause_text_on_one_line(weights[count - 1] as nat, clauses[count - 1]@);
        lemma_one_line_has_no_breaks(line);
        lemma_line_breaks_add(line, seq!['\n']);
        lemma_line_breaks_add(line + seq!['\n'], soft_text(clauses, weights, (count - 1) as nat));
        lemma_single_line_break();
    }
}

/// Unless no list holds a literal, the largest magnitude is that of some
/// literal.
pub proof fn lemma_largest_is_attained(lists: Seq<Seq<i64>>, count: nat)
    requires
        count <= lists.len(),
        exists|c: int| 0 <= c < count && (#[trigger] lists[c]).len() > 0,
    ensures
        exists|c: int, k: int|
            0 <= c < count && 0 <= k < lists[c].len() && magnitude(#[trigger] lists[c][k])
                == largest_magnitude(lists, count),
    decreases count,
{
    let own = lists[count - 1];
    let rest = largest_magnitude(lists, (count - 1) as nat);
    lemma_largest_in(own);
    if largest_in(own) > rest {
        let k = choose|k: int| 0 <= k < own.len() && magnitude(#[trigger] own[k]) == largest_in(own);
        assert(magnitude(lists[count - 1][k]) == largest_magnitude(lists, count));
    } else if exists|c: int| 0 <= c < count - 1 && (#[trigger] lists[c]).len() > 0 {
        lemma_largest_is_attained(lists, (count - 1) as nat);
        let (c, k) = choose|c: int, k: int|
            0 <= c < count - 1 && 0 <= k < lists[c].len() && magnitude(#[trigger] lists[c][k])
                == rest;
        assert(magnitude(lists[c][k]) == largest_magnitude(lists, count));
    } else {
        lemma_largest_of_empty(lists, (count - 1) as nat);
        assert(own.len() > 0);
        let k = choose|k: int| 0 <= k < own.len() && magnitude(#[trigger] own[k]) == largest_in(own);
        assert(magnitude(lists[count - 1][k]) == largest_magnitude(lists, count));
    }
}

proof fn lemma_largest_of_empty(lists: Seq<Seq<i64>>, count: nat)
    requires
        count <= lists.len(),
        forall|c: int| 0 <= c < count ==> (#[trigger] lists[c]).len() == 0,
    ensures
        largest_magnitude(lists, count) == 0,
    decreases count,
{
    if count > 0 {
        lemma_largest_of_empty(lists, (count - 1) as nat);
    }
}

/// The problem line agrees with the body: it declares as many clauses as
/// the body has lines, no literal of the body exceeds the variable id it
/// declares, and unless the body holds no literal, that id is the magnitude
/// of one of them.
pub proof fn lemma_header_matches_body(hard: Seq<Clause>, soft: Seq<Clause>, weights: Seq<usize>)
    requires
        soft.len() == weights.len(),
    ensures
        line_breaks(body_text(hard, soft, weights)) == declared_count(hard, soft),
        forall|c: int, k: int|
            0 <= c < body_clauses(hard, soft).len() && 0 <= k < body_clauses(hard, soft)[c].len()
                ==> magnitude(#[trigger] body_clauses(hard, soft)[c][k]) <= declared_max(
                hard,
                soft,
            ),
        (exists|c: int|
            0 <= c < body_clauses(hard, soft).len() && (#[trigger] body_clauses(hard, soft)[c]).len()
                > 0) ==> exists|c: int, k: int|
            0 <= c < body_clauses(hard, soft).len() && 0 <= k < body_clauses(hard, soft)[c].len()
                && magnitude(#[trigger] body_clauses(hard, soft)[c][k]) == declared_max(hard, soft),
{
    let top = hard_weight(weights);
    lemma_hard_text_lines(hard, top, hard.len());
    lemma_soft_text_lines(soft, weights, soft.len());
    lemma_line_breaks_add(hard_text(hard, top, hard.len()), soft_text(soft, weights, soft.len()));
    let all = body_clauses(hard, soft);
    crate::sat_seg_var::lemma_largest_magnitude(all, all.len());
    if exists|c: int| 0 <= c < all.len() && (#[trigger] all[c]).len() > 0 {
        lemma_largest_is_attained(all, all.len());
    }
}

/// More weights weigh more.
pub proof fn lemma_total_weight_monotone(weights: Seq<usize>, a: nat, b: nat)
    requires
        a <= b,
    ensures
        total_weight(weights, a) <= total_weight(weights, b),
    decreases b,
{
    if a < b {
        lemma_total_weight_monotone(weights, a, (b - 1) as nat);
    }
}

/// The largest magnitude of two lists of clauses together is the larger of
/// their largest magnitudes.
pub proof fn lemma_largest_of_joined(a: Seq<Seq<i64>>, b: Seq<Seq<i64>>, count: nat)
    requires
        count <= b.len(),
    ensures
        largest_magnitude(a + b, a.len() + count) == if largest_magnitude(b, count)
            > largest_magnitude(a, a.len()) {
            largest_magnitude(b, count)
        } else {
            largest_magnitude(a, a.len())
        },
    decreases count,
{
    if count == 0 {
        lemma_largest_prefix(a + b, a, a.len());
    } else {
        lemma_largest_of_joined(a, b, (count - 1) as nat);
        assert((a + b)[a.len() + count - 1] == b[count - 1]);
    }
}

/// The largest magnitude of the first lists depends on those lists only.
proof fn lemma_largest_prefix(long: Seq<Seq<i64>>, short: Seq<Seq<i64>>, count: nat)
    requires
        count <= short.len(),
        short.len() <= long.len(),
        forall|c: int| 0 <= c < short.len() ==> long[c] == short[c],
    ensures
        largest_magnitude(long, count) == largest_magnitude(short, count),
    decreases count,
{
    if count > 0 {
        lemma_largest_prefix(long, short, (count - 1) as nat);
    }
}

/// The comment line that records the order of the variables: `c`, the ids
/// each followed by a blank, and a line break.
pub fn first_line(vec: Vec<usize>) -> (line: String)
    ensures
        line@ == comment_text(vec@),
{
    proof {
        reveal_strlit("c ");
    }
    let mut line = String::new();
    line.append("c ");
    assert(line@ =~= seq!['c', ' ']);
    let mut i: usize = 0;
    assert(line@ =~= seq!['c', ' '] + ids_text(vec@, 0));
    while i < vec.len()
        invariant
            i <= vec@.len(),
            line@ == seq!['c', ' '] + ids_text(vec@, i as nat),
        decreases vec@.len() - i,
    {
        proof {
            reveal_strlit(" ");
        }
        append_decimal(&mut line, vec[i] as u128);
        line.append(" ");
        assert(line@ =~= seq!['c', ' '] + ids_text(vec@, (i + 1) as nat));
        i = i + 1;
    }
    proof {
        reveal_strlit("\n");
    }
    line.append("\n");
    line
}

/// The largest magnitude among the literals of the clauses.
pub fn largest_of(clauses: &Vec<Clause>) -> (largest: u64)
    ensures
        largest == largest_magnitude(literal_lists(clauses@), clauses@.len()),
{
    let mut largest: u64 = 0;
    let mut c: usize = 0;
    while c < clauses.len()
        invariant
            c <= clauses@.len(),
            largest == largest_magnitude(literal_lists(clauses@), c as nat),
        decreases clauses@.len() - c,
    {
        let inner = largest_in_row(&clauses[c].arguments);
        assert(literal_lists(clauses@)[c as int] == clauses@[c as int].arguments@);
        if inner > largest {
            largest = inner;
        }
        c = c + 1;
    }
    largest
}

/// The document of the given clauses: the comment line with the order of
/// the variables; the problem line with the number of clauses, the largest
/// variable id among them and the weight of a hard clause, which is one more
/// than the sum of the soft weights; the hard clauses; the soft clauses, the
/// last of them first.
pub fn write_wcnf(order: Vec<usize>, hard: Vec<Clause>, soft: Vec<Clause>, weights: Vec<usize>) -> (outcome:
    Result<String, DocumentError>)
    requires
        soft@.len() == weights@.len(),
    ensures
        match outcome {
            Ok(text) => {
                &&& hard_weight(weights@) <= usize::MAX
                &&& text@ == document_text(order@, hard@, soft@, weights@)
            },
            Err(DocumentError::WeightOutOfRange) => hard_weight(weights@) > usize::MAX,
        },
{
    let mut total: usize = 0;
    let mut i: usize = 0;
    while i < weights.len()
        invariant
            i <= weights@.len(),
            total == total_weight(weights@, i as nat),
        decreases weights@.len() - i,
    {
        proof {
            lemma_total_weight_monotone(weights@, (i + 1) as nat, weights@.len());
        }
        if weights[i] > usize::MAX - total {
            return Err(DocumentError::WeightOutOfRange);
        }
        total = total + weights[i];
        i = i + 1;
    }
    if total == usize::MAX {
        return Err(DocumentError::WeightOutOfRange);
    }
    let top = total + 1;
    let count: u128 = hard.len() as u128 + soft.len() as u128;
    let of_hard = largest_of(&hard);
    let of_soft = largest_of(&soft);
    let number_var = if of_soft > of_hard {
        of_soft
    } else {
        of_hard
    };
    proof {
        lemma_largest_of_joined(literal_lists(hard@), literal_lists(soft@), soft@.len());
        assert(number_var == declared_max(hard@, soft@));
        reveal_strlit("p wcnf ");
        reveal_strlit(" ");
        reveal_strlit("\n");
    }
    let ghost hard_clauses = hard@;
    let ghost soft_clauses = soft@;
    let mut text = first_line(order);
    let ghost comment = text@;
    text.append("p wcnf ");
    append_decimal(&mut text, count);
    text.append(" ");
    append_decimal(&mut text, number_var as u128);
    text.append(" ");
    append_decimal(&mut text, top as u128);
    text.append("\n");
    assert(text@ =~= comment + header_text(count as nat, number_var as nat, top as nat));
    let hard_lines = Clause::write_list_to_string_hard(hard, top);
    text.append(hard_lines.as_str());
    let soft_lines = Clause::write_list_to_string_soft(soft, weights);
    text.append(soft_lines.as_str());
    assert(text@ =~= document_text(order@, hard_clauses, soft_clauses, weights@));
    Ok(text)
}

} // verus!
