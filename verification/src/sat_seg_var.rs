//! Propositional variables of the encoding, clauses over them, and the
//! rendering of clauses on the weighted-CNF wire.

use crate::id_generator::IdGenerator;
use crate::segment::{negative, positive};
use crate::text::{append_decimal, append_signed, decimal, signed};
use crate::wcnf::lemma_largest_of_joined;
use itertools::Itertools;
use pyo3::types::PyModule;
use pyo3::{Py, PyAny, PyErr, Python};
use std::fmt::Write;
use vstd::prelude::*;
use vstd::string::*;

verus! {

/// The proposition "the segment starts at time `time`".
#[derive(Debug, Clone, Copy, PartialEq, Eq, Structural)]
pub struct SATSVar {
    pub id: usize,
    pub segment_id: usize,
    pub segment_duration: usize,
    pub time: usize,
    pub weight: bool,
}

/// The proposition "the segment occupies its resources at instant `time_at`".
#[derive(Debug, Clone, PartialEq, Eq)]
pub struct SATUVar {
    pub id: usize,
    pub segment_id: usize,
    pub time_at: usize,
    pub resource_usage: Vec<usize>,
}

/// A disjunction of literals: the sign of an entry is its polarity, the
/// magnitude the id of its variable.
#[derive(Debug, Clone, PartialEq, Eq)]
pub struct Clause {
    pub arguments: Vec<i64>,
}

impl View for Clause {
    type V = Seq<i64>;

    open spec fn view(&self) -> Seq<i64> {
        self.arguments@
    }
}

/// The literal lists of a list of clauses.
pub open spec fn literal_lists(clauses: Seq<Clause>) -> Seq<Seq<i64>> {
    Seq::new(clauses.len(), |i: int| clauses[i]@)
}

/// A copy of a list of integers.
pub fn duplicate(values: &Vec<usize>) -> (copy: Vec<usize>)
    ensures
        copy@ == values@,
{
    let mut copy: Vec<usize> = Vec::new();
    let mut i: usize = 0;
    while i < values.len()
        invariant
            i <= values.len(),
            copy@ == values@.take(i as int),
        decreases values.len() - i,
    {
        copy.push(values[i]);
        assert(values@.take(i + 1) =~= values@.take(i as int).push(values@[i as int]));
        i = i + 1;
    }
    assert(values@.take(values.len() as int) =~= values@);
    copy
}

impl SATSVar {
    /// A start variable with a fresh id.
    pub fn new(
        segment_id: usize,
        segment_duration: usize,
        time: usize,
        id_gen: &mut IdGenerator,
        resource_usage: Vec<usize>,
        weight: bool,
    ) -> (var: Self)
        requires
            old(id_gen).0 < usize::MAX,
        ensures
            var == (SATSVar { id: old(id_gen).0, segment_id, segment_duration, time, weight }),
            final(id_gen).0 == old(id_gen).0 + 1,
    {
        let id = id_gen.next_id();
        SATSVar { id, segment_id, segment_duration, time, weight }
    }

    /// The active variables of a segment that starts at `time`: one per
    /// instant of its duration, and a single one for a segment without
    /// duration. Their ids are fresh and consecutive.
    pub fn generate_u_vars(
        segment_id: usize,
        segment_duration: usize,
        time: usize,
        id_gen: &mut IdGenerator,
        resource_usage: Vec<usize>,
    ) -> (u_vars: Vec<SATUVar>)
        requires
            time + segment_duration <= usize::MAX,
            old(id_gen).0 + segment_duration < usize::MAX,
        ensures
            u_vars.len() == if segment_duration == 0 {
                1
            } else {
                segment_duration as int
            },
            final(id_gen).0 == old(id_gen).0 + u_vars.len(),
            forall|k: int|
                0 <= k < u_vars.len() ==> {
                    &&& (#[trigger] u_vars[k]).id == old(id_gen).0 + k
                    &&& u_vars[k].segment_id == segment_id
                    &&& u_vars[k].time_at == time + k
                    &&& u_vars[k].resource_usage@ == resource_usage@
                },
    {
        let mut u_vars: Vec<SATUVar> = Vec::new();
        if segment_duration == 0 {
            let u_var = SATUVar::new(id_gen.next_id(), segment_id, time, resource_usage);
            u_vars.push(u_var);
        } else {
            let mut l: usize = 0;
            while l < segment_duration
                invariant
                    time + segment_duration <= usize::MAX,
                    old(id_gen).0 + segment_duration < usize::MAX,
                    l <= segment_duration,
                    u_vars.len() == l,
                    id_gen.0 == old(id_gen).0 + l,
                    forall|k: int|
                        0 <= k < l ==> {
                            &&& (#[trigger] u_vars[k]).id == old(id_gen).0 + k
                            &&& u_vars[k].segment_id == segment_id
                            &&& u_vars[k].time_at == time + k
                            &&& u_vars[k].resource_usage@ == resource_usage@
                        },
                decreases segment_duration - l,
            {
                let resource = duplicate(&resource_usage);
                let u_var = SATUVar::new(id_gen.next_id(), segment_id, time + l, resource);
                u_vars.push(u_var);
                l = l + 1;
            }
        }
        u_vars
    }

    /// The id of the variable.
    pub fn id(&self) -> (id: usize)
        ensures
            id == self.id,
    {
        self.id
    }

    /// The time at which the segment starts if the variable holds.
    pub fn time(&self) -> (time: usize)
        ensures
            time == self.time,
    {
        self.time
    }

    /// Whether the segment carries a setup.
    pub fn weight(&self) -> (weight: bool)
        ensures
            weight == self.weight,
    {
        self.weight
    }

    /// The span of the segment.
    pub fn segment_duration(&self) -> (duration: usize)
        ensures
            duration == self.segment_duration,
    {
        self.segment_duration
    }

    /// The id, open to change; nothing else of the variable changes with it.
    pub fn id_mut(&mut self) -> (id: &mut usize)
        ensures
            *id == old(self).id,
            *final(self) == (SATSVar { id: *final(id), ..*old(self) }),
    {
        &mut self.id
    }

    /// One unit clause per variable, in the order of the variables.
    pub fn last_to_clause(vars: &Vec<SATSVar>) -> (clauses: Vec<Clause>)
        requires
            forall|k: int| 0 <= k < vars.len() ==> (#[trigger] vars[k]).id <= i64::MAX,
        ensures
            clauses.len() == vars.len(),
            forall|k: int|
                0 <= k < vars.len() ==> (#[trigger] clauses[k])@ == seq![vars[k].id as i64],
    {
        let mut clauses: Vec<Clause> = Vec::new();
        let mut k: usize = 0;
        while k < vars.len()
            invariant
                k <= vars.len(),
                clauses.len() == k,
                forall|c: int| 0 <= c < vars.len() ==> (#[trigger] vars[c]).id <= i64::MAX,
                forall|c: int| 0 <= c < k ==> (#[trigger] clauses[c])@ == seq![vars[c].id as i64],
            decreases vars.len() - k,
        {
            clauses.push(vars[k].to_clause());
            k = k + 1;
        }
        clauses
    }

    /// One clause per active variable: if this start holds, the segment is
    /// active at that variable's instant.
    pub fn generate_consistency_clause(&self, u_vars: &Vec<SATUVar>) -> (clauses: Vec<Clause>)
        requires
            self.id <= i64::MAX,
            forall|k: int| 0 <= k < u_vars@.len() ==> (#[trigger] u_vars@[k]).id <= i64::MAX,
        ensures
            clauses@.len() == u_vars@.len(),
            forall|k: int|
                0 <= k < u_vars@.len() ==> (#[trigger] clauses@[k])@ == seq![
                    negative(self.id),
                    positive(u_vars@[k].id),
                ],
    {
        let mut clauses: Vec<Clause> = Vec::new();
        let mut k: usize = 0;
        while k < u_vars.len()
            invariant
                k <= u_vars@.len(),
                self.id <= i64::MAX,
                forall|c: int| 0 <= c < u_vars@.len() ==> (#[trigger] u_vars@[c]).id <= i64::MAX,
                clauses@.len() == k,
                forall|c: int|
                    0 <= c < k ==> (#[trigger] clauses@[c])@ == seq![
                        negative(self.id),
                        positive(u_vars@[c].id),
                    ],
            decreases u_vars@.len() - k,
        {
            let mut pair: Vec<i64> = Vec::new();
            pair.push(-(self.id as i64));
            pair.push(u_vars[k].id as i64);
            assert(pair@ =~= seq![negative(self.id), positive(u_vars@[k as int].id)]);
            clauses.push(Clause::new(pair));
            k = k + 1;
        }
        clauses
    }

    /// The unit clause that asserts this variable.
    pub fn to_clause(&self) -> (clause: Clause)
        requires
            self.id <= i64::MAX,
        ensures
            clause@ == seq![self.id as i64],
    {
        let mut arguments: Vec<i64> = Vec::new();
        arguments.push(self.id as i64);
        assert(arguments@ =~= seq![self.id as i64]);
        Clause::new(arguments)
    }
}

/// `groups` splits the positions of `vars` by instant: no group is empty,
/// every group lists positions of `vars` in rising order, all of one
/// instant; no two groups share an instant; and every position is listed.
pub open spec fn is_grouping(vars: Seq<SATUVar>, groups: Seq<Vec<usize>>) -> bool {
    &&& forall|g: int| 0 <= g < groups.len() ==> (#[trigger] groups[g])@.len() > 0
    &&& forall|g: int, k: int|
        0 <= g < groups.len() && 0 <= k < groups[g]@.len() ==> (#[trigger] groups[g]@[k])
            < vars.len()
    &&& forall|g: int, a: int, b: int|
        0 <= g < groups.len() && 0 <= a < b < groups[g]@.len() ==> (#[trigger] groups[g]@[a])
            < (#[trigger] groups[g]@[b])
    &&& forall|g: int, k: int|
        0 <= g < groups.len() && 0 <= k < groups[g]@.len() ==> vars[(
        #[trigger] groups[g]@[k]) as int].time_at == vars[groups[g]@[0] as int].time_at
    &&& forall|g: int, h: int|
        0 <= g < groups.len() && 0 <= h < groups.len() && g != h ==> vars[(
        #[trigger] groups[g])@[0] as int].time_at != vars[(#[trigger] groups[h])@[0] as int].time_at
    &&& forall|i: int| 0 <= i < vars.len() ==> #[trigger] grouped(groups, i)
}

/// Some group lists the position `i`.
pub open spec fn grouped(groups: Seq<Vec<usize>>, i: int) -> bool {
    exists|g: int, k: int|
        0 <= g < groups.len() && 0 <= k < groups[g]@.len() && #[trigger] groups[g]@[k] == i
}

/// Calls `Itertools::into_group_map_by` on the positions of `vars`, keyed by
/// the instant of the variable at each position, and collects the values of
/// the map it returns. The map holds one list per key, filled in the order
/// in which the positions are walked, which is what the contract states; the
/// order in which the map hands out its lists is left open.
#[verifier::external_body]
fn group_by_time(vars: &Vec<SATUVar>) -> (groups: Vec<Vec<usize>>)
    ensures
        is_grouping(vars@, groups@),
{
    (0..vars.len()).into_group_map_by(|i| vars[*i].time_at).into_values().collect()
}

impl SATUVar {
    /// An active variable with the given id.
    pub fn new(id: usize, segment_id: usize, time_at: usize, resource_usage: Vec<usize>) -> (var:
        Self)
        ensures
            var == (SATUVar { id, segment_id, time_at, resource_usage }),
    {
        SATUVar { id, segment_id, time_at, resource_usage }
    }

    /// The variables split by instant: each group lists the positions in
    /// `vars` of the variables of one instant, in their order. The order of
    /// the groups is not determined.
    pub fn linear_sum_split(vars: &Vec<SATUVar>) -> (groups: Vec<Vec<usize>>)
        ensures
            is_grouping(vars@, groups@),
    {
        group_by_time(vars)
    }

    /// The instant at which the segment is active if the variable holds.
    pub fn time_at(&self) -> (time: usize)
        ensures
            time == self.time_at,
    {
        self.time_at
    }

    /// The id of the variable.
    pub fn id(&self) -> (id: usize)
        ensures
            id == self.id,
    {
        self.id
    }

    /// The demand of the segment for every resource.
    pub fn resource_usage(&self) -> (usage: &Vec<usize>)
        ensures
            usage == self.resource_usage,
    {
        &self.resource_usage
    }
}

/// The magnitude of a literal: the id of its variable.
pub open spec fn magnitude(literal: i64) -> nat {
    if literal < 0 {
        (-literal) as nat
    } else {
        literal as nat
    }
}

/// The literals of a clause on the wire: each numeral followed by a blank.
pub open spec fn literals_text(literals: Seq<i64>) -> Seq<char>
    decreases literals.len(),
{
    if literals.len() == 0 {
        Seq::empty()
    } else {
        literals_text(literals.drop_last()) + signed(literals.last() as int) + seq![' ']
    }
}

/// A clause on the wire: its weight, its literals, and the closing zero.
pub open spec fn clause_text(weight: nat, literals: Seq<i64>) -> Seq<char> {
    decimal(weight) + seq![' '] + literals_text(literals) + seq!['0']
}

/// The lines of the first `count` clauses, all with the weight `top`.
pub open spec fn hard_text(clauses: Seq<Clause>, top: nat, count: nat) -> Seq<char>
    decreases count,
{
    if count == 0 {
        Seq::empty()
    } else {
        hard_text(clauses, top, (count - 1) as nat) + clause_text(top, clauses[count - 1]@) + seq![
            '\n',
        ]
    }
}

/// The lines of the first `count` clauses, each with its own weight, the last
/// of them first.
pub open spec fn soft_text(clauses: Seq<Clause>, weights: Seq<usize>, count: nat) -> Seq<char>
    decreases count,
{
    if count == 0 {
        Seq::empty()
    } else {
        clause_text(weights[count - 1] as nat, clauses[count - 1]@) + seq!['\n'] + soft_text(
            clauses,
            weights,
            (count - 1) as nat,
        )
    }
}

/// The problem line of a document.
pub open spec fn header_text(clauses_amount: nat, number_var: nat, top: nat) -> Seq<char> {
    seq!['p', ' ', 'w', 'c', 'n', 'f', ' '] + decimal(clauses_amount) + seq![' '] + decimal(
        number_var,
    ) + seq![' '] + decimal(top) + seq!['\n']
}

impl Clause {
    /// The clause of the given literals.
    pub fn new(arguments: Vec<i64>) -> (clause: Self)
        ensures
            clause.arguments == arguments,
    {
        Clause { arguments }
    }

    /// A copy of this clause.
    pub fn duplicate(&self) -> (copy: Self)
        ensures
            copy@ == self@,
    {
        let mut arguments: Vec<i64> = Vec::new();
        let mut i: usize = 0;
        while i < self.arguments.len()
            invariant
                i <= self.arguments.len(),
                arguments@ == self.arguments@.take(i as int),
            decreases self.arguments.len() - i,
        {
            arguments.push(self.arguments[i]);
            assert(self.arguments@.take(i + 1) =~= self.arguments@.take(i as int).push(
                self.arguments@[i as int],
            ));
            i = i + 1;
        }
        assert(self.arguments@.take(self.arguments.len() as int) =~= self.arguments@);
        Clause { arguments }
    }

    /// Moves the clauses of `vec_2` behind those of `vec_1` and returns a copy
    /// of the joined list.
    pub fn append_clauses(vec_1: &mut Vec<Clause>, vec_2: &mut Vec<Clause>) -> (joined: Vec<
        Clause,
    >)
        ensures
            final(vec_1)@ == old(vec_1)@ + old(vec_2)@,
            final(vec_2)@.len() == 0,
            literal_lists(joined@) == literal_lists(final(vec_1)@),
    {
        vec_1.append(vec_2);
        let mut joined: Vec<Clause> = Vec::new();
        let mut i: usize = 0;
        while i < vec_1.len()
            invariant
                i <= vec_1.len(),
                joined.len() == i,
                forall|k: int| 0 <= k < i ==> (#[trigger] joined[k])@ == vec_1[k]@,
            decreases vec_1.len() - i,
        {
            joined.push(vec_1[i].duplicate());
            i = i + 1;
        }
        assert(literal_lists(joined@) =~= literal_lists(vec_1@));
        joined
    }

    /// Appends the wire form of this clause, without a line break.
    fn append_text(&self, line: &mut String, weight: usize)
        ensures
            final(line)@ == old(line)@ + clause_text(weight as nat, self@),
    {
        proof {
            reveal_strlit(" ");
            reveal_strlit("0");
        }
        let ghost before = line@;
        append_decimal(line, weight as u128);
        line.append(" ");
        let ghost head = line@;
        let mut i: usize = 0;
        while i < self.arguments.len()
            invariant
                i <= self.arguments.len(),
                line@ == head + literals_text(self.arguments@.take(i as int)),
            decreases self.arguments.len() - i,
        {
            append_signed(line, self.arguments[i]);
            line.append(" ");
            proof {
                reveal_strlit(" ");
                let next = self.arguments@.take(i + 1);
                assert(next.drop_last() =~= self.arguments@.take(i as int));
                assert(next.last() == self.arguments@[i as int]);
                assert(line@ =~= head + literals_text(next));
            }
            i = i + 1;
        }
        assert(self.arguments@.take(self.arguments.len() as int) =~= self.arguments@);
        line.append("0");
        assert(line@ =~= before + clause_text(weight as nat, self@));
    }

    /// The wire form of this clause as a hard clause of weight `top`.
    pub fn wite_to_string_hard(&self, top: usize) -> (line: String)
        ensures
            line@ == clause_text(top as nat, self@),
    {
        let mut line = String::new();
        self.append_text(&mut line, top);
        assert(line@ =~= clause_text(top as nat, self@));
        line
    }

    /// The wire form of this clause as a soft clause of the given weight.
    pub fn write_to_string_soft(&self, weight: usize) -> (line: String)
        ensures
            line@ == clause_text(weight as nat, self@),
    {
        let mut line = String::new();
        self.append_text(&mut line, weight);
        assert(line@ =~= clause_text(weight as nat, self@));
        line
    }

    /// One line per clause, in order, each with the weight `top`.
    pub fn write_list_to_string_hard(clauses: Vec<Clause>, top: usize) -> (lines: String)
        ensures
            lines@ == hard_text(clauses@, top as nat, clauses.len() as nat),
    {
        proof {
            reveal_strlit("\n");
        }
        let mut lines = String::new();
        let mut i: usize = 0;
        while i < clauses.len()
            invariant
                i <= clauses.len(),
                lines@ == hard_text(clauses@, top as nat, i as nat),
            decreases clauses.len() - i,
        {
            clauses[i].append_text(&mut lines, top);
            proof {
                reveal_strlit("\n");
            }
            lines.append("\n");
            assert(lines@ =~= hard_text(clauses@, top as nat, (i + 1) as nat));
            i = i + 1;
        }
        lines
    }

    /// One line per pair of a clause and its weight, the last pair first.
    /// Clauses or weights beyond the shorter list are left out.
    pub fn write_list_to_string_soft(clauses: Vec<Clause>, weights: Vec<usize>) -> (lines: String)
        ensures
            lines@ == soft_text(
                clauses@,
                weights@,
                if clauses.len() <= weights.len() {
                    clauses.len() as nat
                } else {
                    weights.len() as nat
                },
            ),
    {
        proof {
            reveal_strlit("\n");
        }
        let count = if clauses.len() <= weights.len() {
            clauses.len()
        } else {
            weights.len()
        };
        let mut lines = String::new();
        let mut i: usize = count;
        while i > 0
            invariant
                i <= count,
                count <= clauses.len(),
                count <= weights.len(),
                lines@ + soft_text(clauses@, weights@, i as nat) == soft_text(
                    clauses@,
                    weights@,
                    count as nat,
                ),
            decreases i,
        {
            let ghost so_far = lines@;
            i = i - 1;
            clauses[i].append_text(&mut lines, weights[i]);
            proof {
                reveal_strlit("\n");
            }
            lines.append("\n");
            assert(lines@ + soft_text(clauses@, weights@, i as nat) =~= so_far + soft_text(
                clauses@,
                weights@,
                (i + 1) as nat,
            ));
        }
        assert(lines@ + soft_text(clauses@, weights@, 0) =~= lines@);
        lines
    }

    /// The problem line: the number of clauses, the largest variable id and
    /// the weight that marks a clause as hard.
    pub fn write_first_line(clauses_amount: usize, number_var: usize, top: usize) -> (line: String)
        ensures
            line@ == header_text(clauses_amount as nat, number_var as nat, top as nat),
    {
        proof {
            reveal_strlit("p wcnf ");
            reveal_strlit(" ");
            reveal_strlit("\n");
        }
        let mut line = String::new();
        line.append("p wcnf ");
        assert(line@ =~= seq!['p', ' ', 'w', 'c', 'n', 'f', ' ']);
        append_decimal(&mut line, clauses_amount as u128);
        line.append(" ");
        append_decimal(&mut line, number_var as u128);
        line.append(" ");
        append_decimal(&mut line, top as u128);
        line.append("\n");
        assert(line@ =~= header_text(clauses_amount as nat, number_var as nat, top as nat));
        line
    }

    /// One clause per list of literals, in order.
    pub fn integer_vec_to_clause(list: Vec<Vec<i64>>) -> (output: Vec<Clause>)
        ensures
            output.len() == list.len(),
            forall|k: int| 0 <= k < list.len() ==> (#[trigger] output[k])@ == list[k]@,
    {
        let mut output: Vec<Clause> = Vec::new();
        let mut i: usize = 0;
        while i < list.len()
            invariant
                i <= list.len(),
                output.len() == i,
                forall|k: int| 0 <= k < i ==> (#[trigger] output[k])@ == list[k]@,
            decreases list.len() - i,
        {
            output.push(Clause { arguments: list[i].clone() });
            i = i + 1;
        }
        output
    }
}

/// The error type of the Python bridge.
#[verifier::external_type_specification]
#[verifier::external_body]
pub struct ExPyErr(PyErr);

/// Why the cardinality constraints could not be had.
#[derive(Debug, Clone, PartialEq, Eq)]
pub enum OracleError {
    /// The encoder did not return clauses; the message is its own.
    Failed { message: String },
    /// The encoder returned a literal whose successor is no id of a variable.
    IdOutOfRange,
}

/// Asks the pseudo-Boolean encoder of the embedded Python interpreter for
/// the clauses of "the weighted sum of the literals is at most the bound",
/// through `Python::with_gil`, `PyModule::from_code`, `getattr`, `call1` and
/// `extract`, and returns what it returned. The result depends on the
/// interpreter and the packages installed with it, so nothing is claimed
/// of it.
#[verifier::external_body]
fn call_encoder(lit: Vec<usize>, weight: Vec<usize>, total: usize, highest_id_yet: usize) -> Result<
    Vec<Vec<i64>>,
    PyErr,
> {
    Python::with_gil(
        |py|
            {
                let fun: Py<PyAny> = PyModule::from_code(
                    py,
                    "
def function(lits, weights, bound, top_id):
    import pysat.pb
    cnf = pysat.pb.PBEnc.atmost(lits=lits, weights=weights, bound=bound, top_id=top_id)
    return cnf.clauses",
                    "",
                    "",
                )?.getattr("function")?.into();
                fun.call1(py, (lit, weight, total, highest_id_yet))?.extract(py)
            },
    )
}

/// Writes an interpreter error into a text through `PyErr`'s `Display`.
/// Where the rendering gives up, the text holds what was written until
/// then; nothing is claimed of the text.
#[verifier::external_body]
fn describe(error: &PyErr) -> String {
    let mut text = String::new();
    let _ = write!(text, "{}", error);
    text
}

/// The largest id that can be written as a literal and counted on this
/// machine.
pub open spec fn literal_limit() -> int {
    if usize::MAX < i64::MAX {
        usize::MAX as int
    } else {
        i64::MAX as int
    }
}

/// The largest magnitude among the literals, zero when there is none.
pub open spec fn largest_in(literals: Seq<i64>) -> nat
    decreases literals.len(),
{
    if literals.len() == 0 {
        0
    } else {
        let rest = largest_in(literals.drop_last());
        if magnitude(literals.last()) > rest {
            magnitude(literals.last())
        } else {
            rest
        }
    }
}

/// The largest magnitude among the literals of the first `count` lists.
pub open spec fn largest_magnitude(lists: Seq<Seq<i64>>, count: nat) -> nat
    decreases count,
{
    if count == 0 {
        0
    } else {
        let rest = largest_magnitude(lists, (count - 1) as nat);
        if largest_in(lists[count - 1]) > rest {
            largest_in(lists[count - 1])
        } else {
            rest
        }
    }
}

/// The lists of literals held by a list of vectors.
pub open spec fn lists_of(list: Seq<Vec<i64>>) -> Seq<Seq<i64>> {
    Seq::new(list.len(), |i: int| list[i]@)
}

/// Every literal of every clause has a magnitude below `bound`.
pub open spec fn all_below(clauses: Seq<Seq<i64>>, bound: int) -> bool {
    forall|c: int, k: int|
        0 <= c < clauses.len() && 0 <= k < clauses[c].len() ==> magnitude(
            #[trigger] clauses[c][k],
        ) < bound
}

/// No literal exceeds the largest, and unless there is no literal the
/// largest is the magnitude of one of them.
pub proof fn lemma_largest_in(literals: Seq<i64>)
    ensures
        forall|k: int| 0 <= k < literals.len() ==> magnitude(#[trigger] literals[k]) <= largest_in(
            literals,
        ),
        literals.len() > 0 ==> exists|k: int|
            0 <= k < literals.len() && magnitude(#[trigger] literals[k]) == largest_in(literals),
    decreases literals.len(),
{
    if literals.len() > 0 {
        let rest = literals.drop_last();
        lemma_largest_in(rest);
        assert forall|k: int| 0 <= k < literals.len() implies magnitude(#[trigger] literals[k])
            <= largest_in(literals) by {
            if k < rest.len() {
                assert(rest[k] == literals[k]);
            }
        }
        if magnitude(literals.last()) > largest_in(rest) || rest.len() == 0 {
            assert(magnitude(literals[literals.len() - 1]) == largest_in(literals));
        } else {
            let k = choose|k: int| 0 <= k < rest.len() && magnitude(#[trigger] rest[k]) == largest_in(rest);
            assert(rest[k] == literals[k]);
            assert(magnitude(literals[k]) == largest_in(literals));
        }
    }
}

/// No literal of the first `count` lists exceeds their largest magnitude.
pub proof fn lemma_largest_magnitude(lists: Seq<Seq<i64>>, count: nat)
    requires
        count <= lists.len(),
    ensures
        forall|c: int, k: int|
            0 <= c < count && 0 <= k < lists[c].len() ==> magnitude(#[trigger] lists[c][k])
                <= largest_magnitude(lists, count),
    decreases count,
{
    if count > 0 {
        lemma_largest_magnitude(lists, (count - 1) as nat);
        lemma_largest_in(lists[count - 1]);
    }
}

/// The magnitude of a literal.
pub fn literal_magnitude(literal: i64) -> (m: u64)
    ensures
        m == magnitude(literal),
{
    if literal < 0 {
        (-(literal + 1)) as u64 + 1
    } else {
        literal as u64
    }
}

/// The largest magnitude among the literals of one list, zero when it holds
/// none.
pub fn largest_in_row(row: &Vec<i64>) -> (largest: u64)
    ensures
        largest == largest_in(row@),
{
    let mut largest: u64 = 0;
    let mut k: usize = 0;
    while k < row.len()
        invariant
            k <= row@.len(),
            largest == largest_in(row@.take(k as int)),
        decreases row@.len() - k,
    {
        let m = literal_magnitude(row[k]);
        proof {
            let next = row@.take(k + 1);
            assert(next.drop_last() =~= row@.take(k as int));
            assert(next.last() == row@[k as int]);
        }
        if m > largest {
            largest = m;
        }
        k = k + 1;
    }
    assert(row@.take(row@.len() as int) =~= row@);
    largest
}

/// The largest magnitude among the literals of the lists.
pub fn largest_literal(list: &Vec<Vec<i64>>) -> (largest: u64)
    ensures
        largest == largest_magnitude(lists_of(list@), list@.len()),
{
    let mut largest: u64 = 0;
    let mut c: usize = 0;
    while c < list.len()
        invariant
            c <= list@.len(),
            largest == largest_magnitude(lists_of(list@), c as nat),
        decreases list@.len() - c,
    {
        let inner = largest_in_row(&list[c]);
        assert(lists_of(list@)[c as int] == list@[c as int]@);
        if inner > largest {
            largest = inner;
        }
        c = c + 1;
    }
    largest
}

/// Where an issuer that stood at `floor` stands once it has been moved past
/// the id `largest`: behind `largest`, unless it stood there already.
pub open spec fn moved_past(floor: int, largest: int) -> int {
    if largest >= floor {
        largest + 1
    } else {
        floor
    }
}

/// The ids of the variables at the positions `group`, in their order: the
/// literals of one cardinality constraint.
pub open spec fn request_ids(u_vars: Seq<SATUVar>, group: Seq<usize>) -> Seq<usize> {
    Seq::new(group.len(), |k: int| u_vars[group[k] as int].id)
}

/// The demands for resource `index` of the variables at the positions
/// `group`, in their order: the weights of one cardinality constraint.
pub open spec fn request_weights(u_vars: Seq<SATUVar>, group: Seq<usize>, index: int) -> Seq<
    usize,
> {
    Seq::new(group.len(), |k: int| u_vars[group[k] as int].resource_usage@[index])
}

impl Clause {
    /// What the library makes of the encoder's outcome: clauses are handed
    /// on as they came, and a failure of the interpreter becomes
    /// [`OracleError::Failed`] with the interpreter's own message.
    pub fn answer_of(outcome: Result<Vec<Vec<i64>>, PyErr>) -> (answer: Result<
        Vec<Vec<i64>>,
        OracleError,
    >)
        ensures
            outcome matches Ok(clauses) ==> answer == Ok::<Vec<Vec<i64>>, OracleError>(clauses),
            outcome is Err ==> (answer matches Err(error) && error is Failed),
    {
        match outcome {
            Ok(clauses) => Ok(clauses),
            Err(error) => Err(OracleError::Failed { message: describe(&error) }),
        }
    }

    /// Asks the pseudo-Boolean encoder for the clauses of "the sum of the
    /// weights of the true literals among `lit` is at most `total`", where
    /// `highest_id_yet` is the largest variable id in use. What comes back is
    /// the encoder's answer, unexamined, or its failure, which is always
    /// reported as [`OracleError::Failed`].
    pub fn python_max(
        lit: Vec<usize>,
        weight: Vec<usize>,
        total: usize,
        highest_id_yet: usize,
    ) -> (answer: Result<Vec<Vec<i64>>, OracleError>)
        ensures
            answer matches Err(error) ==> error is Failed,
    {
        Clause::answer_of(call_encoder(lit, weight, total, highest_id_yet))
    }

    /// What the encoder is asked for one instant and one resource: as
    /// literals the ids of the active variables at the positions `group`, as
    /// weights their demands for resource `index`, as bound the capacity of
    /// that resource, and as the largest id in use the id that `issuer`
    /// handed out last.
    pub fn cardinality_request(
        u_vars: &Vec<SATUVar>,
        group: &Vec<usize>,
        index: usize,
        resources: &Vec<usize>,
        issuer: &IdGenerator,
    ) -> (request: (Vec<usize>, Vec<usize>, usize, usize))
        requires
            index < resources@.len(),
            issuer.0 >= 1,
            forall|k: int|
                0 <= k < group@.len() ==> (#[trigger] group@[k]) < u_vars@.len()
                    && u_vars@[group@[k] as int].resource_usage@.len() > index,
        ensures
            request.0@ == request_ids(u_vars@, group@),
            request.1@ == request_weights(u_vars@, group@, index as int),
            request.2 == resources@[index as int],
            request.3 == issuer.0 - 1,
    {
        let mut u_ids: Vec<usize> = Vec::new();
        let mut u_weights: Vec<usize> = Vec::new();
        let mut k: usize = 0;
        while k < group.len()
            invariant
                k <= group@.len(),
                forall|c: int|
                    0 <= c < group@.len() ==> (#[trigger] group@[c]) < u_vars@.len()
                        && u_vars@[group@[c] as int].resource_usage@.len() > index,
                u_ids@ == request_ids(u_vars@, group@).take(k as int),
                u_weights@ == request_weights(u_vars@, group@, index as int).take(k as int),
            decreases group@.len() - k,
        {
            assert(group@[k as int] < u_vars@.len());
            let var = &u_vars[group[k]];
            u_ids.push(var.id);
            u_weights.push(var.resource_usage[index]);
            assert(u_ids@ =~= request_ids(u_vars@, group@).take(k + 1));
            assert(u_weights@ =~= request_weights(u_vars@, group@, index as int).take(k + 1));
            k = k + 1;
        }
        assert(request_ids(u_vars@, group@).take(group@.len() as int) =~= request_ids(
            u_vars@,
            group@,
        ));
        assert(request_weights(u_vars@, group@, index as int).take(group@.len() as int)
            =~= request_weights(u_vars@, group@, index as int));
        (u_ids, u_weights, resources[index], issuer.current_asignment())
    }

    /// Takes the clauses that the encoder returned into `output` and moves
    /// the issuer of literal ids past the largest id among them, so that no
    /// id issued later meets one of the encoder's. The issuer never moves
    /// back. When the successor of that largest id is no id that a literal
    /// can carry, nothing changes and the failure is reported.
    pub fn reconcile(
        lits: Vec<Vec<i64>>,
        max_current: &mut IdGenerator,
        output: &mut Vec<Clause>,
    ) -> (outcome: Result<(), OracleError>)
        ensures
            outcome is Ok <==> largest_magnitude(lists_of(lits@), lits@.len()) < literal_limit(),
            outcome is Err ==> outcome == Err::<(), OracleError>(OracleError::IdOutOfRange)
                && *final(max_current) == *old(max_current) && *final(output) == *old(output),
            outcome is Ok ==> {
                &&& final(max_current).0 == moved_past(
                    old(max_current).0 as int,
                    largest_magnitude(lists_of(lits@), lits@.len()) as int,
                )
                &&& literal_lists(final(output)@) == literal_lists(old(output)@) + lists_of(lits@)
            },
    {
        let max_next = largest_literal(&lits);
        if max_next >= usize::MAX as u64 || max_next >= i64::MAX as u64 {
            return Err(OracleError::IdOutOfRange);
        }
        if max_next as usize >= max_current.0 {
            max_current.new_current(max_next as usize);
        }
        let mut gen_clauses = Clause::integer_vec_to_clause(lits);
        let ghost added = gen_clauses@;
        output.append(&mut gen_clauses);
        assert(literal_lists(output@) =~= literal_lists(old(output)@) + lists_of(lits@)) by {
            assert forall|i: int| 0 <= i < output@.len() implies literal_lists(output@)[i] == (
            literal_lists(old(output)@) + lists_of(lits@))[i] by {
                if i >= old(output)@.len() {
                    assert(output@[i] == added[i - old(output)@.len()]);
                }
            }
        }
        Ok(())
    }

    /// The cardinality clauses of every instant and every resource: for
    /// the active variables of one instant, weighted by their demand for
    /// the resource, the encoder is asked to hold the sum at or below the
    /// capacity. After every answer the issuer of literal ids is moved past
    /// the ids in it. The first failure ends the work.
    ///
    /// Whatever the encoder answers, the issuer never moves back, and on
    /// success it stands behind the largest id among the literals of the
    /// result, unless it stood there before, so that no literal of the
    /// result reaches the issuer's next id. Without variables or without
    /// resources the encoder is not asked and nothing changes.
    pub fn u_vec_accum(
        u_vars: &Vec<SATUVar>,
        max_current: &mut IdGenerator,
        resources: &Vec<usize>,
    ) -> (outcome: Result<Vec<Clause>, OracleError>)
        requires
            old(max_current).0 >= 1,
            forall|k: int|
                0 <= k < u_vars@.len() ==> (#[trigger] u_vars@[k]).resource_usage@.len()
                    >= resources@.len(),
        ensures
            final(max_current).0 >= old(max_current).0,
            outcome matches Ok(clauses) ==> all_below(
                literal_lists(clauses@),
                final(max_current).0 as int,
            ),
            outcome matches Ok(clauses) ==> final(max_current).0 == moved_past(
                old(max_current).0 as int,
                largest_magnitude(literal_lists(clauses@), clauses@.len()) as int,
            ),
            u_vars@.len() == 0 || resources@.len() == 0 ==> {
                &&& outcome matches Ok(clauses) && clauses@.len() == 0
                &&& final(max_current).0 == old(max_current).0
            },
    {
        let mut output: Vec<Clause> = Vec::new();
        let split_by_time = SATUVar::linear_sum_split(u_vars);
        proof {
            if u_vars@.len() == 0 && split_by_time@.len() > 0 {
                assert(split_by_time@[0]@.len() > 0);
                assert(split_by_time@[0]@[0] < u_vars@.len());
            }
        }
        let mut g: usize = 0;
        while g < split_by_time.len()
            invariant
                g <= split_by_time@.len(),
                is_grouping(u_vars@, split_by_time@),
                forall|k: int|
                    0 <= k < u_vars@.len() ==> (#[trigger] u_vars@[k]).resource_usage@.len()
                        >= resources@.len(),
                max_current.0 >= old(max_current).0,
                max_current.0 >= 1,
                old(max_current).0 >= 1,
                all_below(literal_lists(output@), max_current.0 as int),
                max_current.0 == moved_past(
                    old(max_current).0 as int,
                    largest_magnitude(literal_lists(output@), output@.len()) as int,
                ),
                g == 0 || resources@.len() == 0 ==> output@.len() == 0 && max_current.0 == old(
                    max_current,
                ).0,
            decreases split_by_time@.len() - g,
        {
            let u_time = &split_by_time[g];
            proof {
                assert(split_by_time@[g as int]@.len() > 0);
                assert(split_by_time@[g as int]@[0] < u_vars@.len());
            }
            let mut index: usize = 0;
            while index < resources.len()
                invariant
                    u_vars@.len() > 0,
                    g < split_by_time@.len(),
                    u_time == split_by_time@[g as int],
                    index <= resources@.len(),
                    is_grouping(u_vars@, split_by_time@),
                    forall|k: int|
                        0 <= k < u_vars@.len() ==> (#[trigger] u_vars@[k]).resource_usage@.len()
                            >= resources@.len(),
                    max_current.0 >= old(max_current).0,
                    max_current.0 >= 1,
                    all_below(literal_lists(output@), max_current.0 as int),
                    max_current.0 == moved_past(
                        old(max_current).0 as int,
                        largest_magnitude(literal_lists(output@), output@.len()) as int,
                    ),
                    old(max_current).0 >= 1,
                    resources@.len() == 0 ==> output@.len() == 0 && max_current.0 == old(
                        max_current,
                    ).0,
                decreases resources@.len() - index,
            {
                proof {
                    assert forall|k: int| 0 <= k < u_time@.len() implies (#[trigger] u_time@[k])
                        < u_vars@.len() && u_vars@[u_time@[k] as int].resource_usage@.len()
                        > index by {
                        assert(split_by_time@[g as int]@[k] < u_vars@.len());
                    }
                }
                let request = Clause::cardinality_request(
                    u_vars,
                    u_time,
                    index,
                    resources,
                    max_current,
                );
                let answer = Clause::python_max(request.0, request.1, request.2, request.3);
                match answer {
                    Err(error) => {
                        return Err(error);
                    },
                    Ok(lits) => {
                        let ghost before = literal_lists(output@);
                        let ghost floor = max_current.0;
                        let ghost answered = lists_of(lits@);
                        proof {
                            lemma_largest_magnitude(lists_of(lits@), lits@.len());
                            lemma_largest_of_joined(before, answered, answered.len());
                        }
                        match Clause::reconcile(lits, max_current, &mut output) {
                            Err(error) => {
                                return Err(error);
                            },
                            Ok(()) => {
                                assert(literal_lists(output@) == before + answered);
                                assert(literal_lists(output@).len() == output@.len());
                                assert(max_current.0 == moved_past(
                                    old(max_current).0 as int,
                                    largest_magnitude(literal_lists(output@), output@.len()) as int,
                                ));
                                assert(all_below(literal_lists(output@), max_current.0 as int)) by {
                                    let now = literal_lists(output@);
                                    assert forall|c: int, k: int|
                                        0 <= c < now.len() && 0 <= k < now[c].len() implies magnitude(
                                        #[trigger] now[c][k],
                                    ) < max_current.0 by {
                                        if c < before.len() {
                                            assert(now[c] == before[c]);
                                            assert(magnitude(before[c][k]) < floor);
                                        } else {
                                            assert(now[c] == lists_of(lits@)[c - before.len()]);
                                        }
                                    }
                                }
                            },
                        }
                    },
                }
                index = index + 1;
            }
            g = g + 1;
        }
        Ok(output)
    }
}

} // verus!
