//! Segments: the candidate sub-intervals of an activity, the unit of the
//! time-indexed encoding.
//!
//! Segments live in one list per instance and refer to each other by their
//! position in it, which is also their id.

use crate::id_generator::IdGenerator;
use crate::sat_seg_var::{duplicate, literal_lists, Clause, SATSVar, SATUVar};
use crate::text::{append_decimal, append_list, decimal, list_text};
use vstd::string::*;
use vstd::prelude::*;

verus! {

/// A candidate sub-interval of an activity: it begins at the relative offset
/// `start_jiff` and spans `og_duration` time units. `duration` is the span in
/// effect, which a setup cost may have lengthened.
#[derive(Debug, Clone, PartialEq, Eq)]
pub struct Segment {
    pub start_jiff: usize,
    pub duration: usize,
    /// The ids of the segments that must have finished before this one starts.
    pub precedence: Vec<usize>,
    pub id: usize,
    pub parent_project: usize,
    pub resource: Vec<usize>,
    pub variables: Vec<SATSVar>,
    pub uvariables: Vec<SATUVar>,
    pub early_start: usize,
    pub latest_start: usize,
    pub og_duration: usize,
    pub has_set_up: bool,
}

/// The positive literal of a variable.
pub open spec fn positive(id: usize) -> i64 {
    id as i64
}

/// The negative literal of a variable.
pub open spec fn negative(id: usize) -> i64 {
    (-(id as int)) as i64
}

/// Every id in `vars` can be written as a literal.
pub open spec fn start_ids_fit(vars: Seq<SATSVar>) -> bool {
    forall|k: int| 0 <= k < vars.len() ==> (#[trigger] vars[k]).id <= i64::MAX
}

/// Every id in `vars` can be written as a literal.
pub open spec fn active_ids_fit(vars: Seq<SATUVar>) -> bool {
    forall|k: int| 0 <= k < vars.len() ==> (#[trigger] vars[k]).id <= i64::MAX
}

/// The number of integers from `first` to `last`, both included.
pub open spec fn window_len(first: int, last: int) -> nat {
    if first <= last {
        (last + 1 - first) as nat
    } else {
        0
    }
}

/// The ids of the segments at the first `count` positions named by `picks`.
pub open spec fn ids_of(arena: Seq<Segment>, picks: Seq<usize>, count: nat) -> Seq<usize>
    decreases count,
{
    if count == 0 {
        Seq::empty()
    } else {
        ids_of(arena, picks, (count - 1) as nat).push(arena[picks[count - 1] as int].id)
    }
}

/// How often `target` occurs among the first `count` entries of `picks`.
pub open spec fn occurrences(picks: Seq<usize>, target: int, count: nat) -> nat
    decreases count,
{
    if count == 0 {
        0
    } else {
        occurrences(picks, target, (count - 1) as nat) + if picks[count - 1] == target {
            1nat
        } else {
            0nat
        }
    }
}

/// `base` followed by `times` copies of `addition`.
pub open spec fn extended(base: Seq<usize>, addition: Seq<usize>, times: nat) -> Seq<usize>
    decreases times,
{
    if times == 0 {
        base
    } else {
        extended(base, addition, (times - 1) as nat) + addition
    }
}

/// The literals that may justify a start at `t`: the ids of those among the
/// first `count` start variables of a predecessor of span `span` that start
/// early enough for it to have finished by `t`.
pub open spec fn supporters(vars: Seq<SATSVar>, span: int, t: int, count: nat) -> Seq<i64>
    decreases count,
{
    if count == 0 {
        Seq::empty()
    } else {
        let rest = supporters(vars, span, t, (count - 1) as nat);
        let v = vars[count - 1];
        if v.time + span <= t {
            rest.push(positive(v.id))
        } else {
            rest
        }
    }
}

/// The supporters of a start at `t` among the first `count` predecessors.
pub open spec fn all_supporters(arena: Seq<Segment>, preds: Seq<usize>, t: int, count: nat) -> Seq<
    i64,
>
    decreases count,
{
    if count == 0 {
        Seq::empty()
    } else {
        let pred = arena[preds[count - 1] as int];
        all_supporters(arena, preds, t, (count - 1) as nat) + supporters(
            pred.variables@,
            pred.duration as int,
            t,
            pred.variables@.len(),
        )
    }
}

/// The precedence clause of one start variable: not this start, or some
/// predecessor started early enough.
pub open spec fn precedence_clause(arena: Seq<Segment>, preds: Seq<usize>, var: SATSVar) -> Seq<
    i64,
> {
    seq![negative(var.id)] + all_supporters(arena, preds, var.time as int, preds.len())
}

/// The clauses that tie the start variable `s` to those among the first
/// `count` active variables whose instant lies within `span` of its time.
pub open spec fn consistency_row(s: SATSVar, uvars: Seq<SATUVar>, span: int, count: nat) -> Seq<
    Seq<i64>,
>
    decreases count,
{
    if count == 0 {
        Seq::empty()
    } else {
        let rest = consistency_row(s, uvars, span, (count - 1) as nat);
        let u = uvars[count - 1];
        if s.time <= u.time_at <= s.time + span {
            rest.push(seq![negative(s.id), positive(u.id)])
        } else {
            rest
        }
    }
}

/// The consistency clauses of the first `count` start variables.
pub open spec fn consistency_clauses(
    svars: Seq<SATSVar>,
    uvars: Seq<SATUVar>,
    span: int,
    count: nat,
) -> Seq<Seq<i64>>
    decreases count,
{
    if count == 0 {
        Seq::empty()
    } else {
        consistency_clauses(svars, uvars, span, (count - 1) as nat) + consistency_row(
            svars[count - 1],
            uvars,
            span,
            uvars.len(),
        )
    }
}

/// `after` is `before` with the variables of the window from `early_start` to
/// `latest_start` attached: one start variable per time of the window, with
/// consecutive ids from `first_id`, then one active variable per instant from
/// `early_start` to `latest_start` plus the span, with the ids that follow.
pub open spec fn window_attached(
    before: Segment,
    after: Segment,
    first_id: int,
    early_start: usize,
    latest_start: usize,
) -> bool {
    &&& after == (Segment {
        variables: after.variables,
        uvariables: after.uvariables,
        early_start,
        latest_start,
        ..before
    })
    &&& after.variables@ == Seq::new(
        window_len(early_start as int, latest_start as int),
        |k: int|
            SATSVar {
                id: (first_id + k) as usize,
                segment_id: before.id,
                segment_duration: before.duration,
                time: (early_start + k) as usize,
                weight: before.has_set_up,
            },
    )
    &&& after.uvariables@.len() == window_len(early_start as int, latest_start + before.duration)
    &&& forall|k: int|
        0 <= k < after.uvariables@.len() ==> {
            &&& (#[trigger] after.uvariables@[k]).id == first_id + after.variables@.len() + k
            &&& after.uvariables@[k].segment_id == before.id
            &&& after.uvariables@[k].time_at == early_start + k
            &&& after.uvariables@[k].resource_usage@ == before.resource@
        }
}

/// A segment as text: its id, its owner, its span in effect, its demands
/// and the ids of its predecessors.
pub open spec fn segment_text(s: Segment) -> Seq<char> {
    "Segment with ID: "@ + decimal(s.id as nat) + " \nParent ID: "@ + decimal(
        s.parent_project as nat,
    ) + "\nDuration: "@ + decimal(s.duration as nat) + "\n Resource: "@ + list_text(s.resource@)
        + "  \nPrecedents: "@ + list_text(s.precedence@) + "\n"@
}

impl Segment {
    /// The segment as text, for a reader.
    pub fn to_string(&self) -> (text: String)
        ensures
            text@ == segment_text(*self),
    {
        let mut text = String::new();
        text.append("Segment with ID: ");
        append_decimal(&mut text, self.id as u128);
        text.append(" \nParent ID: ");
        append_decimal(&mut text, self.parent_project as u128);
        text.append("\nDuration: ");
        append_decimal(&mut text, self.duration as u128);
        text.append("\n Resource: ");
        append_list(&mut text, &self.resource);
        text.append("  \nPrecedents: ");
        append_list(&mut text, &self.precedence);
        text.append("\n");
        assert(text@ =~= segment_text(*self));
        text
    }

    /// A segment without variables and without a window. It carries a setup
    /// when it is a first sub-interval of an activity that takes time.
    pub fn new(
        start_jiff: usize,
        duration: usize,
        precedence: Vec<usize>,
        id: usize,
        parent_project: usize,
        resource: Vec<usize>,
    ) -> (segment: Self)
        ensures
            segment.start_jiff == start_jiff,
            segment.duration == duration,
            segment.og_duration == duration,
            segment.precedence == precedence,
            segment.id == id,
            segment.parent_project == parent_project,
            segment.resource == resource,
            segment.variables@.len() == 0,
            segment.uvariables@.len() == 0,
            segment.early_start == 0,
            segment.latest_start == 0,
            segment.has_set_up == (start_jiff == 1 && duration > 0),
    {
        Segment {
            start_jiff,
            duration,
            precedence,
            id,
            parent_project,
            resource,
            variables: Vec::new(),
            uvariables: Vec::new(),
            early_start: 0,
            latest_start: 0,
            og_duration: duration,
            has_set_up: start_jiff == 1 && duration > 0,
        }
    }

    /// Records a segment of another activity as a predecessor.
    pub fn add_precedent(&mut self, precedent: &Segment)
        requires
            old(self).parent_project != precedent.parent_project,
        ensures
            final(self).precedence@ == old(self).precedence@.push(precedent.id),
            *final(self) == (Segment { precedence: final(self).precedence, ..*old(self) }),
    {
        self.precedence.push(precedent.id);
    }

    /// Records segments of other activities as predecessors, in their order.
    pub fn add_precedents(&mut self, precedents: &Vec<Segment>)
        requires
            forall|k: int|
                0 <= k < precedents.len() ==> (#[trigger] precedents[k]).parent_project != old(self).parent_project,
        ensures
            final(self).precedence@ == old(self).precedence@ + Seq::new(
                precedents.len() as nat,
                |k: int| precedents[k].id,
            ),
            *final(self) == (Segment { precedence: final(self).precedence, ..*old(self) }),
    {
        let mut k: usize = 0;
        while k < precedents.len()
            invariant
                k <= precedents.len(),
                forall|c: int|
                    0 <= c < precedents.len() ==> (#[trigger] precedents[c]).parent_project != old(self).parent_project,
                self.precedence@ == old(self).precedence@ + Seq::new(
                    k as nat,
                    |c: int| precedents[c].id,
                ),
                *self == (Segment { precedence: self.precedence, ..*old(self) }),
            decreases precedents.len() - k,
        {
            self.add_precedent(&precedents[k]);
            assert(self.precedence@ =~= old(self).precedence@ + Seq::new(
                (k + 1) as nat,
                |c: int| precedents[c].id,
            ));
            k = k + 1;
        }
    }

    /// Makes every segment named by `last` a predecessor of every segment
    /// named by `first`. A segment named several times in `first` receives
    /// the predecessors as often.
    pub fn precedence_link(arena: &mut Vec<Segment>, last: &Vec<usize>, first: &Vec<usize>)
        requires
            forall|k: int| 0 <= k < last.len() ==> (#[trigger] last[k]) < old(arena).len(),
            forall|k: int| 0 <= k < first.len() ==> (#[trigger] first[k]) < old(arena).len(),
            forall|f: int, l: int|
                0 <= f < first.len() && 0 <= l < last.len() ==> old(arena)[(#[trigger] first[f]) as int].parent_project
                    != old(arena)[(#[trigger] last[l]) as int].parent_project,
        ensures
            final(arena).len() == old(arena).len(),
            forall|s: int|
                0 <= s < old(arena).len() ==> {
                    &&& (#[trigger] final(arena)[s]).precedence@ == extended(
                        old(arena)[s].precedence@,
                        ids_of(old(arena)@, last@, last.len() as nat),
                        occurrences(first@, s, first.len() as nat),
                    )
                    &&& final(arena)[s] == (Segment {
                        precedence: final(arena)[s].precedence,
                        ..old(arena)[s]
                    })
                },
    {
        let ghost ids = ids_of(old(arena)@, last@, last.len() as nat);
        let mut f: usize = 0;
        while f < first.len()
            invariant
                f <= first.len(),
                arena.len() == old(arena).len(),
                ids == ids_of(old(arena)@, last@, last.len() as nat),
                forall|k: int| 0 <= k < last.len() ==> (#[trigger] last[k]) < old(arena).len(),
                forall|k: int| 0 <= k < first.len() ==> (#[trigger] first[k]) < old(arena).len(),
                forall|s: int|
                    0 <= s < old(arena).len() ==> {
                        &&& (#[trigger] arena[s]).precedence@ == extended(
                            old(arena)[s].precedence@,
                            ids,
                            occurrences(first@, s, f as nat),
                        )
                        &&& arena[s] == (Segment { precedence: arena[s].precedence, ..old(arena)[s] })
                    },
            decreases first.len() - f,
        {
            let target = first[f];
            let ghost before = arena@;
            let mut l: usize = 0;
            while l < last.len()
                invariant
                    l <= last.len(),
                    target < arena.len(),
                    arena.len() == old(arena).len(),
                    before.len() == arena.len(),
                    forall|k: int| 0 <= k < last.len() ==> (#[trigger] last[k]) < old(arena).len(),
                    forall|s: int|
                        0 <= s < old(arena).len() ==> (#[trigger] before[s]) == (Segment {
                            precedence: before[s].precedence,
                            ..old(arena)[s]
                        }),
                    forall|s: int|
                        0 <= s < arena.len() && s != target ==> (#[trigger] arena[s]) == before[s],
                    arena[target as int] == (Segment {
                        precedence: arena[target as int].precedence,
                        ..before[target as int]
                    }),
                    arena[target as int].precedence@ == before[target as int].precedence@ + ids_of(
                        old(arena)@,
                        last@,
                        l as nat,
                    ),
                decreases last.len() - l,
            {
                let id = arena[last[l]].id;
                arena[target].precedence.push(id);
                assert(arena[target as int].precedence@ =~= before[target as int].precedence@
                    + ids_of(old(arena)@, last@, (l + 1) as nat));
                l = l + 1;
            }
            f = f + 1;
        }
    }

    /// The id of the segment.
    pub fn id(&self) -> (id: usize)
        ensures
            id == self.id,
    {
        self.id
    }

    /// Lengthens the span in effect by the setup cost when this segment
    /// carries a setup; other segments are left as they are.
    pub fn add_set_up_time(&mut self, set_up_cost: usize)
        requires
            old(self).has_set_up && old(self).duration > 0 ==> old(self).duration + set_up_cost
                <= usize::MAX,
        ensures
            final(self).duration == if old(self).has_set_up && old(self).duration > 0 {
                old(self).duration + set_up_cost
            } else {
                old(self).duration as int
            },
            *final(self) == (Segment { duration: final(self).duration, ..*old(self) }),
    {
        if self.has_set_up && self.duration > 0 {
            self.duration = self.duration + set_up_cost;
        }
    }

    /// The ids of the segments that must have finished before this one
    /// starts.
    pub fn precedence(&self) -> (precedence: &Vec<usize>)
        ensures
            precedence == self.precedence,
    {
        &self.precedence
    }

    /// The span in effect.
    pub fn duration(&self) -> (duration: usize)
        ensures
            duration == self.duration,
    {
        self.duration
    }

    /// Attaches the variables of the window from `early_start` to
    /// `latest_start`: one start variable per time in the window, then one
    /// active variable per instant from `early_start` to `latest_start` plus
    /// the span, all with fresh consecutive ids.
    #[allow(non_snake_case)]
    pub fn generate_SAT_vars(
        &mut self,
        id_gen: &mut IdGenerator,
        early_start: usize,
        latest_start: usize,
    )
        requires
            latest_start + old(self).duration < usize::MAX,
            old(id_gen).0 + window_len(early_start as int, latest_start as int) + window_len(
                early_start as int,
                latest_start + old(self).duration,
            ) <= usize::MAX,
        ensures
            window_attached(
                *old(self),
                *final(self),
                old(id_gen).0 as int,
                early_start,
                latest_start,
            ),
            final(id_gen).0 == old(id_gen).0 + final(self).variables@.len() + final(self).uvariables@.len(),
    {
        let ghost first_id = id_gen.0;
        let ghost starts = window_len(early_start as int, latest_start as int);
        let ghost actives = window_len(early_start as int, latest_start + self.duration);
        let mut sat_vars: Vec<SATSVar> = Vec::new();
        let mut sat_u_vars: Vec<SATUVar> = Vec::new();
        let mut t: usize = early_start;
        while t <= latest_start
            invariant
                *self == *old(self),
                latest_start + self.duration < usize::MAX,
                first_id + starts + actives <= usize::MAX,
                starts == window_len(early_start as int, latest_start as int),
                early_start <= t,
                early_start <= latest_start ==> t <= latest_start + 1,
                early_start > latest_start ==> t == early_start,
                sat_vars.len() == t - early_start,
                id_gen.0 == first_id + sat_vars.len(),
                forall|k: int|
                    0 <= k < sat_vars.len() ==> (#[trigger] sat_vars[k]) == (SATSVar {
                        id: (first_id + k) as usize,
                        segment_id: self.id,
                        segment_duration: self.duration,
                        time: (early_start + k) as usize,
                        weight: self.has_set_up,
                    }),
            decreases latest_start + 1 - t,
        {
            let resource = duplicate(&self.resource);
            let sat_var = SATSVar::new(
                self.id,
                self.duration,
                t,
                id_gen,
                resource,
                self.has_set_up,
            );
            sat_vars.push(sat_var);
            t = t + 1;
        }
        let ghost issued = sat_vars.len();
        let end = latest_start + 1 + self.duration;
        let mut t: usize = early_start;
        while t < end
            invariant
                *self == *old(self),
                end == latest_start + 1 + self.duration,
                first_id + issued + actives <= usize::MAX,
                actives == window_len(early_start as int, latest_start + self.duration),
                early_start <= t,
                early_start < end ==> t <= end,
                early_start >= end ==> t == early_start,
                sat_u_vars.len() == t - early_start,
                id_gen.0 == first_id + issued + sat_u_vars.len(),
                forall|k: int|
                    0 <= k < sat_u_vars.len() ==> {
                        &&& (#[trigger] sat_u_vars[k]).id == first_id + issued + k
                        &&& sat_u_vars[k].segment_id == self.id
                        &&& sat_u_vars[k].time_at == early_start + k
                        &&& sat_u_vars[k].resource_usage@ == self.resource@
                    },
            decreases end - t,
        {
            let resource = duplicate(&self.resource);
            let u_var = SATUVar::new(id_gen.next_id(), self.id, t, resource);
            sat_u_vars.push(u_var);
            t = t + 1;
        }
        assert(sat_vars@ =~= Seq::new(
            starts,
            |k: int|
                SATSVar {
                    id: (first_id + k) as usize,
                    segment_id: self.id,
                    segment_duration: self.duration,
                    time: (early_start + k) as usize,
                    weight: self.has_set_up,
                },
        ));
        self.uvariables = sat_u_vars;
        self.variables = sat_vars;
        self.latest_start = latest_start;
        self.early_start = early_start;
    }

    /// The literals of the start variables of `pred` that let it finish by `t`.
    fn push_supporters(pred: &Segment, t: usize, clause: &mut Vec<i64>)
        requires
            start_ids_fit(pred.variables@),
        ensures
            final(clause)@ == old(clause)@ + supporters(
                pred.variables@,
                pred.duration as int,
                t as int,
                pred.variables@.len(),
            ),
    {
        let mut k: usize = 0;
        while k < pred.variables.len()
            invariant
                k <= pred.variables.len(),
                start_ids_fit(pred.variables@),
                clause@ == old(clause)@ + supporters(
                    pred.variables@,
                    pred.duration as int,
                    t as int,
                    k as nat,
                ),
            decreases pred.variables.len() - k,
        {
            let v = pred.variables[k];
            if v.time <= t && pred.duration <= t - v.time {
                clause.push(v.id as i64);
            }
            assert(clause@ =~= old(clause)@ + supporters(
                pred.variables@,
                pred.duration as int,
                t as int,
                (k + 1) as nat,
            ));
            k = k + 1;
        }
    }

    /// One hard clause per start variable of a segment with predecessors:
    /// the segment does not start at that time, or some predecessor has
    /// started early enough to have finished by then. When no predecessor can
    /// have, the clause forbids the start. A segment without predecessors
    /// yields no clause.
    pub fn generate_precedence_clauses(&self, arena: &Vec<Segment>) -> (clauses: Vec<Clause>)
        requires
            start_ids_fit(self.variables@),
            forall|k: int|
                0 <= k < self.precedence@.len() ==> {
                    &&& (#[trigger] self.precedence@[k]) < arena.len()
                    &&& start_ids_fit(arena[self.precedence@[k] as int].variables@)
                },
        ensures
            clauses.len() == if self.precedence@.len() == 0 {
                0
            } else {
                self.variables@.len()
            },
            forall|k: int|
                0 <= k < clauses.len() ==> (#[trigger] clauses[k])@ == precedence_clause(
                    arena@,
                    self.precedence@,
                    self.variables@[k],
                ),
    {
        let mut clauses: Vec<Clause> = Vec::new();
        if self.precedence.len() == 0 {
            return clauses;
        }
        let mut s: usize = 0;
        while s < self.variables.len()
            invariant
                s <= self.variables.len(),
                clauses.len() == s,
                start_ids_fit(self.variables@),
                forall|k: int|
                    0 <= k < self.precedence@.len() ==> {
                        &&& (#[trigger] self.precedence@[k]) < arena.len()
                        &&& start_ids_fit(arena[self.precedence@[k] as int].variables@)
                    },
                forall|k: int|
                    0 <= k < s ==> (#[trigger] clauses[k])@ == precedence_clause(
                        arena@,
                        self.precedence@,
                        self.variables@[k],
                    ),
            decreases self.variables.len() - s,
        {
            let sat_var = self.variables[s];
            let mut sat_var_clause: Vec<i64> = Vec::new();
            sat_var_clause.push(-(sat_var.id as i64));
            let mut p: usize = 0;
            while p < self.precedence.len()
                invariant
                    p <= self.precedence.len(),
                    forall|k: int|
                        0 <= k < self.precedence@.len() ==> {
                            &&& (#[trigger] self.precedence@[k]) < arena.len()
                            &&& start_ids_fit(arena[self.precedence@[k] as int].variables@)
                        },
                    sat_var_clause@ == seq![negative(sat_var.id)] + all_supporters(
                        arena@,
                        self.precedence@,
                        sat_var.time as int,
                        p as nat,
                    ),
                decreases self.precedence.len() - p,
            {
                let pred = &arena[self.precedence[p]];
                Self::push_supporters(pred, sat_var.time, &mut sat_var_clause);
                assert(sat_var_clause@ =~= seq![negative(sat_var.id)] + all_supporters(
                    arena@,
                    self.precedence@,
                    sat_var.time as int,
                    (p + 1) as nat,
                ));
                p = p + 1;
            }
            clauses.push(Clause::new(sat_var_clause));
            s = s + 1;
        }
        clauses
    }

    /// One hard clause per pair of a start variable and an active variable
    /// whose instant lies between the start and the start plus the span: if
    /// the segment starts then, it is active at that instant.
    pub fn generate_consistency_clause(&self) -> (clauses: Vec<Clause>)
        requires
            start_ids_fit(self.variables@),
            active_ids_fit(self.uvariables@),
        ensures
            literal_lists(clauses@) == consistency_clauses(
                self.variables@,
                self.uvariables@,
                self.duration as int,
                self.variables@.len(),
            ),
    {
        let mut clauses: Vec<Clause> = Vec::new();
        let mut s: usize = 0;
        assert(literal_lists(clauses@) =~= Seq::<Seq<i64>>::empty());
        while s < self.variables.len()
            invariant
                s <= self.variables.len(),
                start_ids_fit(self.variables@),
                active_ids_fit(self.uvariables@),
                literal_lists(clauses@) == consistency_clauses(
                    self.variables@,
                    self.uvariables@,
                    self.duration as int,
                    s as nat,
                ),
            decreases self.variables.len() - s,
        {
            let s_var = self.variables[s];
            let ghost done = literal_lists(clauses@);
            let mut u: usize = 0;
            assert(literal_lists(clauses@) =~= done + consistency_row(
                s_var,
                self.uvariables@,
                self.duration as int,
                0,
            ));
            while u < self.uvariables.len()
                invariant
                    u <= self.uvariables.len(),
                    s_var.id <= i64::MAX,
                    active_ids_fit(self.uvariables@),
                    literal_lists(clauses@) == done + consistency_row(
                        s_var,
                        self.uvariables@,
                        self.duration as int,
                        u as nat,
                    ),
                decreases self.uvariables.len() - u,
            {
                let ghost so_far = literal_lists(clauses@);
                let at = self.uvariables[u].time_at;
                if at >= s_var.time && at - s_var.time <= self.duration {
                    let mut pair: Vec<i64> = Vec::new();
                    pair.push(-(s_var.id as i64));
                    pair.push(self.uvariables[u].id as i64);
                    assert(pair@ =~= seq![negative(s_var.id), positive(self.uvariables@[u as int].id)]);
                    clauses.push(Clause::new(pair));
                    assert(literal_lists(clauses@) =~= so_far.push(pair@));
                }
                assert(literal_lists(clauses@) =~= done + consistency_row(
                    s_var,
                    self.uvariables@,
                    self.duration as int,
                    (u + 1) as nat,
                ));
                u = u + 1;
            }
            s = s + 1;
        }
        clauses
    }
}

} // verus!
