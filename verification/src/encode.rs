//! The stages that turn an instance into variables and clauses: setup
//! times, start-time windows, variables, hard clauses and the soft
//! objective.

use crate::floyd_warshall::{
    distance_matrix, is_graph, lemma_longest_covers_shortest, predecessors_within,
    relaxations_fit, relaxed, segments_dist_longest_vec, segments_dist_shortest_vec, UNREACHABLE,
};
use crate::id_generator::IdGenerator;
use crate::project::{all_within, chooses, completion_clause, Choice, Project};
use crate::sat_seg_var::{
    duplicate, largest_magnitude, literal_limit, literal_lists, moved_past, Clause, OracleError,
    SATSVar, SATUVar,
};
use crate::schedule::{is_closed, Schedule};
use crate::wcnf::{document_text, write_wcnf, DocumentError};
use crate::segment::{
    active_ids_fit, consistency_clauses, positive, precedence_clause, start_ids_fit,
    window_attached, window_len, Segment,
};
use vstd::prelude::*;

verus! {

/// Why an instance could not be encoded.
#[derive(Debug, Clone, PartialEq, Eq)]
pub enum EncodeError {
    /// With its setup the span of this segment reaches the entry that stands
    /// for "no path".
    SpanOutOfRange { segment: usize },
    /// A sum on the way to the longest chains leaves the `i32` range.
    HorizonOutOfRange,
    /// No chain of predecessors leads from this segment back to the origin.
    Disconnected { segment: usize },
    /// The ids of the variables would leave the range of literals.
    TooManyVariables,
    /// The weight of a hard clause would be no machine integer.
    WeightOutOfRange,
    /// The cardinality constraints could not be had.
    Oracle(OracleError),
}

/// The start-time windows of an instance: the earliest start of every
/// segment, by id, and the horizon, which is the latest start of all of them.
#[derive(Debug, Clone, PartialEq, Eq)]
pub struct Windows {
    pub earliest: Vec<usize>,
    pub horizon: usize,
}

/// The span of a segment once a setup of the given cost is added where the
/// segment carries one.
pub open spec fn span_with_set_up(s: Segment, cost: usize) -> int {
    if s.has_set_up && s.duration > 0 {
        s.duration + cost
    } else {
        s.duration as int
    }
}

/// The earliest start of segment `i`: the least total span of predecessors
/// on a chain from it back to the origin, which is segment 0.
pub open spec fn earliest_start(arena: Seq<Segment>, i: int) -> int {
    relaxed(distance_matrix(arena, false), arena.len(), i, 0)
}

/// The least of zero and the negated lengths of the longest chains that lead
/// from the first `count` segments back to the origin.
pub open spec fn deepest(arena: Seq<Segment>, count: nat) -> int
    decreases count,
{
    if count == 0 {
        0
    } else {
        let rest = deepest(arena, (count - 1) as nat);
        let own = relaxed(distance_matrix(arena, true), arena.len(), count - 1, 0);
        if own < rest {
            own
        } else {
            rest
        }
    }
}

/// The horizon: the length of the longest chain of predecessors that leads
/// back to the origin.
pub open spec fn horizon_of(arena: Seq<Segment>) -> int {
    -deepest(arena, arena.len())
}

/// Segment `i` has no start time: no chain of predecessors leads from it
/// back to the origin.
pub open spec fn window_fault(arena: Seq<Segment>, i: int) -> bool {
    earliest_start(arena, i) >= UNREACHABLE
}

/// No segment's negated longest chain to the origin lies below the deepest.
pub proof fn lemma_deepest_is_least(arena: Seq<Segment>, count: nat, i: int)
    requires
        0 <= i < count,
    ensures
        deepest(arena, count) <= relaxed(distance_matrix(arena, true), arena.len(), i, 0),
        deepest(arena, count) <= 0,
    decreases count,
{
    if count > 1 {
        if i < count - 1 {
            lemma_deepest_is_least(arena, (count - 1) as nat, i);
        } else {
            lemma_deepest_is_least(arena, (count - 1) as nat, 0);
        }
    } else {
        assert(deepest(arena, 0) == 0);
    }
}

/// With windows that are not empty and ids within the range of literals,
/// every segment has start variables, every id can be written as a literal,
/// and every time and span is a machine integer with room to spare.
proof fn lemma_attached_variables(
    spanned: Seq<Segment>,
    arena: Seq<Segment>,
    earliest: Seq<usize>,
    horizon: usize,
    i: int,
)
    requires
        0 <= i < spanned.len(),
        arena.len() == spanned.len(),
        earliest.len() == spanned.len(),
        horizon <= 2_147_483_648,
        earliest[i] <= horizon,
        spanned[i].duration <= UNREACHABLE,
        1 + variables_before(spanned, earliest, horizon as int, spanned.len()) <= literal_limit(),
        window_attached(
            spanned[i],
            arena[i],
            (1 + variables_before(spanned, earliest, horizon as int, i as nat)) as int,
            earliest[i],
            horizon,
        ),
    ensures
        arena[i].id == spanned[i].id,
        arena[i].precedence == spanned[i].precedence,
        arena[i].duration == spanned[i].duration,
        arena[i].variables@.len() > 0,
        start_ids_fit(arena[i].variables@),
        active_ids_fit(arena[i].uvariables@),
        forall|k: int|
            0 <= k < arena[i].variables@.len() ==> (#[trigger] arena[i].variables@[k]).time
                < usize::MAX && arena[i].variables@[k].segment_duration <= i64::MAX,
        forall|k: int|
            0 <= k < arena[i].uvariables@.len() ==> (
            #[trigger] arena[i].uvariables@[k]).resource_usage@ == spanned[i].resource@,
{
    lemma_variables_before_monotone(spanned, earliest, horizon as int, (i + 1) as nat, spanned.len());
    assert(variables_before(spanned, earliest, horizon as int, (i + 1) as nat) == variables_before(
        spanned,
        earliest,
        horizon as int,
        i as nat,
    ) + variable_count(spanned[i], earliest[i] as int, horizon as int));
}

/// The number of variables of a segment with the given window: its start
/// variables and its active variables.
pub open spec fn variable_count(s: Segment, early: int, horizon: int) -> nat {
    window_len(early, horizon) + window_len(early, horizon + s.duration)
}

/// The number of variables of the first `count` segments.
pub open spec fn variables_before(
    arena: Seq<Segment>,
    earliest: Seq<usize>,
    horizon: int,
    count: nat,
) -> nat
    decreases count,
{
    if count == 0 {
        0
    } else {
        variables_before(arena, earliest, horizon, (count - 1) as nat) + variable_count(
            arena[count - 1],
            earliest[count - 1] as int,
            horizon,
        )
    }
}

/// More segments have more variables.
pub proof fn lemma_variables_before_monotone(
    arena: Seq<Segment>,
    earliest: Seq<usize>,
    horizon: int,
    a: nat,
    b: nat,
)
    requires
        a <= b,
    ensures
        variables_before(arena, earliest, horizon, a) <= variables_before(
            arena,
            earliest,
            horizon,
            b,
        ),
    decreases b,
{
    if a < b {
        lemma_variables_before_monotone(arena, earliest, horizon, a, (b - 1) as nat);
    }
}

/// Every segment has start variables, and every id of a variable can be
/// written as a literal.
pub open spec fn has_variables(arena: Seq<Segment>) -> bool {
    forall|i: int|
        0 <= i < arena.len() ==> {
            &&& (#[trigger] arena[i]).variables@.len() > 0
            &&& start_ids_fit(arena[i].variables@)
            &&& active_ids_fit(arena[i].uvariables@)
        }
}

/// The precedence clauses of segment `i`: one per start variable when the
/// segment has predecessors, none when it has not.
pub open spec fn precedence_clauses_of(arena: Seq<Segment>, i: int) -> Seq<Seq<i64>> {
    if arena[i].precedence@.len() == 0 {
        Seq::empty()
    } else {
        Seq::new(
            arena[i].variables@.len(),
            |k: int| precedence_clause(arena, arena[i].precedence@, arena[i].variables@[k]),
        )
    }
}

/// The precedence and consistency clauses of the first `count` segments,
/// segment by segment.
pub open spec fn segment_clauses(arena: Seq<Segment>, count: nat) -> Seq<Seq<i64>>
    decreases count,
{
    if count == 0 {
        Seq::empty()
    } else {
        let s = arena[count - 1];
        segment_clauses(arena, (count - 1) as nat) + precedence_clauses_of(arena, count - 1)
            + consistency_clauses(s.variables@, s.uvariables@, s.duration as int, s.variables@.len())
    }
}

/// The completion clauses of an activity: one per time unit, in order.
pub open spec fn completion_clauses_of(arena: Seq<Segment>, project: Project) -> Seq<Seq<i64>> {
    Seq::new(
        project.duration as nat,
        |j: int| completion_clause(arena, project.segments@, (j + 1) as usize),
    )
}

/// The completion clauses of the first `count` activities.
pub open spec fn project_clauses(arena: Seq<Segment>, projects: Seq<Project>, count: nat) -> Seq<
    Seq<i64>,
>
    decreases count,
{
    if count == 0 {
        Seq::empty()
    } else {
        project_clauses(arena, projects, (count - 1) as nat) + completion_clauses_of(
            arena,
            projects[count - 1],
        )
    }
}

/// The hard clauses that need no cardinality encoder: precedence and
/// consistency of every segment, then completion of every activity.
pub open spec fn structural_clauses(arena: Seq<Segment>, projects: Seq<Project>) -> Seq<Seq<i64>> {
    segment_clauses(arena, arena.len()) + project_clauses(arena, projects, projects.len())
}

/// The two active variables say the same.
pub open spec fn same_active(a: SATUVar, b: SATUVar) -> bool {
    &&& a.id == b.id
    &&& a.segment_id == b.segment_id
    &&& a.time_at == b.time_at
    &&& a.resource_usage@ == b.resource_usage@
}

/// `v` says the same as some active variable of some segment.
pub open spec fn copied_from(arena: Seq<Segment>, v: SATUVar) -> bool {
    exists|i: int, k: int|
        0 <= i < arena.len() && 0 <= k < arena[i].uvariables@.len() && #[trigger] same_active(
            v,
            arena[i].uvariables@[k],
        )
}

/// `v` is a start variable of some segment.
pub open spec fn is_start_of(arena: Seq<Segment>, v: SATSVar) -> bool {
    exists|g: int, k: int|
        0 <= g < arena.len() && 0 <= k < arena[g].variables@.len() && #[trigger] arena[g].variables@[k]
            == v
}

/// The number of active variables of the first `count` segments.
pub open spec fn actives_before(arena: Seq<Segment>, count: nat) -> nat
    decreases count,
{
    if count == 0 {
        0
    } else {
        actives_before(arena, (count - 1) as nat) + arena[count - 1].uvariables@.len()
    }
}

/// The start variables of the first `count` segments named by `picks`, one
/// segment after the other.
pub open spec fn joined_starts(arena: Seq<Segment>, picks: Seq<usize>, count: nat) -> Seq<SATSVar>
    decreases count,
{
    if count == 0 {
        Seq::empty()
    } else {
        joined_starts(arena, picks, (count - 1) as nat) + arena[picks[count - 1] as int].variables@
    }
}

/// The start variables of the first `count` segments, one segment after the
/// other.
pub open spec fn all_starts(arena: Seq<Segment>, count: nat) -> Seq<SATSVar>
    decreases count,
{
    if count == 0 {
        Seq::empty()
    } else {
        all_starts(arena, (count - 1) as nat) + arena[count - 1].variables@
    }
}

/// A sort key: a flag, then a time, then a rank; keys are ordered by the
/// flag first (unset before set), then by the time, then by the rank.
pub open spec fn key_le(a: (bool, usize, i64), b: (bool, usize, i64)) -> bool {
    if a.0 != b.0 {
        !a.0
    } else if a.1 != b.1 {
        a.1 < b.1
    } else {
        a.2 <= b.2
    }
}

/// `order` lists every position of `keys` once, by rising key, positions of
/// equal keys by rising position.
pub open spec fn is_stable_order(keys: Seq<(bool, usize, i64)>, order: Seq<usize>) -> bool {
    &&& order.len() == keys.len()
    &&& forall|a: int| 0 <= a < order.len() ==> (#[trigger] order[a]) < keys.len()
    &&& forall|a: int, b: int|
        0 <= a < b < order.len() ==> (#[trigger] order[a]) != (#[trigger] order[b])
    &&& forall|a: int, b: int|
        0 <= a < b < order.len() ==> key_le(
            keys[(#[trigger] order[a]) as int],
            keys[(#[trigger] order[b]) as int],
        )
    &&& forall|a: int, b: int|
        0 <= a < b < order.len() && keys[(#[trigger] order[a]) as int] == keys[(
        #[trigger] order[b]) as int] ==> order[a] < order[b]
}

/// The key by which the objective orders a start variable: its time.
pub open spec fn time_key(v: SATSVar) -> (bool, usize, i64) {
    (false, v.time, 0i64)
}

/// The key by which the variable order lists a start variable: variables
/// without a setup first, then by time, then longer spans first.
pub open spec fn listing_key(v: SATSVar) -> (bool, usize, i64) {
    (v.weight, v.time, (-(v.segment_duration as int)) as i64)
}

/// Sorts the positions with `<[usize]>::sort_by_key`, each position keyed by
/// its entry in `keys`. The standard library documents the sort as stable and
/// orders tuples entry by entry, `false` before `true`: so the positions
/// come out by rising key, and positions of equal keys stay in their order.
#[verifier::external_body]
fn sort_positions(order: &mut Vec<usize>, keys: &Vec<(bool, usize, i64)>)
    requires
        old(order)@ == Seq::new(keys@.len(), |i: int| i as usize),
    ensures
        is_stable_order(keys@, final(order)@),
{
    order.sort_by_key(|i| keys[*i]);
}

/// The positions of `keys` by rising key, positions of equal keys by rising
/// position.
pub fn stable_order(keys: &Vec<(bool, usize, i64)>) -> (order: Vec<usize>)
    ensures
        is_stable_order(keys@, order@),
{
    let mut order: Vec<usize> = Vec::new();
    let mut i: usize = 0;
    while i < keys.len()
        invariant
            i <= keys@.len(),
            order@ == Seq::new(i as nat, |c: int| c as usize),
        decreases keys@.len() - i,
    {
        order.push(i);
        assert(order@ =~= Seq::new((i + 1) as nat, |c: int| c as usize));
        i = i + 1;
    }
    sort_positions(&mut order, keys);
    order
}

/// Some start variable among the first `count` has the id `id`.
pub open spec fn listed_id(starts: Seq<SATSVar>, id: int, count: nat) -> bool {
    exists|p: int| 0 <= p < count && (#[trigger] starts[p]).id == id
}

/// The ids from 1 to `count` that belong to no start variable, rising.
pub open spec fn unused_upto(starts: Seq<SATSVar>, count: nat) -> Seq<usize>
    decreases count,
{
    if count == 0 {
        Seq::empty()
    } else {
        let rest = unused_upto(starts, (count - 1) as nat);
        if listed_id(starts, count as int, starts.len()) {
            rest
        } else {
            rest.push(count as usize)
        }
    }
}

/// The listing keys of the start variables, in their order.
pub open spec fn listing_keys(starts: Seq<SATSVar>) -> Seq<(bool, usize, i64)> {
    Seq::new(starts.len(), |c: int| listing_key(starts[c]))
}

/// `ids` is the order of the variables up to `last_id`: the ids of the start
/// variables, those without a setup first, then by rising time, then longer
/// spans first, and otherwise in the order of `starts`; behind them every
/// other id from 1 to `last_id`, rising.
pub open spec fn is_variable_order(starts: Seq<SATSVar>, last_id: usize, ids: Seq<usize>) -> bool {
    exists|order: Seq<usize>|
        {
            &&& #[trigger] is_stable_order(listing_keys(starts), order)
            &&& ids == Seq::new(starts.len(), |a: int| starts[order[a] as int].id) + unused_upto(
                starts,
                last_id as nat,
            )
        }
}

/// The segments with the setup cost added to the span of those that carry
/// a setup.
pub open spec fn with_set_up(arena: Seq<Segment>, cost: usize) -> Seq<Segment> {
    Seq::new(
        arena.len(),
        |i: int| Segment { duration: span_with_set_up(arena[i], cost) as usize, ..arena[i] },
    )
}

/// Every start variable has a time with a successor among the machine
/// integers and a span that can be written as a rank.
pub open spec fn start_variables_in_range(arena: Seq<Segment>) -> bool {
    forall|c: int, k: int|
        0 <= c < arena.len() && 0 <= k < arena[c].variables@.len() ==> (
        #[trigger] arena[c].variables@[k]).time < usize::MAX
            && arena[c].variables@[k].segment_duration <= i64::MAX
}

/// `text` is the document of the schedule with the given cardinality
/// clauses and the given last id: its hard clauses are the precedence,
/// consistency and completion clauses of the segments and activities
/// followed by the cardinality clauses; its soft clauses are the objective
/// over the start variables of the last activity; and its comment line is
/// the order of the variables up to the last id.
pub open spec fn is_document(
    schedule: Schedule,
    resource_clauses: Seq<Seq<i64>>,
    last_id: usize,
    text: Seq<char>,
) -> bool {
    exists|order: Seq<usize>, hard: Seq<Clause>, soft: Seq<Clause>, weights: Seq<usize>|
        {
            &&& #[trigger] document_text(order, hard, soft, weights) == text
            &&& literal_lists(hard) == structural_clauses(schedule.segments@, schedule.projects@)
                + resource_clauses
            &&& is_objective(
                joined_starts(
                    schedule.segments@,
                    schedule.projects@.last().segments@,
                    schedule.projects@.last().segments@.len(),
                ),
                literal_lists(soft),
                weights,
            )
            &&& is_variable_order(
                all_starts(schedule.segments@, schedule.segments@.len()),
                last_id,
                order,
            )
        }
}

/// `text` is a document of the schedule whose variables have the ids below
/// `first_free`: for some cardinality clauses, it is the document with those
/// clauses and with the last id that the issuer of ids has handed out once
/// it has been moved past them. A schedule without resources has no
/// cardinality clauses.
pub open spec fn is_encoding(schedule: Schedule, first_free: int, text: Seq<char>) -> bool {
    exists|resource_clauses: Seq<Seq<i64>>|
        {
            &&& #[trigger] is_document(
                schedule,
                resource_clauses,
                (moved_past(
                    first_free,
                    largest_magnitude(resource_clauses, resource_clauses.len()) as int,
                ) - 1) as usize,
                text,
            )
            &&& schedule.resources@.len() == 0 ==> resource_clauses.len() == 0
        }
}

/// With the setup added, the span of every segment stays below the entry
/// for "no path".
pub open spec fn spans_fit(arena: Seq<Segment>, cost: usize) -> bool {
    forall|i: int|
        0 <= i < arena.len() ==> span_with_set_up(#[trigger] arena[i], cost) <= UNREACHABLE
}

/// `segment` is the first segment whose span, with the setup added, reaches
/// the entry for "no path".
pub open spec fn first_span_fault(arena: Seq<Segment>, cost: usize, segment: usize) -> bool {
    &&& segment < arena.len()
    &&& span_with_set_up(arena[segment as int], cost) > UNREACHABLE
    &&& forall|i: int|
        0 <= i < segment ==> span_with_set_up(#[trigger] arena[i], cost) <= UNREACHABLE
}

/// Every segment has a start-time window.
pub open spec fn windows_exist(arena: Seq<Segment>) -> bool {
    forall|i: int| 0 <= i < arena.len() ==> !#[trigger] window_fault(arena, i)
}

/// `segment` is the first segment without a start-time window.
pub open spec fn first_window_fault(arena: Seq<Segment>, segment: usize) -> bool {
    &&& segment < arena.len()
    &&& window_fault(arena, segment as int)
    &&& forall|i: int| 0 <= i < segment ==> !#[trigger] window_fault(arena, i)
}

/// The id of the first variable of segment `i`, and for `i` the number of
/// segments the first id that no variable has.
pub open spec fn first_id_of(arena: Seq<Segment>, i: nat) -> int {
    (1 + variables_before(arena, earliest_starts(arena), horizon_of(arena), i)) as int
}

/// The ids of the variables would leave the range of literals.
pub open spec fn too_many_variables(arena: Seq<Segment>) -> bool {
    first_id_of(arena, arena.len()) > literal_limit()
}

/// `after` holds the segments of `before`, each with the variables of its
/// window attached, numbered segment by segment from 1.
pub open spec fn variables_attached(before: Seq<Segment>, after: Seq<Segment>) -> bool {
    &&& after.len() == before.len()
    &&& forall|i: int|
        0 <= i < before.len() ==> window_attached(
            before[i],
            #[trigger] after[i],
            first_id_of(before, i as nat),
            earliest_starts(before)[i],
            horizon_of(before) as usize,
        )
}

/// The stage of the setup times fails.
pub open spec fn fails_on_span(arena: Seq<Segment>, cost: usize) -> bool {
    !spans_fit(arena, cost)
}

/// The setup times succeed and the stage of the horizon fails.
pub open spec fn fails_on_horizon(arena: Seq<Segment>, cost: usize) -> bool {
    &&& spans_fit(arena, cost)
    &&& !relaxations_fit(distance_matrix(with_set_up(arena, cost), true))
}

/// Setup times and horizon succeed and some segment has no window.
pub open spec fn fails_on_window(arena: Seq<Segment>, cost: usize) -> bool {
    &&& spans_fit(arena, cost)
    &&& relaxations_fit(distance_matrix(with_set_up(arena, cost), true))
    &&& !windows_exist(with_set_up(arena, cost))
}

/// Setup times, horizon and windows succeed and the variables are too many.
pub open spec fn fails_on_variables(arena: Seq<Segment>, cost: usize) -> bool {
    &&& spans_fit(arena, cost)
    &&& relaxations_fit(distance_matrix(with_set_up(arena, cost), true))
    &&& windows_exist(with_set_up(arena, cost))
    &&& too_many_variables(with_set_up(arena, cost))
}

/// Every stage before the cardinality encoder succeeds.
pub open spec fn reaches_encoder(arena: Seq<Segment>, cost: usize) -> bool {
    &&& spans_fit(arena, cost)
    &&& relaxations_fit(distance_matrix(with_set_up(arena, cost), true))
    &&& windows_exist(with_set_up(arena, cost))
    &&& !too_many_variables(with_set_up(arena, cost))
}

/// The earliest starts of all segments.
pub open spec fn earliest_starts(arena: Seq<Segment>) -> Seq<usize> {
    Seq::new(arena.len(), |i: int| earliest_start(arena, i) as usize)
}

/// The soft weights of the objective over `vars` are too many for a hard
/// weight above their sum.
pub open spec fn objective_too_heavy(vars: Seq<SATSVar>) -> bool {
    exists|clauses: Seq<Seq<i64>>, weights: Seq<usize>|
        #[trigger] is_objective(vars, clauses, weights) && crate::wcnf::hard_weight(weights)
            > usize::MAX
}

/// Moves the clauses of `part` behind those of `clauses`.
fn take_over(clauses: &mut Vec<Clause>, part: Vec<Clause>)
    ensures
        literal_lists(final(clauses)@) == literal_lists(old(clauses)@) + literal_lists(part@),
{
    let mut part = part;
    let ghost added = part@;
    clauses.append(&mut part);
    assert(literal_lists(clauses@) =~= literal_lists(old(clauses)@) + literal_lists(added));
}

/// The number of variables of a window, counted without overflow.
fn count_variables(s: &Segment, early: usize, horizon: usize) -> (count: u128)
    ensures
        count == variable_count(*s, early as int, horizon as int),
{
    let first = early as u128;
    let last_start = horizon as u128;
    let last_active = horizon as u128 + s.duration as u128;
    let starts: u128 = if first <= last_start {
        last_start + 1 - first
    } else {
        0
    };
    let actives: u128 = if first <= last_active {
        last_active + 1 - first
    } else {
        0
    };
    starts + actives
}

/// When a span stays below the entry for "no path" with the setup added.
fn span_in_range(s: &Segment, cost: usize) -> (yes: bool)
    ensures
        yes == (span_with_set_up(*s, cost) <= UNREACHABLE),
{
    let limit = UNREACHABLE as usize;
    if s.has_set_up && s.duration > 0 {
        cost <= limit && s.duration <= limit - cost
    } else {
        s.duration <= limit
    }
}

impl Schedule {
    /// Adds the setup cost to the span of every segment that carries a
    /// setup. When a span would reach the entry for "no path", nothing is
    /// changed and the first such segment is reported.
    pub fn add_set_up_times(&mut self, set_up_cost: usize) -> (outcome: Result<(), EncodeError>)
        ensures
            final(self).projects == old(self).projects,
            final(self).resources == old(self).resources,
            final(self).segments@.len() == old(self).segments@.len(),
            match outcome {
                Ok(()) => forall|i: int|
                    0 <= i < old(self).segments@.len() ==> {
                        &&& span_with_set_up(#[trigger] old(self).segments@[i], set_up_cost)
                            <= UNREACHABLE
                        &&& final(self).segments@[i] == (Segment {
                            duration: span_with_set_up(
                                old(self).segments@[i],
                                set_up_cost,
                            ) as usize,
                            ..old(self).segments@[i]
                        })
                    },
                Err(EncodeError::SpanOutOfRange { segment }) => {
                    &&& *final(self) == *old(self)
                    &&& segment < old(self).segments@.len()
                    &&& span_with_set_up(old(self).segments@[segment as int], set_up_cost)
                        > UNREACHABLE
                    &&& forall|i: int|
                        0 <= i < segment ==> span_with_set_up(
                            #[trigger] old(self).segments@[i],
                            set_up_cost,
                        ) <= UNREACHABLE
                },
                Err(_) => false,
            },
    {
        let mut i: usize = 0;
        while i < self.segments.len()
            invariant
                *self == *old(self),
                i <= self.segments@.len(),
                forall|c: int|
                    0 <= c < i ==> span_with_set_up(#[trigger] self.segments@[c], set_up_cost)
                        <= UNREACHABLE,
            decreases self.segments@.len() - i,
        {
            if !span_in_range(&self.segments[i], set_up_cost) {
                return Err(EncodeError::SpanOutOfRange { segment: i });
            }
            i = i + 1;
        }
        let mut i: usize = 0;
        while i < self.segments.len()
            invariant
                self.projects == old(self).projects,
                self.resources == old(self).resources,
                self.segments@.len() == old(self).segments@.len(),
                i <= self.segments@.len(),
                forall|c: int|
                    0 <= c < old(self).segments@.len() ==> span_with_set_up(
                        #[trigger] old(self).segments@[c],
                        set_up_cost,
                    ) <= UNREACHABLE,
                forall|c: int|
                    0 <= c < i ==> #[trigger] self.segments@[c] == (Segment {
                        duration: span_with_set_up(old(self).segments@[c], set_up_cost) as usize,
                        ..old(self).segments@[c]
                    }),
                forall|c: int|
                    i <= c < self.segments@.len() ==> #[trigger] self.segments@[c] == old(self).segments@[c],
            decreases self.segments@.len() - i,
        {
            assert(span_with_set_up(old(self).segments@[i as int], set_up_cost) <= UNREACHABLE);
            assert(self.segments@[i as int] == old(self).segments@[i as int]);
            self.segments[i].add_set_up_time(set_up_cost);
            i = i + 1;
        }
        Ok(())
    }

    /// The start-time windows: for every segment the least total span of
    /// predecessors between it and the origin, and for all of them the
    /// length of the longest chain of predecessors as the horizon, which no
    /// earliest start exceeds. A segment that is cut off from the origin has
    /// no window; the first such segment is reported.
    pub fn time_windows(&self) -> (outcome: Result<Windows, EncodeError>)
        requires
            is_graph(self.segments@),
        ensures
            match outcome {
                Ok(windows) => {
                    &&& relaxations_fit(distance_matrix(self.segments@, true))
                    &&& windows.horizon == horizon_of(self.segments@)
                    &&& windows.horizon <= 2_147_483_648
                    &&& windows.earliest@.len() == self.segments@.len()
                    &&& forall|i: int|
                        0 <= i < self.segments@.len() ==> {
                            &&& #[trigger] windows.earliest@[i] == earliest_start(
                                self.segments@,
                                i,
                            )
                            &&& !window_fault(self.segments@, i)
                            &&& windows.earliest@[i] <= windows.horizon
                        }
                },
                Err(EncodeError::HorizonOutOfRange) => !relaxations_fit(
                    distance_matrix(self.segments@, true),
                ),
                Err(EncodeError::Disconnected { segment }) => {
                    &&& relaxations_fit(distance_matrix(self.segments@, true))
                    &&& segment < self.segments@.len()
                    &&& earliest_start(self.segments@, segment as int) >= UNREACHABLE
                    &&& forall|i: int| 0 <= i < segment ==> !#[trigger] window_fault(self.segments@, i)
                },
                Err(_) => false,
            },
    {
        let n = self.segments.len();
        let distances = segments_dist_shortest_vec(&self.segments);
        let longest = match segments_dist_longest_vec(&self.segments) {
            Some(longest) => longest,
            None => {
                return Err(EncodeError::HorizonOutOfRange);
            },
        };
        let mut least: i32 = 0;
        let mut i: usize = 0;
        while i < n
            invariant
                n == self.segments@.len(),
                i <= n,
                longest@.len() == n,
                forall|r: int| 0 <= r < n ==> (#[trigger] longest@[r])@.len() == n,
                forall|r: int, c: int|
                    0 <= r < n && 0 <= c < n ==> #[trigger] longest@[r]@[c] == relaxed(
                        distance_matrix(self.segments@, true),
                        n as nat,
                        r,
                        c,
                    ),
                least == deepest(self.segments@, i as nat),
                least <= 0,
            decreases n - i,
        {
            let own = longest[i][0];
            if own < least {
                least = own;
            }
            i = i + 1;
        }
        let horizon: usize = (-(least as i64)) as usize;
        let mut earliest: Vec<usize> = Vec::new();
        let mut i: usize = 0;
        while i < n
            invariant
                n == self.segments@.len(),
                i <= n,
                is_graph(self.segments@),
                horizon == horizon_of(self.segments@),
                relaxations_fit(distance_matrix(self.segments@, true)),
                distances@.len() == n,
                forall|r: int| 0 <= r < n ==> (#[trigger] distances@[r])@.len() == n,
                forall|r: int, c: int|
                    0 <= r < n && 0 <= c < n ==> #[trigger] distances@[r]@[c] == relaxed(
                        distance_matrix(self.segments@, false),
                        n as nat,
                        r,
                        c,
                    ),
                forall|r: int, c: int|
                    0 <= r < n && 0 <= c < n ==> 0 <= #[trigger] distances@[r]@[c] <= UNREACHABLE,
                earliest@.len() == i,
                forall|c: int|
                    0 <= c < i ==> #[trigger] earliest@[c] == earliest_start(self.segments@, c),
                forall|c: int| 0 <= c < i ==> !#[trigger] window_fault(self.segments@, c),
                forall|c: int| 0 <= c < i ==> #[trigger] earliest@[c] <= horizon,
            decreases n - i,
        {
            let early = distances[i][0];
            assert(distances@[i as int]@[0] == earliest_start(self.segments@, i as int));
            if early >= UNREACHABLE {
                return Err(EncodeError::Disconnected { segment: i });
            }
            proof {
                lemma_longest_covers_shortest(self.segments@, n as nat);
                lemma_deepest_is_least(self.segments@, n as nat, i as int);
                assert(relaxed(distance_matrix(self.segments@, true), n as nat, i as int, 0)
                    <= -relaxed(distance_matrix(self.segments@, false), n as nat, i as int, 0));
            }
            earliest.push(early as usize);
            i = i + 1;
        }
        Ok(Windows { earliest, horizon })
    }

    /// Attaches to every segment the variables of its window, segment by
    /// segment, with consecutive ids from the issuer. When the ids would
    /// leave the range of literals, nothing is changed.
    pub fn generate_variables(&mut self, id_gen: &mut IdGenerator, windows: &Windows) -> (outcome:
        Result<(), EncodeError>)
        requires
            windows.earliest@.len() == old(self).segments@.len(),
            windows.horizon <= 2_147_483_648,
            forall|i: int|
                0 <= i < old(self).segments@.len() ==> (#[trigger] old(self).segments@[i]).duration
                    <= UNREACHABLE,
        ensures
            final(self).projects == old(self).projects,
            final(self).resources == old(self).resources,
            final(self).segments@.len() == old(self).segments@.len(),
            outcome is Ok <==> old(id_gen).0 + variables_before(
                old(self).segments@,
                windows.earliest@,
                windows.horizon as int,
                old(self).segments@.len(),
            ) <= literal_limit(),
            outcome is Err ==> outcome == Err::<(), EncodeError>(EncodeError::TooManyVariables)
                && *final(self) == *old(self) && *final(id_gen) == *old(id_gen),
            outcome is Ok ==> {
                &&& final(id_gen).0 == old(id_gen).0 + variables_before(
                    old(self).segments@,
                    windows.earliest@,
                    windows.horizon as int,
                    old(self).segments@.len(),
                )
                &&& forall|i: int|
                    0 <= i < old(self).segments@.len() ==> window_attached(
                        old(self).segments@[i],
                        #[trigger] final(self).segments@[i],
                        old(id_gen).0 + variables_before(
                            old(self).segments@,
                            windows.earliest@,
                            windows.horizon as int,
                            i as nat,
                        ),
                        windows.earliest@[i],
                        windows.horizon,
                    )
            },
    {
        let n = self.segments.len();
        let ghost arena = self.segments@;
        let ghost first_id = id_gen.0;
        let ghost horizon = windows.horizon as int;
        let limit: u128 = if (usize::MAX as u128) < (i64::MAX as u128) {
            usize::MAX as u128
        } else {
            i64::MAX as u128
        };
        let mut total: u128 = id_gen.0 as u128;
        let mut i: usize = 0;
        while i < n
            invariant
                *self == *old(self),
                *id_gen == *old(id_gen),
                first_id == old(id_gen).0,
                arena == self.segments@,
                n == arena.len(),
                i <= n,
                limit == literal_limit(),
                total == first_id + variables_before(arena, windows.earliest@, horizon, i as nat),
                total <= limit || i == 0,
                windows.earliest@.len() == n,
                horizon == windows.horizon,
            decreases n - i,
        {
            let count = count_variables(&self.segments[i], windows.earliest[i], windows.horizon);
            if total > limit || count > limit || total + count > limit {
                proof {
                    lemma_variables_before_monotone(
                        arena,
                        windows.earliest@,
                        horizon,
                        (i + 1) as nat,
                        n as nat,
                    );
                    lemma_variables_before_monotone(
                        arena,
                        windows.earliest@,
                        horizon,
                        i as nat,
                        n as nat,
                    );
                    assert(variables_before(arena, windows.earliest@, horizon, (i + 1) as nat)
                        == variables_before(arena, windows.earliest@, horizon, i as nat) + count);
                    assert(first_id + variables_before(arena, windows.earliest@, horizon, n as nat)
                        > limit);
                }
                return Err(EncodeError::TooManyVariables);
            }
            total = total + count;
            i = i + 1;
        }
        if total > limit {
            return Err(EncodeError::TooManyVariables);
        }
        let mut i: usize = 0;
        while i < n
            invariant
                self.projects == old(self).projects,
                self.resources == old(self).resources,
                arena == old(self).segments@,
                self.segments@.len() == n,
                n == arena.len(),
                i <= n,
                first_id == old(id_gen).0,
                horizon == windows.horizon,
                windows.horizon <= 2_147_483_648,
                windows.earliest@.len() == n,
                forall|c: int| 0 <= c < n ==> (#[trigger] arena[c]).duration <= UNREACHABLE,
                first_id + variables_before(arena, windows.earliest@, horizon, n as nat)
                    <= literal_limit(),
                id_gen.0 == first_id + variables_before(arena, windows.earliest@, horizon, i as nat),
                forall|c: int|
                    0 <= c < i ==> window_attached(
                        arena[c],
                        #[trigger] self.segments@[c],
                        first_id + variables_before(arena, windows.earliest@, horizon, c as nat),
                        windows.earliest@[c],
                        windows.horizon,
                    ),
                forall|c: int| i <= c < n ==> #[trigger] self.segments@[c] == arena[c],
            decreases n - i,
        {
            proof {
                lemma_variables_before_monotone(
                    arena,
                    windows.earliest@,
                    horizon,
                    (i + 1) as nat,
                    n as nat,
                );
                assert(self.segments@[i as int] == arena[i as int]);
                assert(arena[i as int].duration <= UNREACHABLE);
            }
            self.segments[i].generate_SAT_vars(id_gen, windows.earliest[i], windows.horizon);
            i = i + 1;
        }
        Ok(())
    }

    /// The hard clauses that need no cardinality encoder: for every segment
    /// its precedence clauses and then its consistency clauses, and behind
    /// those of all segments the completion clauses of every activity.
    pub fn generate_clauses(&self) -> (clauses: Vec<Clause>)
        requires
            is_closed(self.segments@),
            has_variables(self.segments@),
            forall|j: int|
                0 <= j < self.projects@.len() ==> {
                    &&& (#[trigger] self.projects@[j]).duration < usize::MAX
                    &&& all_within(self.projects@[j].segments@, self.segments@.len())
                },
        ensures
            literal_lists(clauses@) == structural_clauses(self.segments@, self.projects@),
    {
        let mut clauses: Vec<Clause> = Vec::new();
        let n = self.segments.len();
        let ghost arena = self.segments@;
        assert(literal_lists(clauses@) =~= segment_clauses(arena, 0));
        let mut i: usize = 0;
        while i < n
            invariant
                arena == self.segments@,
                n == arena.len(),
                i <= n,
                is_closed(arena),
                has_variables(arena),
                literal_lists(clauses@) == segment_clauses(arena, i as nat),
            decreases n - i,
        {
            let segment = &self.segments[i];
            proof {
                assert(all_within(arena[i as int].precedence@, arena.len()));
                assert forall|k: int| 0 <= k < segment.precedence@.len() implies {
                    &&& (#[trigger] segment.precedence@[k]) < arena.len()
                    &&& start_ids_fit(arena[segment.precedence@[k] as int].variables@)
                } by {
                    let p = segment.precedence@[k] as int;
                    assert(arena[p].variables@.len() > 0);
                }
            }
            let precedence = segment.generate_precedence_clauses(&self.segments);
            assert(literal_lists(precedence@) =~= precedence_clauses_of(arena, i as int));
            take_over(&mut clauses, precedence);
            take_over(&mut clauses, segment.generate_consistency_clause());
            i = i + 1;
        }
        let ghost first_part = literal_lists(clauses@);
        let m = self.projects.len();
        let mut j: usize = 0;
        assert(literal_lists(clauses@) =~= first_part + project_clauses(arena, self.projects@, 0));
        while j < m
            invariant
                arena == self.segments@,
                m == self.projects@.len(),
                j <= m,
                has_variables(arena),
                forall|q: int|
                    0 <= q < self.projects@.len() ==> {
                        &&& (#[trigger] self.projects@[q]).duration < usize::MAX
                        &&& all_within(self.projects@[q].segments@, arena.len())
                    },
                first_part == segment_clauses(arena, arena.len()),
                literal_lists(clauses@) == first_part + project_clauses(
                    arena,
                    self.projects@,
                    j as nat,
                ),
            decreases m - j,
        {
            let project = &self.projects[j];
            proof {
                assert(all_within(self.projects@[j as int].segments@, arena.len()));
                assert forall|k: int| 0 <= k < project.segments@.len() implies start_ids_fit(
                    arena[(#[trigger] project.segments@[k]) as int].variables@,
                ) by {
                    let g = project.segments@[k] as int;
                    assert(arena[g].variables@.len() > 0);
                }
                assert forall|k: int, jiffy: usize|
                    0 <= k < project.segments@.len() && 1 <= jiffy <= project.duration
                        && #[trigger] chooses(
                        Choice::Covering { jiffy },
                        arena[project.segments@[k] as int],
                    ) implies arena[project.segments@[k] as int].variables@.len() > 0 by {
                    let g = project.segments@[k] as int;
                    assert(arena[g].variables@.len() > 0);
                }
            }
            let completion = project.generate_completion_clauses(&self.segments);
            assert(literal_lists(completion@) =~= completion_clauses_of(arena, *project));
take_over(&mut clauses, completion);
            assert(literal_lists(clauses@) =~= first_part + project_clauses(
                arena,
                self.projects@,
                (j + 1) as nat,
            ));
            j = j + 1;
        }
        clauses
    }

    /// Copies of the active variables of all segments, segment by segment.
    pub fn active_variables(&self) -> (u_vars: Vec<SATUVar>)
        ensures
            u_vars@.len() == actives_before(self.segments@, self.segments@.len()),
            forall|i: int, k: int|
                0 <= i < self.segments@.len() && 0 <= k < self.segments@[i].uvariables@.len()
                    ==> same_active(
                    u_vars@[actives_before(self.segments@, i as nat) + k],
                    #[trigger] self.segments@[i].uvariables@[k],
                ),
            forall|p: int| 0 <= p < u_vars@.len() ==> copied_from(self.segments@, #[trigger] u_vars@[p]),
    {
        let mut u_vars: Vec<SATUVar> = Vec::new();
        let ghost arena = self.segments@;
        let mut i: usize = 0;
        while i < self.segments.len()
            invariant
                arena == self.segments@,
                i <= arena.len(),
                u_vars@.len() == actives_before(arena, i as nat),
                forall|c: int, k: int|
                    0 <= c < i && 0 <= k < arena[c].uvariables@.len() ==> same_active(
                        u_vars@[actives_before(arena, c as nat) + k],
                        #[trigger] arena[c].uvariables@[k],
                    ),
                forall|p: int| 0 <= p < u_vars@.len() ==> copied_from(arena, #[trigger] u_vars@[p]),
            decreases arena.len() - i,
        {
            let segment = &self.segments[i];
            let ghost base = u_vars@.len();
            let ghost before = u_vars@;
            let mut k: usize = 0;
            while k < segment.uvariables.len()
                invariant
                    arena == self.segments@,
                    i < arena.len(),
                    segment == arena[i as int],
                    k <= segment.uvariables@.len(),
                    base == actives_before(arena, i as nat),
                    u_vars@.len() == base + k,
                    before.len() == base,
                    forall|p: int| 0 <= p < base ==> #[trigger] u_vars@[p] == before[p],
                    forall|c: int|
                        0 <= c < k ==> same_active(
                            u_vars@[base + c],
                            #[trigger] segment.uvariables@[c],
                        ),
                    forall|p: int|
                        0 <= p < u_vars@.len() ==> copied_from(arena, #[trigger] u_vars@[p]),
                decreases segment.uvariables@.len() - k,
            {
                let source = &segment.uvariables[k];
                let copy = SATUVar::new(
                    source.id,
                    source.segment_id,
                    source.time_at,
                    duplicate(&source.resource_usage),
                );
                let ghost earlier = u_vars@;
                u_vars.push(copy);
                proof {
                    assert forall|p: int| 0 <= p < u_vars@.len() implies copied_from(
                        arena,
                        #[trigger] u_vars@[p],
                    ) by {
                        if p < earlier.len() {
                            assert(u_vars@[p] == earlier[p]);
                        } else {
                            assert(same_active(u_vars@[p], arena[i as int].uvariables@[k as int]));
                        }
                    }
                }
                k = k + 1;
            }
            proof {
                assert forall|c: int, q: int|
                    0 <= c < i + 1 && 0 <= q < arena[c].uvariables@.len() implies same_active(
                    u_vars@[actives_before(arena, c as nat) + q],
                    #[trigger] arena[c].uvariables@[q],
                ) by {
                    if c < i {
                        lemma_actives_before_monotone(arena, (c + 1) as nat, i as nat);
                        assert(same_active(
                            before[actives_before(arena, c as nat) + q],
                            arena[c].uvariables@[q],
                        ));
                        assert(u_vars@[actives_before(arena, c as nat) + q]
                            == before[actives_before(arena, c as nat) + q]);
                    }
                }
            }
            i = i + 1;
        }
        u_vars
    }

    /// The start variables of the segments named by `picks`, one segment
    /// after the other.
    fn collect_starts(&self, picks: &Vec<usize>) -> (vars: Vec<SATSVar>)
        requires
            all_within(picks@, self.segments@.len()),
        ensures
            vars@ == joined_starts(self.segments@, picks@, picks@.len()),
    {
        let mut vars: Vec<SATSVar> = Vec::new();
        let mut p: usize = 0;
        while p < picks.len()
            invariant
                p <= picks@.len(),
                all_within(picks@, self.segments@.len()),
                vars@ == joined_starts(self.segments@, picks@, p as nat),
            decreases picks@.len() - p,
        {
            let segment = &self.segments[picks[p]];
            let ghost before = vars@;
            let mut k: usize = 0;
            while k < segment.variables.len()
                invariant
                    k <= segment.variables@.len(),
                    vars@ == before + segment.variables@.take(k as int),
                decreases segment.variables@.len() - k,
            {
                vars.push(segment.variables[k]);
                assert(vars@ =~= before + segment.variables@.take(k + 1));
                k = k + 1;
            }
            assert(segment.variables@.take(segment.variables@.len() as int)
                =~= segment.variables@);
            p = p + 1;
        }
        vars
    }

    /// The soft objective: one unit clause per start variable of the last
    /// activity, the sink of the schedule, by rising time, each with a
    /// weight of one more than its time, so that a later end costs more.
    /// Variables of one time keep the order of their segments.
    pub fn objective(&self) -> (soft: (Vec<Clause>, Vec<usize>))
        requires
            self.projects@.len() >= 1,
            all_within(self.projects@.last().segments@, self.segments@.len()),
            forall|c: int|
                0 <= c < self.segments@.len() ==> start_ids_fit(
                    (#[trigger] self.segments@[c]).variables@,
                ),
            forall|c: int, k: int|
                0 <= c < self.segments@.len() && 0 <= k < self.segments@[c].variables@.len() ==> (
                #[trigger] self.segments@[c].variables@[k]).time < usize::MAX,
        ensures
            is_objective(
                joined_starts(
                    self.segments@,
                    self.projects@.last().segments@,
                    self.projects@.last().segments@.len(),
                ),
                literal_lists(soft.0@),
                soft.1@,
            ),
    {
        let last = &self.projects[self.projects.len() - 1];
        let vars = self.collect_starts(&last.segments);
        proof {
            lemma_joined_starts_members(self.segments@, last.segments@, last.segments@.len());
            assert forall|c: int| 0 <= c < vars@.len() implies (#[trigger] vars@[c]).id <= i64::MAX
                && vars@[c].time < usize::MAX by {
                assert(is_start_of(self.segments@, vars@[c]));
                let (g, k) = choose|g: int, k: int|
                    0 <= g < self.segments@.len() && 0 <= k < self.segments@[g].variables@.len()
                        && #[trigger] self.segments@[g].variables@[k] == vars@[c];
                assert(start_ids_fit(self.segments@[g].variables@));
            }
        }
        let mut keys: Vec<(bool, usize, i64)> = Vec::new();
        let mut k: usize = 0;
        while k < vars.len()
            invariant
                k <= vars@.len(),
                keys@ == Seq::new(k as nat, |c: int| time_key(vars@[c])),
            decreases vars@.len() - k,
        {
            keys.push((false, vars[k].time, 0i64));
            assert(keys@ =~= Seq::new((k + 1) as nat, |c: int| time_key(vars@[c])));
            k = k + 1;
        }
        let order = stable_order(&keys);
        let mut clauses: Vec<Clause> = Vec::new();
        let mut weights: Vec<usize> = Vec::new();
        let mut a: usize = 0;
        while a < order.len()
            invariant
                a <= order@.len(),
                is_stable_order(keys@, order@),
                keys@ == Seq::new(vars@.len(), |c: int| time_key(vars@[c])),
                forall|c: int|
                    0 <= c < vars@.len() ==> (#[trigger] vars@[c]).id <= i64::MAX && vars@[c].time
                        < usize::MAX,
                clauses@.len() == a,
                weights@.len() == a,
                forall|c: int|
                    0 <= c < a ==> (#[trigger] clauses@[c])@ == seq![
                        positive(vars@[order@[c] as int].id),
                    ],
                forall|c: int|
                    0 <= c < a ==> #[trigger] weights@[c] == vars@[order@[c] as int].time + 1,
            decreases order@.len() - a,
        {
            assert(order@[a as int] < keys@.len());
            let var = vars[order[a]];
            clauses.push(var.to_clause());
            weights.push(var.time + 1);
            a = a + 1;
        }
        proof {
            let lists = literal_lists(clauses@);
            assert forall|c: int| 0 <= c < order@.len() implies (#[trigger] lists[c]) == seq![
                positive(vars@[order@[c] as int].id),
            ] by {
                assert(lists[c] == clauses@[c]@);
            }
            assert(sorted_objective(vars@, order@, lists, weights@));
        }
        (clauses, weights)
    }

    /// The start variables of all segments, one segment after the other.
    fn collect_all_starts(&self) -> (vars: Vec<SATSVar>)
        ensures
            vars@ == all_starts(self.segments@, self.segments@.len()),
    {
        let mut vars: Vec<SATSVar> = Vec::new();
        let mut i: usize = 0;
        while i < self.segments.len()
            invariant
                i <= self.segments@.len(),
                vars@ == all_starts(self.segments@, i as nat),
            decreases self.segments@.len() - i,
        {
            let segment = &self.segments[i];
            let ghost before = vars@;
            let mut k: usize = 0;
            while k < segment.variables.len()
                invariant
                    k <= segment.variables@.len(),
                    vars@ == before + segment.variables@.take(k as int),
                decreases segment.variables@.len() - k,
            {
                vars.push(segment.variables[k]);
                assert(vars@ =~= before + segment.variables@.take(k + 1));
                k = k + 1;
            }
            assert(segment.variables@.take(segment.variables@.len() as int)
                =~= segment.variables@);
            i = i + 1;
        }
        vars
    }

    /// The order of the variables that the comment line records: the ids of
    /// the start variables, sorted, and behind them every other id up to
    /// `last_id`.
    pub fn variable_order(&self, last_id: usize) -> (ids: Vec<usize>)
        requires
            last_id < usize::MAX,
            forall|c: int, k: int|
                0 <= c < self.segments@.len() && 0 <= k < self.segments@[c].variables@.len() ==> (
                #[trigger] self.segments@[c].variables@[k]).segment_duration <= i64::MAX,
        ensures
            is_variable_order(
                all_starts(self.segments@, self.segments@.len()),
                last_id,
                ids@,
            ),
    {
        let starts = self.collect_all_starts();
        proof {
            lemma_all_starts_members(self.segments@, self.segments@.len());
            assert forall|c: int| 0 <= c < starts@.len() implies (
            #[trigger] starts@[c]).segment_duration <= i64::MAX by {
                assert(is_start_of(self.segments@, starts@[c]));
                let (g, k) = choose|g: int, k: int|
                    0 <= g < self.segments@.len() && 0 <= k < self.segments@[g].variables@.len()
                        && #[trigger] self.segments@[g].variables@[k] == starts@[c];
            }
        }
        let mut keys: Vec<(bool, usize, i64)> = Vec::new();
        let mut k: usize = 0;
        while k < starts.len()
            invariant
                k <= starts@.len(),
                forall|c: int|
                    0 <= c < starts@.len() ==> (#[trigger] starts@[c]).segment_duration <= i64::MAX,
                keys@ == Seq::new(k as nat, |c: int| listing_key(starts@[c])),
            decreases starts@.len() - k,
        {
            let v = starts[k];
            keys.push((v.weight, v.time, -(v.segment_duration as i64)));
            assert(keys@ =~= Seq::new((k + 1) as nat, |c: int| listing_key(starts@[c])));
            k = k + 1;
        }
        let order = stable_order(&keys);
        let mut ids: Vec<usize> = Vec::new();
        let mut a: usize = 0;
        while a < order.len()
            invariant
                a <= order@.len(),
                is_stable_order(keys@, order@),
                keys@.len() == starts@.len(),
                ids@ == Seq::new(a as nat, |c: int| starts@[order@[c] as int].id),
            decreases order@.len() - a,
        {
            assert(order@[a as int] < keys@.len());
            ids.push(starts[order[a]].id);
            assert(ids@ =~= Seq::new((a + 1) as nat, |c: int| starts@[order@[c] as int].id));
            a = a + 1;
        }
        let ghost sorted = ids@;
        let mut used: Vec<bool> = Vec::new();
        let mut id: usize = 0;
        while id <= last_id
            invariant
                last_id < usize::MAX,
                id <= last_id + 1,
                used@.len() == id,
                forall|c: int| 0 <= c < id ==> !#[trigger] used@[c],
            decreases last_id + 1 - id,
        {
            used.push(false);
            id = id + 1;
        }
        let mut p: usize = 0;
        while p < starts.len()
            invariant
                p <= starts@.len(),
                used@.len() == last_id + 1,
                forall|c: int|
                    0 <= c <= last_id ==> #[trigger] used@[c] == listed_id(starts@, c, p as nat),
            decreases starts@.len() - p,
        {
            let own = starts[p].id;
            if own <= last_id {
                used.set(own, true);
            }
            proof {
                assert forall|c: int| 0 <= c <= last_id implies #[trigger] used@[c] == listed_id(
                    starts@,
                    c,
                    (p + 1) as nat,
                ) by {
                    if c == own {
                        assert(starts@[p as int].id == c);
                    } else if listed_id(starts@, c, (p + 1) as nat) {
                        let q = choose|q: int| 0 <= q < p + 1 && (#[trigger] starts@[q]).id == c;
                        assert(q < p);
                        assert(listed_id(starts@, c, p as nat));
                    } else {
                        assert(!listed_id(starts@, c, p as nat));
                    }
                }
            }
            p = p + 1;
        }
        let mut id: usize = 1;
        assert(ids@ =~= sorted + unused_upto(starts@, 0));
        while id <= last_id
            invariant
                last_id < usize::MAX,
                1 <= id <= last_id + 1,
                used@.len() == last_id + 1,
                forall|c: int|
                    0 <= c <= last_id ==> #[trigger] used@[c] == listed_id(
                        starts@,
                        c,
                        starts@.len(),
                    ),
                ids@ == sorted + unused_upto(starts@, (id - 1) as nat),
            decreases last_id + 1 - id,
        {
            if !used[id] {
                ids.push(id);
            }
            assert(ids@ =~= sorted + unused_upto(starts@, id as nat));
            id = id + 1;
        }
        assert(keys@ =~= listing_keys(starts@));
        assert(is_stable_order(listing_keys(starts@), order@));
        ids
    }

    /// The schedule has what a document is made of: an activity, segments
    /// that stand at the positions of their ids with predecessors among
    /// them, activities that name segments of the schedule, and on every
    /// segment start variables whose ids, times and spans are in range.
    pub open spec fn fit_for_document(&self) -> bool {
        &&& self.projects@.len() >= 1
        &&& is_closed(self.segments@)
        &&& has_variables(self.segments@)
        &&& start_variables_in_range(self.segments@)
        &&& forall|j: int|
            0 <= j < self.projects@.len() ==> {
                &&& (#[trigger] self.projects@[j]).duration < usize::MAX
                &&& all_within(self.projects@[j].segments@, self.segments@.len())
            }
    }

    /// The document of a schedule whose segments have their variables, for
    /// the cardinality clauses that the encoder returned and the id that
    /// was handed out last: the hard clauses are the precedence, consistency
    /// and completion clauses followed by the cardinality clauses, the soft
    /// clauses are the objective, and the comment line is the order of the
    /// variables up to `last_id`.
    pub fn document(&self, resource_clauses: Vec<Clause>, last_id: usize) -> (outcome: Result<
        String,
        DocumentError,
    >)
        requires
            self.fit_for_document(),
            last_id < usize::MAX,
        ensures
            match outcome {
                Ok(text) => is_document(*self, literal_lists(resource_clauses@), last_id, text@),
                Err(DocumentError::WeightOutOfRange) => objective_too_heavy(
                    joined_starts(
                        self.segments@,
                        self.projects@.last().segments@,
                        self.projects@.last().segments@.len(),
                    ),
                ),
            },
    {
        let ghost arena = self.segments@;
        let ghost given = literal_lists(resource_clauses@);
        let mut clauses = self.generate_clauses();
        take_over(&mut clauses, resource_clauses);
        proof {
            assert forall|c: int| 0 <= c < arena.len() implies start_ids_fit(
                (#[trigger] arena[c]).variables@,
            ) by {}
            assert forall|c: int, k: int|
                0 <= c < arena.len() && 0 <= k < arena[c].variables@.len() implies (
            #[trigger] arena[c].variables@[k]).time < usize::MAX by {}
            assert forall|c: int, k: int|
                0 <= c < arena.len() && 0 <= k < arena[c].variables@.len() implies (
            #[trigger] arena[c].variables@[k]).segment_duration <= i64::MAX by {}
            assert(all_within(self.projects@[self.projects@.len() - 1].segments@, arena.len()));
        }
        let soft = self.objective();
        let order = self.variable_order(last_id);
        let ghost hard = clauses@;
        let ghost soft_clauses = soft.0@;
        let ghost weights = soft.1@;
        let ghost listed = order@;
        match write_wcnf(order, clauses, soft.0, soft.1) {
            Ok(text) => {
                assert(document_text(listed, hard, soft_clauses, weights) == text@);
                assert(literal_lists(hard) == structural_clauses(arena, self.projects@) + given);
                Ok(text)
            },
            Err(DocumentError::WeightOutOfRange) => {
                assert(is_objective(
                    joined_starts(
                        arena,
                        self.projects@.last().segments@,
                        self.projects@.last().segments@.len(),
                    ),
                    literal_lists(soft_clauses),
                    weights,
                ));
                Err(DocumentError::WeightOutOfRange)
            },
        }
    }

    /// The stages before the cardinality encoder: setup times, start-time
    /// windows, and variables with ids from 1. The first stage that fails
    /// ends the work with its reason; each fails on exactly the inputs that
    /// its reason names. On success the issuer of literal ids is returned,
    /// standing behind the last variable.
    pub fn prepare(&mut self, set_up_cost: usize) -> (outcome: Result<IdGenerator, EncodeError>)
        requires
            old(self).ready(),
        ensures
            final(self).projects == old(self).projects,
            final(self).resources == old(self).resources,
            final(self).segments@.len() == old(self).segments@.len(),
            fails_on_span(old(self).segments@, set_up_cost) <==> (outcome matches Err(error)
                && error is SpanOutOfRange),
            outcome matches Err(EncodeError::SpanOutOfRange { segment }) ==> first_span_fault(
                old(self).segments@,
                set_up_cost,
                segment,
            ) && *final(self) == *old(self),
            fails_on_horizon(old(self).segments@, set_up_cost) <==> (outcome matches Err(error)
                && error is HorizonOutOfRange),
            fails_on_window(old(self).segments@, set_up_cost) <==> (outcome matches Err(error)
                && error is Disconnected),
            outcome matches Err(EncodeError::Disconnected { segment }) ==> first_window_fault(
                with_set_up(old(self).segments@, set_up_cost),
                segment,
            ),
            fails_on_variables(old(self).segments@, set_up_cost) <==> (outcome matches Err(error)
                && error is TooManyVariables),
            reaches_encoder(old(self).segments@, set_up_cost) <==> outcome is Ok,
            outcome is Err && spans_fit(old(self).segments@, set_up_cost) ==> final(self).segments@ == with_set_up(old(self).segments@, set_up_cost),
            outcome matches Ok(issuer) ==> {
                &&& variables_attached(
                    with_set_up(old(self).segments@, set_up_cost),
                    final(self).segments@,
                )
                &&& issuer.0 == first_id_of(
                    with_set_up(old(self).segments@, set_up_cost),
                    old(self).segments@.len(),
                )
                &&& final(self).fit_for_document()
                &&& demands_cover(final(self).segments@, final(self).resources@.len())
            },
    {
        let ghost start = self.segments@;
        match self.add_set_up_times(set_up_cost) {
            Err(error) => {
                proof {
                    if let EncodeError::SpanOutOfRange { segment } = error {
                        assert(span_with_set_up(start[segment as int], set_up_cost) > UNREACHABLE);
                        assert(!spans_fit(start, set_up_cost));
                    }
                }
                return Err(error);
            },
            Ok(()) => {},
        }
        let ghost spanned = self.segments@;
        proof {
            assert(spans_fit(start, set_up_cost));
            assert(spanned =~= with_set_up(start, set_up_cost));
            lemma_spanned_graph(start, set_up_cost);
        }
        let windows = match self.time_windows() {
            Ok(windows) => windows,
            Err(error) => {
                proof {
                    if let EncodeError::Disconnected { segment } = error {
                        assert(window_fault(spanned, segment as int));
                        assert(!windows_exist(spanned));
                    }
                }
                return Err(error);
            },
        };
        let mut id_gen = IdGenerator::generator_for_sat();
        proof {
            assert forall|i: int| 0 <= i < spanned.len() implies !#[trigger] window_fault(
                spanned,
                i,
            ) by {
                assert(windows.earliest@[i] == earliest_start(spanned, i));
            }
            assert(windows_exist(spanned));
            assert forall|i: int| 0 <= i < spanned.len() implies (#[trigger] spanned[i]).duration
                <= UNREACHABLE by {
                assert(span_with_set_up(start[i], set_up_cost) <= UNREACHABLE);
            }
            assert(windows.earliest@ =~= earliest_starts(spanned));
            assert(windows.horizon == horizon_of(spanned));
        }
        match self.generate_variables(&mut id_gen, &windows) {
            Err(error) => {
                assert(too_many_variables(spanned));
                assert(self.segments@ == spanned);
                return Err(error);
            },
            Ok(()) => {},
        }
        proof {
            let arena = self.segments@;
            assert(!too_many_variables(spanned));
            assert forall|i: int| 0 <= i < spanned.len() implies window_attached(
                spanned[i],
                #[trigger] arena[i],
                first_id_of(spanned, i as nat),
                earliest_starts(spanned)[i],
                horizon_of(spanned) as usize,
            ) by {}
            assert(variables_attached(spanned, arena));
            assert forall|i: int| 0 <= i < spanned.len() implies windows.earliest@[i]
                <= windows.horizon by {}
            lemma_variables_fit(
                start,
                set_up_cost,
                arena,
                windows.earliest@,
                windows.horizon,
                self.resources@.len(),
            );
            assert(self.projects@ == old(self).projects@);
        }
        Ok(id_gen)
    }

    /// The weighted-CNF document of the instance for the given setup cost.
    ///
    /// The stages follow each other: setup times, start-time windows,
    /// variables with ids from 1, the cardinality clauses of the encoder,
    /// and the document. The first stage that fails ends the work with its
    /// reason, and each of the stages before the encoder fails on exactly
    /// the inputs that its reason names. Without resources the encoder is
    /// not asked, and only the weight of the objective can stand in the way.
    pub fn encode(&mut self, set_up_cost: usize) -> (outcome: Result<String, EncodeError>)
        requires
            old(self).ready(),
        ensures
            final(self).projects == old(self).projects,
            final(self).resources == old(self).resources,
            final(self).segments@.len() == old(self).segments@.len(),
            fails_on_span(old(self).segments@, set_up_cost) <==> (outcome matches Err(error)
                && error is SpanOutOfRange),
            outcome matches Err(EncodeError::SpanOutOfRange { segment }) ==> first_span_fault(
                old(self).segments@,
                set_up_cost,
                segment,
            ) && *final(self) == *old(self),
            fails_on_horizon(old(self).segments@, set_up_cost) <==> (outcome matches Err(error)
                && error is HorizonOutOfRange),
            fails_on_window(old(self).segments@, set_up_cost) <==> (outcome matches Err(error)
                && error is Disconnected),
            outcome matches Err(EncodeError::Disconnected { segment }) ==> first_window_fault(
                with_set_up(old(self).segments@, set_up_cost),
                segment,
            ),
            fails_on_variables(old(self).segments@, set_up_cost) <==> (outcome matches Err(error)
                && error is TooManyVariables),
            reaches_encoder(old(self).segments@, set_up_cost) ==> variables_attached(
                with_set_up(old(self).segments@, set_up_cost),
                final(self).segments@,
            ),
            spans_fit(old(self).segments@, set_up_cost) && !reaches_encoder(
                old(self).segments@,
                set_up_cost,
            ) ==> final(self).segments@ == with_set_up(old(self).segments@, set_up_cost),
            reaches_encoder(old(self).segments@, set_up_cost) && old(self).resources@.len() == 0
                ==> outcome is Ok || (outcome matches Err(error) && error is WeightOutOfRange),
            outcome matches Err(EncodeError::Oracle(_)) ==> old(self).resources@.len() > 0,
            outcome matches Err(EncodeError::WeightOutOfRange) ==> objective_too_heavy(
                joined_starts(
                    final(self).segments@,
                    final(self).projects@.last().segments@,
                    final(self).projects@.last().segments@.len(),
                ),
            ),
            outcome matches Ok(text) ==> is_encoding(
                *final(self),
                first_id_of(
                    with_set_up(old(self).segments@, set_up_cost),
                    old(self).segments@.len(),
                ),
                text@,
            ),
    {
        let mut id_gen = match self.prepare(set_up_cost) {
            Ok(id_gen) => id_gen,
            Err(error) => {
                return Err(error);
            },
        };
        let ghost arena = self.segments@;
        let u_vars = self.active_variables();
        proof {
            assert forall|p: int| 0 <= p < u_vars@.len() implies (
            #[trigger] u_vars@[p]).resource_usage@.len() >= self.resources@.len() by {
                assert(copied_from(arena, u_vars@[p]));
                let (i, k) = choose|i: int, k: int|
                    0 <= i < arena.len() && 0 <= k < arena[i].uvariables@.len()
                        && #[trigger] same_active(u_vars@[p], arena[i].uvariables@[k]);
                assert(arena[i].uvariables@[k].resource_usage@.len() >= self.resources@.len());
            }
        }
        let ghost first_free = id_gen.0 as int;
        let resource_clauses = match Clause::u_vec_accum(&u_vars, &mut id_gen, &self.resources) {
            Ok(resource_clauses) => resource_clauses,
            Err(error) => {
                assert(self.resources@.len() > 0);
                return Err(EncodeError::Oracle(error));
            },
        };
        let ghost given = literal_lists(resource_clauses@);
        let last_id = id_gen.current_asignment();
        proof {
            assert(given.len() == resource_clauses@.len());
            assert(last_id == moved_past(first_free, largest_magnitude(given, given.len()) as int)
                - 1);
        }
        match self.document(resource_clauses, last_id) {
            Ok(text) => {
                assert(is_document(*self, given, last_id, text@));
                assert(is_encoding(*self, first_free, text@));
                Ok(text)
            },
            Err(DocumentError::WeightOutOfRange) => Err(EncodeError::WeightOutOfRange),
        }
    }
}

/// With the setup added to spans that stay in range, a closed list of
/// segments is a graph over which distances can be taken.
proof fn lemma_spanned_graph(start: Seq<Segment>, cost: usize)
    requires
        is_closed(start),
        spans_fit(start, cost),
    ensures
        is_graph(with_set_up(start, cost)),
{
    let spanned = with_set_up(start, cost);
    assert forall|i: int| 0 <= i < spanned.len() implies (#[trigger] spanned[i]).id == i
        && predecessors_within(spanned[i], spanned) by {
        assert(start[i].id == i);
        assert(all_within(start[i].precedence@, start.len()));
        assert forall|c: int| 0 <= c < spanned[i].precedence@.len() implies {
            &&& (#[trigger] spanned[i].precedence@[c]) < spanned.len()
            &&& spanned[spanned[i].precedence@[c] as int].duration <= UNREACHABLE
        } by {
            let p = spanned[i].precedence@[c] as int;
            assert(start[i].precedence@[c] < start.len());
            assert(span_with_set_up(start[p], cost) <= UNREACHABLE);
        }
    }
}

/// Every active variable of every segment states a demand for each of
/// `count` resources.
pub open spec fn demands_cover(arena: Seq<Segment>, count: nat) -> bool {
    forall|i: int, k: int|
        0 <= i < arena.len() && 0 <= k < arena[i].uvariables@.len() ==> (
        #[trigger] arena[i].uvariables@[k]).resource_usage@.len() >= count
}

/// Once the variables are attached to the segments of a schedule that was
/// fit to be encoded, the schedule has what a document is made of.
proof fn lemma_variables_fit(
    start: Seq<Segment>,
    cost: usize,
    arena: Seq<Segment>,
    earliest: Seq<usize>,
    horizon: usize,
    resources: nat,
)
    requires
        is_closed(start),
        spans_fit(start, cost),
        arena.len() == start.len(),
        earliest.len() == start.len(),
        horizon <= 2_147_483_648,
        forall|i: int| 0 <= i < start.len() ==> #[trigger] earliest[i] <= horizon,
        forall|i: int| 0 <= i < start.len() ==> (#[trigger] start[i]).resource@.len() >= resources,
        1 + variables_before(with_set_up(start, cost), earliest, horizon as int, start.len())
            <= literal_limit(),
        forall|i: int|
            0 <= i < start.len() ==> window_attached(
                with_set_up(start, cost)[i],
                #[trigger] arena[i],
                (1 + variables_before(with_set_up(start, cost), earliest, horizon as int, i as nat))
                    as int,
                earliest[i],
                horizon,
            ),
    ensures
        is_closed(arena),
        has_variables(arena),
        start_variables_in_range(arena),
        demands_cover(arena, resources),
{
    let spanned = with_set_up(start, cost);
    let n = start.len();
    assert forall|i: int| 0 <= i < n implies {
        &&& (#[trigger] arena[i]).id == i
        &&& all_within(arena[i].precedence@, n)
        &&& arena[i].variables@.len() > 0
        &&& start_ids_fit(arena[i].variables@)
        &&& active_ids_fit(arena[i].uvariables@)
        &&& forall|k: int|
            0 <= k < arena[i].variables@.len() ==> (#[trigger] arena[i].variables@[k]).time
                < usize::MAX && arena[i].variables@[k].segment_duration <= i64::MAX
        &&& forall|k: int|
            0 <= k < arena[i].uvariables@.len() ==> (
            #[trigger] arena[i].uvariables@[k]).resource_usage@.len() >= resources
    } by {
        assert(earliest[i] <= horizon);
        assert(span_with_set_up(start[i], cost) <= UNREACHABLE);
        assert(spanned[i].duration <= UNREACHABLE);
        lemma_attached_variables(spanned, arena, earliest, horizon, i);
        assert(start[i].id == i);
        assert(all_within(start[i].precedence@, start.len()));
        assert(start[i].resource@.len() >= resources);
    }
    assert(is_closed(arena));
    assert(has_variables(arena));
    assert forall|c: int, k: int|
        0 <= c < arena.len() && 0 <= k < arena[c].variables@.len() implies (
    #[trigger] arena[c].variables@[k]).time < usize::MAX && arena[c].variables@[k].segment_duration
        <= i64::MAX by {
        assert(arena[c].variables@.len() > 0);
    }
    assert forall|i: int, k: int|
        0 <= i < arena.len() && 0 <= k < arena[i].uvariables@.len() implies (
    #[trigger] arena[i].uvariables@[k]).resource_usage@.len() >= resources by {
        assert(arena[i].variables@.len() > 0);
    }
}

/// Every start variable of the joined list is a start variable of a segment.
proof fn lemma_all_starts_members(arena: Seq<Segment>, count: nat)
    requires
        count <= arena.len(),
    ensures
        forall|c: int|
            0 <= c < all_starts(arena, count).len() ==> is_start_of(
                arena,
                #[trigger] all_starts(arena, count)[c],
            ),
    decreases count,
{
    if count > 0 {
        lemma_all_starts_members(arena, (count - 1) as nat);
        let rest = all_starts(arena, (count - 1) as nat);
        let all = all_starts(arena, count);
        assert forall|c: int| 0 <= c < all.len() implies is_start_of(arena, #[trigger] all[c]) by {
            if c < rest.len() {
                assert(all[c] == rest[c]);
            } else {
                assert(all[c] == arena[count - 1].variables@[c - rest.len()]);
            }
        }
    }
}

/// More segments have more active variables.
pub proof fn lemma_actives_before_monotone(arena: Seq<Segment>, a: nat, b: nat)
    requires
        a <= b,
    ensures
        actives_before(arena, a) <= actives_before(arena, b),
    decreases b,
{
    if a < b {
        lemma_actives_before_monotone(arena, a, (b - 1) as nat);
    }
}

/// Every collected start variable is a start variable of a named segment.
proof fn lemma_joined_starts_members(arena: Seq<Segment>, picks: Seq<usize>, count: nat)
    requires
        count <= picks.len(),
        all_within(picks, arena.len()),
    ensures
        forall|c: int|
            0 <= c < joined_starts(arena, picks, count).len() ==> is_start_of(
                arena,
                #[trigger] joined_starts(arena, picks, count)[c],
            ),
    decreases count,
{
    if count > 0 {
        lemma_joined_starts_members(arena, picks, (count - 1) as nat);
        let rest = joined_starts(arena, picks, (count - 1) as nat);
        let all = joined_starts(arena, picks, count);
        let g = picks[count - 1] as int;
        assert forall|c: int| 0 <= c < all.len() implies is_start_of(arena, #[trigger] all[c]) by {
            if c < rest.len() {
                assert(all[c] == rest[c]);
            } else {
                assert(all[c] == arena[g].variables@[c - rest.len()]);
            }
        }
    }
}

/// `clauses` and `weights` are the unit clauses and weights of `vars` in the
/// order `order`, which sorts them by time.
pub open spec fn sorted_objective(
    vars: Seq<SATSVar>,
    order: Seq<usize>,
    clauses: Seq<Seq<i64>>,
    weights: Seq<usize>,
) -> bool {
    &&& is_stable_order(Seq::new(vars.len(), |c: int| time_key(vars[c])), order)
    &&& clauses.len() == vars.len()
    &&& weights.len() == vars.len()
    &&& forall|c: int|
        0 <= c < vars.len() ==> (#[trigger] clauses[c]) == seq![positive(vars[order[c] as int].id)]
    &&& forall|c: int|
        0 <= c < vars.len() ==> #[trigger] weights[c] == vars[order[c] as int].time + 1
}

/// `clauses` and `weights` are the soft objective over `vars`: one unit
/// clause per variable, by rising time and for equal times in the order of
/// `vars`, each weighted with one more than its time.
pub open spec fn is_objective(vars: Seq<SATSVar>, clauses: Seq<Seq<i64>>, weights: Seq<usize>) -> bool {
    exists|order: Seq<usize>| sorted_objective(vars, order, clauses, weights)
}

} // verus!
